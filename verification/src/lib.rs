//! Finds the links in Markdown documents, classifies them, and keeps the books while
//! the absolute ones are validated.
//!
//! The library computes and decides; it reads no file and sends no request. A caller
//! drives it in turns: a [`walk::Walk`] says which directory to list and which file to
//! read, and takes the listing or the content; a [`validate::Validator`] says which URL
//! to fetch, and takes the status that came back. What comes out is a list of
//! [`Link`]s, which [`print`] renders and [`stats`] sums up.

pub mod decimal;
pub mod lines;
pub mod link;
pub mod pattern;
pub mod print;
pub mod scan;
pub mod stats;
pub mod target;
pub mod text;
pub mod tree;
pub mod validate;
pub mod walk;

pub use crate::link::Link;
pub use crate::target::Target;
pub use crate::walk::from_path;
