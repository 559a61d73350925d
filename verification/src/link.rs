//! One hyperlink found in a document.

use crate::target::{classify_spec, Target};
use vstd::prelude::*;

verus! {

/// One occurrence of a hyperlink.
#[derive(Clone, Debug)]
pub struct Link {
    /// The link's destination, exactly as written.
    pub url: String,
    /// The anchor text.
    pub text: String,
    /// The path of the file that holds the link, as it was given.
    pub file: String,
    /// The line of the file on which the link stands, counted from 1.
    pub line: u32,
    /// The kind of destination, fixed by `url` alone.
    pub target: Target,
    /// Unset until the link is validated; then whether the response status was 200.
    pub valid: Option<bool>,
    /// Unset until the link is validated; then the status code received, if any was.
    pub status: Option<u16>,
}

/// The mathematical value of a [`Link`]: its strings as sequences of characters.
pub struct LinkView {
    pub url: Seq<char>,
    pub text: Seq<char>,
    pub file: Seq<char>,
    pub line: nat,
    pub target: Target,
    pub valid: Option<bool>,
    pub status: Option<u16>,
}

impl View for Link {
    type V = LinkView;

    open spec fn view(&self) -> LinkView {
        LinkView {
            url: self.url@,
            text: self.text@,
            file: self.file@,
            line: self.line as nat,
            target: self.target,
            valid: self.valid,
            status: self.status,
        }
    }
}

impl LinkView {
    /// A link as extraction leaves it: classified, and not validated.
    pub open spec fn fresh(file: Seq<char>, line: nat, text: Seq<char>, url: Seq<char>) -> LinkView {
        LinkView { url, text, file, line, target: classify_spec(url), valid: None, status: None }
    }

    /// What holds of every link that the scanner produced and the validator may have
    /// touched: the target follows from the URL, lines count from 1, and a verdict is
    /// present only on absolute links and agrees with the status where there is one.
    pub open spec fn wf(self) -> bool {
        &&& self.target == classify_spec(self.url)
        &&& self.line >= 1
        &&& self.valid is Some ==> self.target == Target::Absolute
        &&& self.status is Some ==> self.valid == Some(self.status->0 == 200)
        &&& self.valid == Some(true) ==> self.status == Some(200u16)
    }

    /// Whether the link counts as broken: an absolute link without a passing verdict.
    pub open spec fn broken(self) -> bool {
        self.target == Target::Absolute && self.valid != Some(true)
    }
}

/// The values of a sequence of links.
pub open spec fn views(links: Seq<Link>) -> Seq<LinkView> {
    links.map_values(|l: Link| l@)
}

} // verus!
