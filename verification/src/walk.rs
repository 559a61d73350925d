//! Walking a directory tree for Markdown files.
//!
//! The walk decides what is to be listed and read, and in which order; it touches no
//! file system itself. It is driven in turns: [`Walk::next_action`] names the
//! directory to list or the file to read, and [`Walk::listed`], [`Walk::read`] or
//! [`Walk::fail`] takes what came of it. Directories are entered depth first, their
//! entries in the order of the listing, and files that are not Markdown are passed
//! over in silence.

use crate::lines::lines_of;
use crate::link::{views, Link, LinkView};
use crate::scan::{file_links, from_file};
use vstd::prelude::*;
use vstd::string::*;

verus! {

/// Why a scan came to nothing.
#[derive(Clone, Copy, Debug, PartialEq, Eq, Structural)]
pub enum ScanError {
    /// The path to scan does not exist or cannot be reached.
    PathNotFound,
    /// The path names a single file that is not a Markdown file.
    UnsupportedExtension,
    /// A directory could not be listed or a file could not be read.
    Io,
}

/// What is found at a path.
#[derive(Clone, Copy, Debug, PartialEq, Eq, Structural)]
pub enum PathKind {
    /// Nothing, or nothing that can be reached.
    Missing,
    /// A file.
    File,
    /// A directory.
    Directory,
}

/// One entry of a directory listing, or the path a walk starts from.
#[derive(Clone, Debug)]
pub struct Entry {
    /// The entry's path, as it is to be read and reported.
    pub path: String,
    /// Whether the entry is a directory.
    pub is_dir: bool,
}

/// The mathematical value of an [`Entry`].
pub struct EntryView {
    pub path: Seq<char>,
    pub is_dir: bool,
}

impl View for Entry {
    type V = EntryView;

    open spec fn view(&self) -> EntryView {
        EntryView { path: self.path@, is_dir: self.is_dir }
    }
}

/// The values of a sequence of entries.
pub open spec fn entry_views(entries: Seq<Entry>) -> Seq<EntryView> {
    entries.map_values(|e: Entry| e@)
}

/// What the driver of a walk has to do next.
#[derive(Clone, Debug)]
pub enum Action {
    /// List the directory at this path and hand the entries to [`Walk::listed`].
    List(String),
    /// Read the file at this path and hand the content to [`Walk::read`].
    Read(String),
    /// Nothing: the walk is over.
    Done,
}

/// Whether a path counts as that of a Markdown file: it ends in the two characters
/// `md`. This is a test on the last two characters and not on an extension, so
/// `notes.md` passes, and so does `build.cmd`.
pub open spec fn is_markdown_spec(path: Seq<char>) -> bool {
    path.len() >= 2 && path[path.len() - 2] == 'm' && path[path.len() - 1] == 'd'
}

/// Whether a walk goes into an entry: into every directory, and into the files that
/// count as Markdown.
pub open spec fn visited(entry: EntryView) -> bool {
    entry.is_dir || is_markdown_spec(entry.path)
}

/// The entries of a listing that a walk goes into, in the order of the listing.
pub open spec fn to_visit(entries: Seq<EntryView>) -> Seq<EntryView> {
    entries.filter(|e: EntryView| visited(e))
}

/// An entry that is passed over leaves no trace: the listing without it is visited
/// in the same way, wherever in the listing the entry stands.
pub proof fn lemma_passed_over(before: Seq<EntryView>, entry: EntryView, after: Seq<EntryView>)
    requires
        !visited(entry),
    ensures
        to_visit(before + seq![entry] + after) == to_visit(before + after),
{
    let pred = |e: EntryView| visited(e);
    Seq::filter_distributes_over_add(before + seq![entry], after, pred);
    Seq::filter_distributes_over_add(before, seq![entry], pred);
    Seq::filter_distributes_over_add(before, after, pred);
    assert(Seq::<EntryView>::empty().push(entry) =~= seq![entry]);
    Seq::<EntryView>::empty().lemma_filter_push(entry, pred);
    Seq::<EntryView>::empty().lemma_filter_len(pred);
    assert(seq![entry].filter(pred) =~= Seq::<EntryView>::empty());
    assert(before.filter(pred) + seq![entry].filter(pred) =~= before.filter(pred));
}

/// Every entry that a walk goes into is a directory or a Markdown file.
pub proof fn lemma_to_visit_visited(entries: Seq<EntryView>, i: int)
    requires
        0 <= i < to_visit(entries).len(),
    ensures
        visited(to_visit(entries)[i]),
        entries.contains(to_visit(entries)[i]),
{
    let pred = |e: EntryView| visited(e);
    entries.lemma_filter_pred(pred, i);
    assert(entries.filter(pred).contains(to_visit(entries)[i]));
    entries.lemma_filter_contains_rev(pred, to_visit(entries)[i]);
}

/// Tells whether a path counts as that of a Markdown file: whether it ends in `md`.
pub fn is_markdown(path: &str) -> (yes: bool)
    ensures
        yes == is_markdown_spec(path@),
{
    let n: usize = path.unicode_len();
    n >= 2 && path.get_char(n - 2) == 'm' && path.get_char(n - 1) == 'd'
}

/// A walk over a directory tree, or over a single file.
pub struct Walk {
    pending: Vec<Entry>,
    links: Vec<Link>,
    failed: bool,
}

impl Walk {
    /// What is still to be visited, the next entry first.
    pub closed spec fn queue(&self) -> Seq<EntryView> {
        entry_views(self.pending@).reverse()
    }

    /// The links found so far.
    pub closed spec fn found(&self) -> Seq<LinkView> {
        views(self.links@)
    }

    /// Whether the walk was given up.
    pub closed spec fn failed(&self) -> bool {
        self.failed
    }

    /// What holds between any two turns: nothing is to be visited but directories and
    /// Markdown files, every link found is well formed and carries no verdict, and a
    /// walk that was given up holds nothing.
    pub open spec fn wf(&self) -> bool {
        &&& forall|i: int| 0 <= i < self.queue().len() ==> visited(#[trigger] self.queue()[i])
        &&& forall|i: int|
            0 <= i < self.found().len() ==> {
                &&& (#[trigger] self.found()[i]).wf()
                &&& self.found()[i].valid is None
                &&& self.found()[i].status is None
            }
        &&& self.failed() ==> self.queue().len() == 0 && self.found().len() == 0
    }

    /// Whether the walk waits for the listing of a directory.
    pub open spec fn listing(&self) -> bool {
        self.queue().len() > 0 && self.queue()[0].is_dir
    }

    /// Whether the walk waits for the content of a file.
    pub open spec fn reading(&self) -> bool {
        self.queue().len() > 0 && !self.queue()[0].is_dir
    }

    /// Names what is to be done next: the first entry still to be visited is to be
    /// listed if it is a directory and read if it is a file; with nothing left to
    /// visit the walk is over.
    pub fn next_action(&self) -> (action: Action)
        requires
            self.wf(),
        ensures
            match action {
                Action::List(path) => self.listing() && path@ == self.queue()[0].path,
                Action::Read(path) => self.reading() && path@ == self.queue()[0].path,
                Action::Done => self.queue().len() == 0,
            },
    {
        let n = self.pending.len();
        if n == 0 {
            assert(self.queue().len() == 0);
            Action::Done
        } else {
            let top = &self.pending[n - 1];
            assert(self.queue()[0] == top@);
            if top.is_dir {
                Action::List(top.path.clone())
            } else {
                Action::Read(top.path.clone())
            }
        }
    }

    /// Takes the listing of the directory that the walk waits for. The entries that
    /// are directories or Markdown files are visited next, in the order of the
    /// listing and before anything else that is still to be visited; the other
    /// entries are dropped. Returns `false`, and changes nothing, where the walk does
    /// not wait for a listing.
    pub fn listed(&mut self, entries: Vec<Entry>) -> (taken: bool)
        requires
            old(self).wf(),
        ensures
            final(self).wf(),
            taken == old(self).listing(),
            taken ==> final(self).queue() == to_visit(entry_views(entries@)) + old(self).queue().skip(1),
            !taken ==> final(self).queue() == old(self).queue(),
            final(self).found() == old(self).found(),
            final(self).failed() == old(self).failed(),
    {
        let n = self.pending.len();
        if n == 0 {
            assert(self.queue().len() == 0);
            return false;
        }
        assert(self.queue()[0] == self.pending@[n - 1]@);
        if !self.pending[n - 1].is_dir {
            return false;
        }
        let ghost all = entry_views(entries@);
        let ghost pred = |e: EntryView| visited(e);
        let ghost rest = entry_views(old(self).pending@).drop_last();
        self.pending.pop();
        let mut entries = entries;
        proof {
            assert(all.skip(all.len() as int) =~= Seq::<EntryView>::empty());
            Seq::<EntryView>::empty().lemma_filter_len(pred);
            assert(entry_views(self.pending@) =~= rest + all.skip(all.len() as int).filter(
                pred,
            ).reverse());
            assert(entry_views(entries@) =~= all.take(all.len() as int));
        }
        loop
            invariant
                pred == |e: EntryView| visited(e),
                entries@.len() <= all.len(),
                entry_views(entries@) == all.take(entries@.len() as int),
                entry_views(self.pending@) == rest + all.skip(entries@.len() as int).filter(
                    pred,
                ).reverse(),
                self.links == old(self).links,
                self.failed == old(self).failed,
            ensures
                entries@.len() == 0,
                entry_views(self.pending@) == rest + all.filter(pred).reverse(),
                self.links == old(self).links,
                self.failed == old(self).failed,
            decreases entries@.len(),
        {
            let ghost k = entries@.len() as int;
            let ghost stack = entry_views(self.pending@);
            match entries.pop() {
                Some(entry) => {
                    proof {
                        assert(entry_views(entries@) =~= all.take(k - 1));
                        assert(entry@ == all.take(k)[k - 1]);
                        assert(all.skip(k - 1) =~= seq![entry@] + all.skip(k));
                        Seq::filter_distributes_over_add(seq![entry@], all.skip(k), pred);
                        assert(Seq::<EntryView>::empty().push(entry@) =~= seq![entry@]);
                        Seq::<EntryView>::empty().lemma_filter_push(entry@, pred);
                        Seq::<EntryView>::empty().lemma_filter_len(pred);
                    }
                    if entry.is_dir || is_markdown(entry.path.as_str()) {
                        proof {
                            assert(seq![entry@].filter(pred) =~= seq![entry@]);
                            assert((seq![entry@] + all.skip(k).filter(pred)).reverse() =~= all.skip(
                                k,
                            ).filter(pred).reverse().push(entry@));
                            assert(entry_views(self.pending@.push(entry)) =~= stack.push(entry@));
                        }
                        self.pending.push(entry);
                    } else {
                        proof {
                            assert(seq![entry@].filter(pred) =~= Seq::<EntryView>::empty());
                            assert(seq![entry@].filter(pred) + all.skip(k).filter(pred) =~= all.skip(
                                k,
                            ).filter(pred));
                        }
                    }
                },
                None => {
                    proof {
                        assert(all.skip(0) =~= all);
                    }
                    break ;
                },
            }
        }
        proof {
            let visit = to_visit(all);
            assert(self.queue() =~= visit + old(self).queue().skip(1));
            assert forall|i: int| 0 <= i < self.queue().len() implies visited(
                #[trigger] self.queue()[i],
            ) by {
                if i < visit.len() {
                    lemma_to_visit_visited(all, i);
                } else {
                    assert(self.queue()[i] == old(self).queue()[i - visit.len() + 1]);
                }
            }
        }
        true
    }

    /// Takes the content of the file that the walk waits for: its links are added
    /// behind those found so far. Returns `false`, and changes nothing, where the walk
    /// does not wait for a file.
    pub fn read(&mut self, content: &str) -> (taken: bool)
        requires
            old(self).wf(),
            old(self).reading() ==> lines_of(content@).len() <= u32::MAX,
        ensures
            final(self).wf(),
            taken == old(self).reading(),
            taken ==> final(self).queue() == old(self).queue().skip(1),
            taken ==> final(self).found() == old(self).found() + file_links(
                old(self).queue()[0].path,
                content@,
            ),
            !taken ==> final(self).queue() == old(self).queue(),
            !taken ==> final(self).found() == old(self).found(),
            final(self).failed() == old(self).failed(),
    {
        let n = self.pending.len();
        if n == 0 {
            assert(self.queue().len() == 0);
            return false;
        }
        assert(self.queue()[0] == self.pending@[n - 1]@);
        if self.pending[n - 1].is_dir {
            return false;
        }
        let mut links = from_file(self.pending[n - 1].path.as_str(), content);
        let ghost added = views(links@);
        self.pending.pop();
        self.links.append(&mut links);
        proof {
            assert(self.queue() =~= old(self).queue().skip(1));
            assert(self.found() =~= old(self).found() + added);
            assert forall|i: int| 0 <= i < self.found().len() implies {
                &&& (#[trigger] self.found()[i]).wf()
                &&& self.found()[i].valid is None
                &&& self.found()[i].status is None
            } by {
                if i < old(self).found().len() {
                    assert(self.found()[i] == old(self).found()[i]);
                } else {
                    assert(self.found()[i] == added[i - old(self).found().len()]);
                }
            }
            assert forall|i: int| 0 <= i < self.queue().len() implies visited(
                #[trigger] self.queue()[i],
            ) by {
                assert(self.queue()[i] == old(self).queue()[i + 1]);
            }
        }
        true
    }

    /// Gives the walk up, as after a directory that could not be listed or a file that
    /// could not be read: nothing is left to visit, and what was found is dropped.
    pub fn fail(&mut self)
        ensures
            final(self).wf(),
            final(self).failed(),
            final(self).queue().len() == 0,
            final(self).found().len() == 0,
    {
        self.pending.clear();
        self.links.clear();
        self.failed = true;
    }

    /// Ends the walk: the links found, in the order in which they were found, or the
    /// error of a walk that was given up.
    pub fn finish(self) -> (result: Result<Vec<Link>, ScanError>)
        ensures
            match result {
                Ok(links) => !self.failed() && views(links@) == self.found(),
                Err(error) => self.failed() && error == ScanError::Io,
            },
    {
        if self.failed {
            Err(ScanError::Io)
        } else {
            Ok(self.links)
        }
    }
}

/// Starts a walk from a path, given what is found there. A missing path and a single
/// file that is not Markdown are errors. Otherwise the walk has the path itself to
/// visit, and has found nothing yet.
pub fn from_path(path: &str, kind: PathKind) -> (result: Result<Walk, ScanError>)
    ensures
        match result {
            Ok(walk) => {
                &&& walk.wf()
                &&& !walk.failed()
                &&& walk.found().len() == 0
                &&& walk.queue() == seq![EntryView { path: path@, is_dir: kind == PathKind::Directory }]
                &&& kind != PathKind::Missing
                &&& kind == PathKind::File ==> is_markdown_spec(path@)
            },
            Err(error) => {
                &&& error == ScanError::PathNotFound <==> kind == PathKind::Missing
                &&& error == ScanError::UnsupportedExtension <==> kind == PathKind::File
                    && !is_markdown_spec(path@)
                &&& error != ScanError::Io
                &&& kind != PathKind::Directory
            },
        },
{
    let is_dir = match kind {
        PathKind::Missing => {
            return Err(ScanError::PathNotFound);
        },
        PathKind::File => {
            if !is_markdown(path) {
                return Err(ScanError::UnsupportedExtension);
            }
            false
        },
        PathKind::Directory => true,
    };
    let mut pending: Vec<Entry> = Vec::new();
    let root = Entry { path: path.to_owned(), is_dir };
    pending.push(root);
    let walk = Walk { pending, links: Vec::new(), failed: false };
    proof {
        assert(walk.queue() =~= seq![root@]);
    }
    Ok(walk)
}

} // verus!
