//! The links of a directory tree, and why a walk finds exactly them.
//!
//! A tree is a mathematical picture of what lies under a path: files with their
//! content and directories with their entries in listing order. The links of a tree
//! are defined by recursion over it. A walk works off a list of entries instead; the
//! laws at the end show that it comes to the same links in the same order.

use crate::link::LinkView;
use crate::scan::file_links;
use crate::walk::{is_markdown_spec, to_visit, visited, EntryView};
use vstd::prelude::*;

verus! {

/// What lies under a path.
pub enum Tree {
    /// A file and its content.
    File { path: Seq<char>, content: Seq<char> },
    /// A directory and what it holds, in the order of its listing.
    Dir { path: Seq<char>, children: Seq<Tree> },
}

impl Tree {
    /// The tree's root as an entry of a listing.
    pub open spec fn entry(self) -> EntryView {
        match self {
            Tree::File { path, content } => EntryView { path, is_dir: false },
            Tree::Dir { path, children } => EntryView { path, is_dir: true },
        }
    }

    /// The links of the tree: those of a Markdown file's content; none for another
    /// file; for a directory those of its entries, entry after entry.
    pub open spec fn links(self) -> Seq<LinkView>
        decreases self,
    {
        match self {
            Tree::File { path, content } => if is_markdown_spec(path) {
                file_links(path, content)
            } else {
                Seq::empty()
            },
            Tree::Dir { path, children } => forest_links(children),
        }
    }

    /// The number of files and directories in the tree.
    pub open spec fn size(self) -> nat
        decreases self,
    {
        match self {
            Tree::File { path, content } => 1,
            Tree::Dir { path, children } => 1 + forest_size(children),
        }
    }
}

/// The links of several trees, tree after tree.
pub open spec fn forest_links(trees: Seq<Tree>) -> Seq<LinkView>
    decreases trees,
{
    if trees.len() == 0 {
        Seq::empty()
    } else {
        forest_links(trees.drop_last()) + trees.last().links()
    }
}

/// The number of files and directories in several trees.
pub open spec fn forest_size(trees: Seq<Tree>) -> nat
    decreases trees,
{
    if trees.len() == 0 {
        0
    } else {
        forest_size(trees.drop_last()) + trees.last().size()
    }
}

/// The roots of several trees as the entries of a listing.
pub open spec fn entries_of(trees: Seq<Tree>) -> Seq<EntryView> {
    trees.map_values(|t: Tree| t.entry())
}

/// The trees that a walk goes into: the directories and the Markdown files.
pub open spec fn trees_to_visit(trees: Seq<Tree>) -> Seq<Tree> {
    trees.filter(|t: Tree| visited(t.entry()))
}

/// The links that a walk ends with, where `queue` is what it still has to visit and
/// `found` what it has found: a file at the head of the list is read and its links are
/// added; a directory at the head is listed, and its directories and Markdown files
/// take its place in the list.
pub open spec fn walk_links(queue: Seq<Tree>, found: Seq<LinkView>) -> Seq<LinkView>
    decreases forest_size(queue),
    via walk_links_decreases
{
    if queue.len() == 0 {
        found
    } else {
        match queue[0] {
            Tree::File { path, content } => walk_links(queue.skip(1), found + file_links(path, content)),
            Tree::Dir { path, children } => walk_links(trees_to_visit(children) + queue.skip(1), found),
        }
    }
}

#[via_fn]
proof fn walk_links_decreases(queue: Seq<Tree>, found: Seq<LinkView>) {
    if queue.len() > 0 {
        lemma_forest_head(queue);
        match queue[0] {
            Tree::File { path, content } => {},
            Tree::Dir { path, children } => {
                lemma_forest_to_visit(children);
                lemma_forest_concat(trees_to_visit(children), queue.skip(1));
            },
        }
    }
}

/// Links and sizes of trees laid end to end add up.
pub proof fn lemma_forest_concat(a: Seq<Tree>, b: Seq<Tree>)
    ensures
        forest_links(a + b) == forest_links(a) + forest_links(b),
        forest_size(a + b) == forest_size(a) + forest_size(b),
    decreases b.len(),
{
    if b.len() == 0 {
        assert(a + b =~= a);
        assert(forest_links(a) + forest_links(b) =~= forest_links(a));
    } else {
        assert((a + b).drop_last() =~= a + b.drop_last());
        lemma_forest_concat(a, b.drop_last());
        assert(forest_links(a + b) =~= forest_links(a) + forest_links(b));
    }
}

/// Links and size of a list of trees, split into its head and the rest.
pub proof fn lemma_forest_head(trees: Seq<Tree>)
    requires
        trees.len() > 0,
    ensures
        forest_links(trees) == trees[0].links() + forest_links(trees.skip(1)),
        forest_size(trees) == trees[0].size() + forest_size(trees.skip(1)),
{
    let head = seq![trees[0]];
    assert(trees =~= head + trees.skip(1));
    lemma_forest_concat(head, trees.skip(1));
    assert(head.drop_last() =~= Seq::<Tree>::empty());
    assert(forest_links(Seq::<Tree>::empty()) =~= Seq::<LinkView>::empty());
    assert(forest_size(Seq::<Tree>::empty()) == 0);
    assert(head.last() == trees[0]);
    assert(forest_links(head) =~= trees[0].links());
    assert(forest_size(head) == trees[0].size());
}

/// Files that are not Markdown add nothing: the trees that a walk goes into hold all
/// the links, they are no more than all the trees, and each of them is a directory or
/// a Markdown file.
pub proof fn lemma_forest_to_visit(trees: Seq<Tree>)
    ensures
        forest_links(trees_to_visit(trees)) == forest_links(trees),
        forest_size(trees_to_visit(trees)) <= forest_size(trees),
        forall|i: int|
            0 <= i < trees_to_visit(trees).len() ==> visited(
                (#[trigger] trees_to_visit(trees)[i]).entry(),
            ),
        entries_of(trees_to_visit(trees)) == to_visit(entries_of(trees)),
    decreases trees.len(),
{
    let pred = |t: Tree| visited(t.entry());
    let entry_pred = |e: EntryView| visited(e);
    if trees.len() == 0 {
        trees.lemma_filter_len(pred);
        entries_of(trees).lemma_filter_len(entry_pred);
        assert(entries_of(trees_to_visit(trees)) =~= to_visit(entries_of(trees)));
    } else {
        let front = trees.drop_last();
        let last = trees.last();
        lemma_forest_to_visit(front);
        assert(front.push(last) =~= trees);
        front.lemma_filter_push(last, pred);
        assert(entries_of(trees) =~= entries_of(front).push(last.entry()));
        entries_of(front).lemma_filter_push(last.entry(), entry_pred);
        if visited(last.entry()) {
            assert(trees_to_visit(trees).drop_last() =~= trees_to_visit(front));
            assert(entries_of(trees_to_visit(front).push(last)) =~= entries_of(
                trees_to_visit(front),
            ).push(last.entry()));
        } else {
            assert(last.links() =~= Seq::<LinkView>::empty());
            assert(forest_links(front) + last.links() =~= forest_links(front));
        }
    }
}

/// A walk finds the links of the trees it still has to visit, tree after tree, behind
/// those it has found already.
pub proof fn lemma_walk_links(queue: Seq<Tree>, found: Seq<LinkView>)
    requires
        forall|i: int| 0 <= i < queue.len() ==> visited((#[trigger] queue[i]).entry()),
    ensures
        walk_links(queue, found) == found + forest_links(queue),
    decreases forest_size(queue),
{
    if queue.len() == 0 {
        assert(found + forest_links(queue) =~= found);
    } else {
        lemma_forest_head(queue);
        let rest = queue.skip(1);
        assert forall|i: int| 0 <= i < rest.len() implies visited((#[trigger] rest[i]).entry()) by {
            assert(rest[i] == queue[i + 1]);
        }
        match queue[0] {
            Tree::File { path, content } => {
                assert(visited(queue[0].entry()));
                lemma_walk_links(rest, found + file_links(path, content));
                assert((found + file_links(path, content)) + forest_links(rest) =~= found + (
                queue[0].links() + forest_links(rest)));
            },
            Tree::Dir { path, children } => {
                let next = trees_to_visit(children) + rest;
                lemma_forest_to_visit(children);
                lemma_forest_concat(trees_to_visit(children), rest);
                assert forall|i: int| 0 <= i < next.len() implies visited(
                    (#[trigger] next[i]).entry(),
                ) by {
                    if i < trees_to_visit(children).len() {
                        assert(next[i] == trees_to_visit(children)[i]);
                    } else {
                        assert(next[i] == rest[i - trees_to_visit(children).len()]);
                    }
                }
                lemma_walk_links(next, found);
            },
        }
    }
}

/// A walk that starts at the root of a tree finds the links of the tree: depth first,
/// the entries of each directory in listing order, and nothing from files that are not
/// Markdown, however many there are.
pub proof fn lemma_walk_of_tree(root: Tree)
    requires
        visited(root.entry()),
    ensures
        walk_links(seq![root], Seq::empty()) == root.links(),
{
    let queue = seq![root];
    lemma_walk_links(queue, Seq::empty());
    lemma_forest_head(queue);
    assert(queue.skip(1) =~= Seq::<Tree>::empty());
    assert(Seq::<LinkView>::empty() + forest_links(queue) =~= root.links());
}

/// One turn of a walk over a directory: if the list of the walk stands for the trees
/// `queue`, and the listing handed in is that of the directory at their head, then the
/// list after the turn stands for the trees that [`walk_links`] goes on with.
pub proof fn lemma_listed_turn(queue: Seq<Tree>, children: Seq<Tree>)
    requires
        queue.len() > 0,
        queue[0] is Dir,
        queue[0]->children == children,
    ensures
        to_visit(entries_of(children)) + entries_of(queue).skip(1) == entries_of(
            trees_to_visit(children) + queue.skip(1),
        ),
{
    lemma_forest_to_visit(children);
    assert(entries_of(trees_to_visit(children) + queue.skip(1)) =~= entries_of(
        trees_to_visit(children),
    ) + entries_of(queue).skip(1));
}

/// One turn of a walk over a file: the list after the turn stands for the trees
/// behind the file.
pub proof fn lemma_read_turn(queue: Seq<Tree>)
    requires
        queue.len() > 0,
    ensures
        entries_of(queue).skip(1) == entries_of(queue.skip(1)),
{
    assert(entries_of(queue).skip(1) =~= entries_of(queue.skip(1)));
}

} // verus!
