//! Finding the links of a file's content.

use crate::lines::{line_at, lines_from, lines_of};
use crate::link::{views, Link, LinkView};
use crate::pattern::{find_links, is_link_at, links_of, span_parts};
use crate::target::classify;
use crate::text::chars_of;
use vstd::prelude::*;
use vstd::slice::*;
use vstd::string::*;

verus! {

/// The links of one line, which is line `number` of `file`.
pub open spec fn line_links(file: Seq<char>, number: nat, line: Seq<char>) -> Seq<LinkView> {
    links_of(line).map_values(
        |pair: (Seq<char>, Seq<char>)| LinkView::fresh(file, number, pair.0, pair.1),
    )
}

/// The links of the given lines of `file`, the first of which is line 1.
pub open spec fn lines_links(file: Seq<char>, lines: Seq<Seq<char>>) -> Seq<LinkView>
    decreases lines.len(),
{
    if lines.len() == 0 {
        Seq::empty()
    } else {
        lines_links(file, lines.drop_last()) + line_links(file, lines.len(), lines.last())
    }
}

/// The links of the file `file` whose content is `content`: line by line, and from
/// left to right within a line.
pub open spec fn file_links(file: Seq<char>, content: Seq<char>) -> Seq<LinkView> {
    lines_links(file, lines_of(content))
}

/// Every link that scanning yields is well formed: it names the file, counts its line
/// from 1, is classified by its URL, and carries no verdict yet.
pub proof fn lemma_lines_links_fresh(file: Seq<char>, lines: Seq<Seq<char>>, n: int)
    requires
        0 <= n < lines_links(file, lines).len(),
    ensures
        lines_links(file, lines)[n].wf(),
        lines_links(file, lines)[n].file == file,
        1 <= lines_links(file, lines)[n].line <= lines.len(),
        lines_links(file, lines)[n].valid is None,
        lines_links(file, lines)[n].status is None,
    decreases lines.len(),
{
    let front = lines_links(file, lines.drop_last());
    if n < front.len() {
        lemma_lines_links_fresh(file, lines.drop_last(), n);
    }
}

/// The links of a file come in the order of their lines.
pub proof fn lemma_lines_links_ordered(file: Seq<char>, lines: Seq<Seq<char>>, m: int, n: int)
    requires
        0 <= m <= n < lines_links(file, lines).len(),
    ensures
        lines_links(file, lines)[m].line <= lines_links(file, lines)[n].line,
    decreases lines.len(),
{
    let front = lines_links(file, lines.drop_last());
    if n < front.len() {
        lemma_lines_links_ordered(file, lines.drop_last(), m, n);
    } else if m < front.len() {
        lemma_lines_links_fresh(file, lines.drop_last(), m);
    }
}

/// Scans the content of a file for links. `path` is the file's path as it is to be
/// reported. Each link carries the path, the number of its line, its anchor text, its
/// URL and the URL's classification; none carries a verdict.
pub fn from_file(path: &str, content: &str) -> (links: Vec<Link>)
    requires
        lines_of(content@).len() <= u32::MAX,
    ensures
        views(links@) == file_links(path@, content@),
        forall|n: int|
            0 <= n < links@.len() ==> {
                &&& (#[trigger] views(links@)[n]).wf()
                &&& views(links@)[n].file == path@
                &&& views(links@)[n].valid is None
                &&& views(links@)[n].status is None
            },
{
    let chars = chars_of(content);
    let all = chars.as_slice();
    let mut links: Vec<Link> = Vec::new();
    let mut from: usize = 0;
    let mut number: u32 = 0;
    let ghost mut done: Seq<Seq<char>> = Seq::empty();
    assert(done + lines_from(all@, 0) =~= lines_of(all@));
    assert(views(links@) =~= lines_links(path@, done));
    while from < all.len()
        invariant
            all@ == content@,
            from <= all@.len(),
            number == done.len(),
            done + lines_from(all@, from as int) == lines_of(all@),
            lines_of(all@).len() <= u32::MAX,
            views(links@) == lines_links(path@, done),
        decreases all@.len() - from,
    {
        let span = line_at(all, from);
        let line = slice_subrange(all, span.start, span.end);
        let spans = find_links(line);
        number = number + 1;
        let ghost before = views(links@);
        let ghost found = line_links(path@, number as nat, line@);
        let mut n: usize = 0;
        assert(views(links@) =~= before + found.take(0));
        while n < spans.len()
            invariant
                all@ == content@,
                line@ == all@.subrange(span.start as int, span.end as int),
                span.start <= span.end <= all@.len(),
                n <= spans@.len(),
                span_parts(line@, spans@) == links_of(line@),
                forall|m: int|
                    0 <= m < spans@.len() ==> is_link_at(
                        line@,
                        (#[trigger] spans@[m]).open as int,
                        spans@[m].close as int,
                        spans@[m].end as int,
                    ),
                found == line_links(path@, number as nat, line@),
                views(links@) == before + found.take(n as int),
            decreases spans@.len() - n,
        {
            let at = spans[n];
            let text = content.substring_char(span.start + at.open + 1, span.start + at.close).to_owned();
            let url = content.substring_char(span.start + at.close + 2, span.start + at.end).to_owned();
            let target = classify(url.as_str());
            let link = Link {
                url,
                text,
                file: path.to_owned(),
                line: number,
                target,
                valid: None,
                status: None,
            };
            proof {
                assert(link.text@ =~= line@.subrange(at.open + 1, at.close as int));
                assert(link.url@ =~= line@.subrange(at.close + 2, at.end as int));
                assert(span_parts(line@, spans@)[n as int] == (link.text@, link.url@));
                assert(link@ == found[n as int]);
                assert(found.take(n + 1) =~= found.take(n as int).push(found[n as int]));
                assert(views(links@.push(link)) =~= views(links@).push(link@));
            }
            links.push(link);
            n = n + 1;
        }
        proof {
            assert(found.take(n as int) =~= found);
            let ghost grown = done.push(line@);
            assert(grown.drop_last() =~= done);
            assert(grown + lines_from(all@, span.next as int) =~= done + lines_from(
                all@,
                from as int,
            ));
            done = grown;
        }
        from = span.next;
    }
    assert(done =~= lines_of(all@));
    assert forall|n: int| 0 <= n < links@.len() implies {
        &&& (#[trigger] views(links@)[n]).wf()
        &&& views(links@)[n].file == path@
        &&& views(links@)[n].valid is None
        &&& views(links@)[n].status is None
    } by {
        lemma_lines_links_fresh(path@, lines_of(content@), n);
    }
    links
}

} // verus!
