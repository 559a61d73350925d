//! Recognising inline links, `[text](url)`, in one line of text.
//!
//! A link is an opening bracket, one or more characters other than a closing bracket,
//! a closing bracket, an opening parenthesis right behind it, one or more characters
//! other than a closing parenthesis, and a closing parenthesis. Brackets are not
//! balanced and links do not nest: the text ends at the first `]`, the URL at the
//! first `)`. A line is read from left to right, and a link that was found is skipped
//! as a whole before the search goes on.

use crate::text::{chars_of, index_of};
use vstd::prelude::*;
use vstd::string::*;

verus! {

/// Whether `s[i..=k]` is a link whose text ends at the closing bracket `s[j]`.
pub open spec fn is_link_at(s: Seq<char>, i: int, j: int, k: int) -> bool {
    &&& 0 <= i
    &&& i + 1 < j
    &&& j + 2 < k
    &&& k < s.len()
    &&& s[i] == '['
    &&& forall|p: int| i < p < j ==> s[p] != ']'
    &&& s[j] == ']'
    &&& s[j + 1] == '('
    &&& forall|p: int| j + 1 < p < k ==> s[p] != ')'
    &&& s[k] == ')'
}

/// Whether a link begins at position `i`.
pub open spec fn link_begins_at(s: Seq<char>, i: int) -> bool {
    exists|j: int, k: int| is_link_at(s, i, j, k)
}

/// Whether the line holds a link anywhere.
pub open spec fn has_link(s: Seq<char>) -> bool {
    exists|i: int| link_begins_at(s, i)
}

/// For a position at which a link begins: where its bracket and its parenthesis close.
pub open spec fn link_bounds(s: Seq<char>, i: int) -> (int, int) {
    choose|j: int, k: int| is_link_at(s, i, j, k)
}

/// The anchor text and the URL of the link `s[i..=k]` whose bracket closes at `j`.
pub open spec fn link_parts(s: Seq<char>, i: int, j: int, k: int) -> (Seq<char>, Seq<char>) {
    (s.subrange(i + 1, j), s.subrange(j + 2, k))
}

/// The links found from position `from` on, as pairs of anchor text and URL: the
/// link that begins at the leftmost position, then those behind its end.
pub open spec fn links_from(s: Seq<char>, from: int) -> Seq<(Seq<char>, Seq<char>)>
    decreases s.len() - from,
{
    if from < 0 || from >= s.len() {
        Seq::empty()
    } else if link_begins_at(s, from) {
        let (j, k) = link_bounds(s, from);
        seq![link_parts(s, from, j, k)] + links_from(s, k + 1)
    } else {
        links_from(s, from + 1)
    }
}

/// The links of a line, from left to right, as pairs of anchor text and URL.
pub open spec fn links_of(s: Seq<char>) -> Seq<(Seq<char>, Seq<char>)> {
    links_from(s, 0)
}

/// At most one link begins at a given position.
pub proof fn lemma_link_unique(s: Seq<char>, i: int, j1: int, k1: int, j2: int, k2: int)
    requires
        is_link_at(s, i, j1, k1),
        is_link_at(s, i, j2, k2),
    ensures
        j1 == j2,
        k1 == k2,
{
    if j1 < j2 {
        assert(s[j1] == ']');
    } else if j2 < j1 {
        assert(s[j2] == ']');
    }
    if k1 < k2 {
        assert(s[k1] == ')');
    } else if k2 < k1 {
        assert(s[k2] == ')');
    }
}

/// Where a link is known to begin at `i`, its bounds are the known ones.
pub proof fn lemma_link_bounds(s: Seq<char>, i: int, j: int, k: int)
    requires
        is_link_at(s, i, j, k),
    ensures
        link_begins_at(s, i),
        link_bounds(s, i) == (j, k),
{
    let (j2, k2) = link_bounds(s, i);
    lemma_link_unique(s, i, j, k, j2, k2);
}

/// Where no link begins between `from` and `to`, the search from `from` finds what the
/// search from `to` finds.
pub proof fn lemma_skip_to(s: Seq<char>, from: int, to: int)
    requires
        0 <= from <= to,
        forall|p: int| from <= p < to ==> !link_begins_at(s, p),
    ensures
        links_from(s, from) == links_from(s, to),
    decreases to - from,
{
    if from < to {
        lemma_skip_to(s, from + 1, to);
    }
}

/// A line without a link yields no pair, and a line that yields no pair has no link.
pub proof fn lemma_no_link_no_pairs(s: Seq<char>)
    ensures
        has_link(s) <==> links_of(s).len() > 0,
{
    if has_link(s) {
        let i = choose|i: int| link_begins_at(s, i);
        let (j, k) = link_bounds(s, i);
        lemma_found_from(s, 0, i);
    } else {
        assert forall|p: int| 0 <= p < s.len() implies !link_begins_at(s, p) by {}
        lemma_skip_to(s, 0, s.len() as int);
    }
}

/// A link that begins at or behind `from` makes the search from `from` find something.
proof fn lemma_found_from(s: Seq<char>, from: int, i: int)
    requires
        0 <= from <= i,
        link_begins_at(s, i),
    ensures
        links_from(s, from).len() > 0,
    decreases i - from,
{
    let (j, k) = link_bounds(s, i);
    assert(is_link_at(s, i, j, k));
    if !link_begins_at(s, from) {
        lemma_found_from(s, from + 1, i);
    }
}

/// Every pair that the search yields stands in the line as a link, at or behind the
/// position from which the search began.
pub proof fn lemma_pairs_are_links(s: Seq<char>, from: int, n: int)
    requires
        0 <= from,
        0 <= n < links_from(s, from).len(),
    ensures
        exists|a: int, b: int, c: int|
            from <= a && is_link_at(s, a, b, c) && links_from(s, from)[n] == link_parts(s, a, b, c),
    decreases s.len() - from,
{
    if link_begins_at(s, from) {
        let (j, k) = link_bounds(s, from);
        if n == 0 {
            assert(from <= from && is_link_at(s, from, j, k) && links_from(s, from)[n]
                == link_parts(s, from, j, k));
        } else {
            lemma_pairs_are_links(s, k + 1, n - 1);
            let (a, b, c) = choose|a: int, b: int, c: int|
                k + 1 <= a && is_link_at(s, a, b, c) && links_from(s, k + 1)[n - 1] == link_parts(
                    s,
                    a,
                    b,
                    c,
                );
            assert(from <= a && is_link_at(s, a, b, c) && links_from(s, from)[n] == link_parts(
                s,
                a,
                b,
                c,
            ));
        }
    } else {
        lemma_pairs_are_links(s, from + 1, n);
        let (a, b, c) = choose|a: int, b: int, c: int|
            from + 1 <= a && is_link_at(s, a, b, c) && links_from(s, from + 1)[n] == link_parts(
                s,
                a,
                b,
                c,
            );
        assert(from <= a && is_link_at(s, a, b, c) && links_from(s, from)[n] == link_parts(
            s,
            a,
            b,
            c,
        ));
    }
}

/// The search in the rest of a line does not depend on what stands before that rest.
pub proof fn lemma_links_of_rest(s: Seq<char>, cut: int, from: int)
    requires
        0 <= cut <= s.len(),
        0 <= from,
    ensures
        links_from(s, cut + from) == links_from(s.skip(cut), from),
    decreases s.len() - cut - from,
{
    let rest = s.skip(cut);
    if from < rest.len() {
        assert forall|j: int, k: int| is_link_at(s, cut + from, cut + j, cut + k) == is_link_at(
            rest,
            from,
            j,
            k,
        ) by {
            if is_link_at(s, cut + from, cut + j, cut + k) {
                assert forall|p: int| from < p < j implies rest[p] != ']' by {
                    assert(s[cut + p] != ']');
                }
                assert forall|p: int| j + 1 < p < k implies rest[p] != ')' by {
                    assert(s[cut + p] != ')');
                }
            }
            if is_link_at(rest, from, j, k) {
                assert forall|p: int| cut + from < p < cut + j implies s[p] != ']' by {
                    assert(rest[p - cut] != ']');
                }
                assert forall|p: int| cut + j + 1 < p < cut + k implies s[p] != ')' by {
                    assert(rest[p - cut] != ')');
                }
            }
        }
        if link_begins_at(rest, from) {
            let (j, k) = link_bounds(rest, from);
            assert(is_link_at(s, cut + from, cut + j, cut + k));
            lemma_link_bounds(s, cut + from, cut + j, cut + k);
            assert(link_parts(s, cut + from, cut + j, cut + k) =~= link_parts(rest, from, j, k));
            lemma_links_of_rest(s, cut, k + 1);
        } else {
            if link_begins_at(s, cut + from) {
                let (j, k) = link_bounds(s, cut + from);
                assert(is_link_at(s, cut + from, cut + (j - cut), cut + (k - cut)));
                assert(is_link_at(rest, from, j - cut, k - cut));
            }
            lemma_links_of_rest(s, cut, from + 1);
        }
    }
}

/// The characters of a link with the given anchor text and URL.
pub open spec fn link_text(text: Seq<char>, url: Seq<char>) -> Seq<char> {
    seq!['['] + text + seq![']', '('] + url + seq![')']
}

/// A line that holds `[text](url)`, with no opening bracket before it, yields the pair
/// of `text` and `url`, followed by what the rest of the line yields: that pair alone
/// where the rest holds no link. The text is not empty and holds no `]`; the URL is not
/// empty and holds no `)`.
pub proof fn lemma_one_link(before: Seq<char>, text: Seq<char>, url: Seq<char>, after: Seq<char>)
    requires
        forall|p: int| 0 <= p < before.len() ==> before[p] != '[',
        text.len() > 0,
        forall|p: int| 0 <= p < text.len() ==> text[p] != ']',
        url.len() > 0,
        forall|p: int| 0 <= p < url.len() ==> url[p] != ')',
    ensures
        links_of(before + link_text(text, url) + after) == seq![(text, url)] + links_of(after),
        !has_link(after) ==> links_of(before + link_text(text, url) + after) == seq![(text, url)],
{
    let s = before + link_text(text, url) + after;
    let i = before.len() as int;
    let j = i + 1 + text.len();
    let k = j + 2 + url.len();
    assert(s[i] == '[');
    assert(s[j] == ']');
    assert(s[j + 1] == '(');
    assert(s[k] == ')');
    assert forall|p: int| i < p < j implies s[p] != ']' by {
        assert(s[p] == text[p - i - 1]);
    }
    assert forall|p: int| j + 1 < p < k implies s[p] != ')' by {
        assert(s[p] == url[p - j - 2]);
    }
    assert(is_link_at(s, i, j, k));
    lemma_link_bounds(s, i, j, k);
    assert forall|p: int| 0 <= p < i implies !link_begins_at(s, p) by {
        assert(s[p] == before[p]);
    }
    lemma_skip_to(s, 0, i);
    assert(link_parts(s, i, j, k) =~= (text, url));
    lemma_links_of_rest(s, k + 1, 0);
    assert(s.skip(k + 1) =~= after);
    lemma_no_link_no_pairs(after);
    if !has_link(after) {
        assert(links_of(after) =~= Seq::empty());
        assert(seq![(text, url)] + links_of(after) =~= seq![(text, url)]);
    }
}

/// The place of one link within a line.
#[derive(Clone, Copy, Debug)]
pub(crate) struct Span {
    /// Index of the opening bracket.
    pub open: usize,
    /// Index of the closing bracket.
    pub close: usize,
    /// Index of the closing parenthesis.
    pub end: usize,
}

/// The anchor texts and URLs at the given places.
pub(crate) open spec fn span_parts(s: Seq<char>, spans: Seq<Span>) -> Seq<(Seq<char>, Seq<char>)> {
    spans.map_values(|p: Span| link_parts(s, p.open as int, p.close as int, p.end as int))
}

/// The link that begins at `i`, if one does: the places where it closes.
fn link_at(s: &[char], i: usize) -> (found: Option<(usize, usize)>)
    requires
        i < s@.len(),
    ensures
        match found {
            Some((j, k)) => is_link_at(s@, i as int, j as int, k as int),
            None => !link_begins_at(s@, i as int),
        },
{
    if s[i] != '[' {
        return None;
    }
    let j = index_of(s, ']', i + 1);
    if j >= s.len() || j == i + 1 || j + 1 >= s.len() || s[j + 1] != '(' {
        assert forall|j2: int, k2: int| !is_link_at(s@, i as int, j2, k2) by {
            if is_link_at(s@, i as int, j2, k2) {
                assert(s@[j2] == ']');
                if j < s@.len() {
                    assert(s@[j as int] == ']');
                }
            }
        }
        return None;
    }
    let k = index_of(s, ')', j + 2);
    if k >= s.len() || k == j + 2 {
        assert forall|j2: int, k2: int| !is_link_at(s@, i as int, j2, k2) by {
            if is_link_at(s@, i as int, j2, k2) {
                assert(s@[j2] == ']');
                assert(s@[j as int] == ']');
                assert(j2 == j);
                assert(s@[k2] == ')');
                if k < s@.len() {
                    assert(s@[k as int] == ')');
                }
            }
        }
        return None;
    }
    Some((j, k))
}

/// The places of the links of a line, from left to right.
pub(crate) fn find_links(s: &[char]) -> (spans: Vec<Span>)
    ensures
        span_parts(s@, spans@) == links_of(s@),
        forall|n: int|
            0 <= n < spans@.len() ==> is_link_at(
                s@,
                (#[trigger] spans@[n]).open as int,
                spans@[n].close as int,
                spans@[n].end as int,
            ),
{
    let mut spans: Vec<Span> = Vec::new();
    let mut pos: usize = 0;
    assert(span_parts(s@, spans@) + links_from(s@, 0) =~= links_of(s@));
    while pos < s.len()
        invariant
            pos <= s@.len(),
            span_parts(s@, spans@) + links_from(s@, pos as int) == links_of(s@),
            forall|n: int|
                0 <= n < spans@.len() ==> is_link_at(
                    s@,
                    (#[trigger] spans@[n]).open as int,
                    spans@[n].close as int,
                    spans@[n].end as int,
                ),
        decreases s@.len() - pos,
    {
        match link_at(s, pos) {
            Some((j, k)) => {
                let span = Span { open: pos, close: j, end: k };
                proof {
                    lemma_link_bounds(s@, pos as int, j as int, k as int);
                    assert(span_parts(s@, spans@.push(span)) =~= span_parts(s@, spans@).push(
                        link_parts(s@, pos as int, j as int, k as int),
                    ));
                    assert(span_parts(s@, spans@.push(span)) + links_from(s@, k + 1) =~= span_parts(
                        s@,
                        spans@,
                    ) + links_from(s@, pos as int));
                }
                spans.push(span);
                pos = k + 1;
            },
            None => {
                pos = pos + 1;
            },
        }
    }
    assert(span_parts(s@, spans@) + links_from(s@, pos as int) =~= span_parts(s@, spans@));
    spans
}

/// Extracts the links of one line of text: the pairs of anchor text and URL, from left
/// to right. A line without a link gives an empty result.
pub fn extract_links(line: &str) -> (pairs: Vec<(String, String)>)
    ensures
        pairs.deep_view() == links_of(line@),
{
    let chars = chars_of(line);
    let spans = find_links(chars.as_slice());
    let mut pairs: Vec<(String, String)> = Vec::new();
    let mut n: usize = 0;
    while n < spans.len()
        invariant
            n <= spans@.len(),
            chars@ == line@,
            span_parts(line@, spans@) == links_of(line@),
            forall|m: int|
                0 <= m < spans@.len() ==> is_link_at(
                    line@,
                    (#[trigger] spans@[m]).open as int,
                    spans@[m].close as int,
                    spans@[m].end as int,
                ),
            pairs.deep_view() == span_parts(line@, spans@).take(n as int),
        decreases spans@.len() - n,
    {
        let span = spans[n];
        let text = line.substring_char(span.open + 1, span.close).to_owned();
        let url = line.substring_char(span.close + 2, span.end).to_owned();
        let ghost before = pairs.deep_view();
        pairs.push((text, url));
        assert(pairs.deep_view() =~= before.push((text@, url@)));
        assert(span_parts(line@, spans@).take(n + 1) =~= span_parts(line@, spans@).take(
            n as int,
        ).push(span_parts(line@, spans@)[n as int]));
        n = n + 1;
    }
    assert(span_parts(line@, spans@).take(n as int) =~= span_parts(line@, spans@));
    pairs
}

} // verus!
