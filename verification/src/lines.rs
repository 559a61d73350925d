//! Splitting a text into lines.
//!
//! A line ends at a line feed, or at the end of the text. The line feed is not part of
//! the line, and neither is a carriage return that stands right before it. A carriage
//! return at the very end of the text, with no line feed behind it, stays. A text that
//! ends in a line feed has no empty line behind it.

use crate::text::{chars_of, index_of};
use vstd::prelude::*;

verus! {

/// The index of the first line feed at or behind `from`, or the length of the text.
pub open spec fn line_end(s: Seq<char>, from: int) -> int
    decreases s.len() - from,
{
    if from < 0 || from >= s.len() {
        s.len() as int
    } else if s[from] == '\n' {
        from
    } else {
        line_end(s, from + 1)
    }
}

/// Where the content of the line ends that begins at `from` and is cut off at `end`:
/// before a carriage return that a line feed follows, else at `end`.
pub open spec fn content_end(s: Seq<char>, from: int, end: int) -> int {
    if end < s.len() && from < end && s[end - 1] == '\r' {
        end - 1
    } else {
        end
    }
}

/// The end of a line lies at or behind its start, and within the text.
pub proof fn lemma_line_end_bounds(s: Seq<char>, from: int)
    requires
        0 <= from <= s.len(),
    ensures
        from <= line_end(s, from) <= s.len(),
        line_end(s, from) < s.len() ==> s[line_end(s, from)] == '\n',
        forall|p: int| from <= p < line_end(s, from) ==> s[p] != '\n',
    decreases s.len() - from,
{
    if from < s.len() && s[from] != '\n' {
        lemma_line_end_bounds(s, from + 1);
    }
}

/// The lines of the text from position `from` on.
pub open spec fn lines_from(s: Seq<char>, from: int) -> Seq<Seq<char>>
    decreases s.len() - from,
    via lines_from_decreases
{
    if from < 0 || from >= s.len() {
        Seq::empty()
    } else {
        let end = line_end(s, from);
        let line = s.subrange(from, content_end(s, from, end));
        if end < s.len() {
            seq![line] + lines_from(s, end + 1)
        } else {
            seq![line]
        }
    }
}

#[via_fn]
proof fn lines_from_decreases(s: Seq<char>, from: int) {
    if 0 <= from < s.len() {
        lemma_line_end_bounds(s, from);
    }
}

/// The lines of a text.
pub open spec fn lines_of(s: Seq<char>) -> Seq<Seq<char>> {
    lines_from(s, 0)
}

/// The line feed that ends a line is the first one at or behind the line's start.
pub proof fn lemma_line_end(s: Seq<char>, from: int, end: int)
    requires
        0 <= from <= end <= s.len(),
        forall|p: int| from <= p < end ==> s[p] != '\n',
        end < s.len() ==> s[end] == '\n',
    ensures
        line_end(s, from) == end,
    decreases end - from,
{
    if from < end {
        lemma_line_end(s, from + 1, end);
    }
}

/// No line holds a line feed.
pub proof fn lemma_lines_hold_no_line_feed(s: Seq<char>, from: int, n: int, p: int)
    requires
        0 <= from,
        0 <= n < lines_from(s, from).len(),
        0 <= p < lines_from(s, from)[n].len(),
    ensures
        lines_from(s, from)[n][p] != '\n',
    decreases s.len() - from,
{
    lemma_line_end_bounds(s, from);
    let end = line_end(s, from);
    if n == 0 {
        assert(lines_from(s, from)[0] == s.subrange(from, content_end(s, from, end)));
        assert(lines_from(s, from)[0][p] == s[from + p]);
    } else {
        assert(lines_from(s, from)[n] == lines_from(s, end + 1)[n - 1]);
        lemma_lines_hold_no_line_feed(s, end + 1, n - 1, p);
    }
}

/// The place of one line in a text.
#[derive(Clone, Copy, Debug)]
pub(crate) struct LineSpan {
    /// Index of the line's first character.
    pub start: usize,
    /// Index behind the line's last character.
    pub end: usize,
    /// Index at which the next line begins; the length of the text behind the last line.
    pub next: usize,
}

/// Finds the line that begins at `from`.
pub(crate) fn line_at(s: &[char], from: usize) -> (span: LineSpan)
    requires
        from < s@.len(),
    ensures
        span.start == from,
        from <= span.end <= s@.len(),
        span.end as int == content_end(s@, from as int, line_end(s@, from as int)),
        from < span.next <= s@.len(),
        lines_from(s@, from as int) == seq![s@.subrange(from as int, span.end as int)] + lines_from(
            s@,
            span.next as int,
        ),
{
    let stop = index_of(s, '\n', from);
    proof {
        lemma_line_end(s@, from as int, stop as int);
        if stop == s@.len() {
            assert(seq![s@.subrange(from as int, stop as int)] + lines_from(s@, stop as int) =~= seq![
                s@.subrange(from as int, stop as int),
            ]);
        }
    }
    let end = if stop < s.len() && from < stop && s[stop - 1] == '\r' {
        stop - 1
    } else {
        stop
    };
    let next = if stop < s.len() {
        stop + 1
    } else {
        stop
    };
    LineSpan { start: from, end, next }
}

/// Counts the lines of a text.
pub fn count_lines(content: &str) -> (count: usize)
    ensures
        count == lines_of(content@).len(),
{
    let chars = chars_of(content);
    let all = chars.as_slice();
    let mut count: usize = 0;
    let mut from: usize = 0;
    while from < all.len()
        invariant
            all@ == content@,
            from <= all@.len(),
            count <= from,
            count + lines_from(all@, from as int).len() == lines_of(all@).len(),
        decreases all@.len() - from,
    {
        let span = line_at(all, from);
        count = count + 1;
        from = span.next;
    }
    count
}

} // verus!
