//! Plain-text rendering of links and of summary figures.

use crate::decimal::{decimal, push_decimal};
use crate::link::{views, Link, LinkView};
use crate::stats::{broken_links, distinct_urls, stats};
use vstd::prelude::*;
use vstd::string::*;

verus! {

/// How the outcome of validation is worded: `OK`, `INVALID`, or nothing where a link has none.
pub open spec fn verdict_word(valid: Option<bool>) -> Seq<char> {
    match valid {
        None => Seq::empty(),
        Some(true) => seq!['O', 'K'],
        Some(false) => seq!['I', 'N', 'V', 'A', 'L', 'I', 'D'],
    }
}

/// The status code as it is printed: 0 stands for "no response captured".
pub open spec fn status_number(status: Option<u16>) -> nat {
    match status {
        None => 0,
        Some(code) => code as nat,
    }
}

/// The line for one link: `<file>:<line> <url> <text>`, followed, where `validate` is
/// set, by ` <OK|INVALID> <status>`.
pub open spec fn link_line(link: LinkView, validate: bool) -> Seq<char> {
    let plain = link.file + seq![':'] + decimal(link.line) + seq![' '] + link.url + seq![' ']
        + link.text;
    if validate {
        plain + seq![' '] + verdict_word(link.valid) + seq![' '] + decimal(
            status_number(link.status),
        )
    } else {
        plain
    }
}

/// The lines of all links, in order, with a newline between one line and the next.
pub open spec fn links_text(links: Seq<LinkView>, validate: bool) -> Seq<char>
    decreases links.len(),
{
    if links.len() == 0 {
        Seq::empty()
    } else if links.len() == 1 {
        link_line(links[0], validate)
    } else {
        links_text(links.drop_last(), validate) + seq!['\n'] + link_line(links.last(), validate)
    }
}

/// The summary: `Total: <n>`, a newline, `Uniq: <n>`, and, where there is a count of
/// broken links, a newline and `Broken: <n>`.
pub open spec fn stats_text(total: nat, uniq: nat, broken: Option<nat>) -> Seq<char> {
    let head = seq!['T', 'o', 't', 'a', 'l', ':', ' '] + decimal(total) + seq![
        '\n',
        'U',
        'n',
        'i',
        'q',
        ':',
        ' ',
    ] + decimal(uniq);
    match broken {
        None => head,
        Some(b) => head + seq!['\n', 'B', 'r', 'o', 'k', 'e', 'n', ':', ' '] + decimal(b),
    }
}

/// Appends the line for one link.
fn push_link_line(out: &mut String, link: &Link, validate: bool)
    ensures
        final(out)@ == old(out)@ + link_line(link@, validate),
{
    proof {
        reveal_strlit(":");
        reveal_strlit(" ");
        reveal_strlit("");
        reveal_strlit("OK");
        reveal_strlit("INVALID");
    }
    out.append(link.file.as_str());
    out.append(":");
    push_decimal(out, link.line as u64);
    out.append(" ");
    out.append(link.url.as_str());
    out.append(" ");
    out.append(link.text.as_str());
    if validate {
        out.append(" ");
        let word: &str = match link.valid {
            None => "",
            Some(true) => "OK",
            Some(false) => "INVALID",
        };
        assert(word@ =~= verdict_word(link.valid));
        out.append(word);
        out.append(" ");
        let code: u16 = match link.status {
            None => 0,
            Some(code) => code,
        };
        push_decimal(out, code as u64);
    }
    assert(out@ =~= old(out)@ + link_line(link@, validate));
}

/// Renders the links as text, one line each: `<file>:<line> <url> <text>`, and with
/// `validate` set also the verdict and the status code.
pub fn print_links(links: &Vec<Link>, validate: bool) -> (out: String)
    ensures
        out@ == links_text(views(links@), validate),
{
    let ghost all = views(links@);
    let mut out = String::new();
    let mut i: usize = 0;
    while i < links.len()
        invariant
            all == views(links@),
            i <= links.len(),
            out@ == links_text(all.take(i as int), validate),
        decreases links.len() - i,
    {
        proof {
            reveal_strlit("\n");
            assert(all.take(i + 1).drop_last() =~= all.take(i as int));
        }
        if i > 0 {
            out.append("\n");
        }
        push_link_line(&mut out, &links[i], validate);
        i = i + 1;
    }
    assert(all.take(i as int) =~= all);
    out
}

/// Renders the summary figures of the links as text. The count of broken links is
/// part of the text only where `validate` is set.
pub fn print_stats(links: &Vec<Link>, validate: bool) -> (out: String)
    ensures
        out@ == stats_text(
            links@.len(),
            distinct_urls(views(links@)).len(),
            if validate {
                Some(broken_links(views(links@)).len())
            } else {
                None
            },
        ),
{
    let s = stats(links, validate);
    proof {
        reveal_strlit("Total: ");
        reveal_strlit("\nUniq: ");
        reveal_strlit("\nBroken: ");
    }
    let mut out = String::new();
    out.append("Total: ");
    push_decimal(&mut out, s.total as u64);
    out.append("\nUniq: ");
    push_decimal(&mut out, s.uniq as u64);
    match s.broken {
        Some(b) => {
            out.append("\nBroken: ");
            push_decimal(&mut out, b as u64);
        },
        None => {},
    }
    assert(out@ =~= stats_text(
        links@.len(),
        distinct_urls(views(links@)).len(),
        if validate {
            Some(broken_links(views(links@)).len())
        } else {
            None
        },
    ));
    out
}

} // verus!
