use md_links::lines::count_lines;
use md_links::link::Link;
use md_links::pattern::extract_links;
use md_links::scan::from_file;
use md_links::target::{classify, Target};

fn pair(text: &str, url: &str) -> (String, String) {
    (text.to_string(), url.to_string())
}

/// What the regular expression of the same shape finds in a line.
fn by_regex(line: &str) -> Vec<(String, String)> {
    let re = regex::Regex::new(r"\[([^\]]+)\]\(([^\)]+)\)").unwrap();
    re.captures_iter(line).map(|cap| (cap[1].to_string(), cap[2].to_string())).collect()
}

#[test]
fn extract_finds_one_link() {
    assert_eq!(extract_links("[Example](https://example.com)"), vec![pair("Example", "https://example.com")]);
    assert_eq!(extract_links("see [the docs](./docs/index.md) first"), vec![pair("the docs", "./docs/index.md")]);
}

#[test]
fn extract_finds_nothing_in_a_line_without_links() {
    assert_eq!(extract_links(""), Vec::new());
    assert_eq!(extract_links("plain text, no links"), Vec::new());
    assert_eq!(extract_links("[only brackets]"), Vec::new());
    assert_eq!(extract_links("(only parentheses)"), Vec::new());
    assert_eq!(extract_links("[text] (url)"), Vec::new());
    assert_eq!(extract_links("[reference][id]"), Vec::new());
}

#[test]
fn extract_finds_nothing_in_an_unfinished_link() {
    assert_eq!(extract_links("[a](b"), Vec::new());
    assert_eq!(extract_links("[a]("), Vec::new());
    assert_eq!(extract_links("[a]"), Vec::new());
    assert_eq!(extract_links("[a"), Vec::new());
    assert_eq!(extract_links("["), Vec::new());
}

#[test]
fn extract_wants_one_character_at_least_in_each_part() {
    assert_eq!(extract_links("[](url)"), Vec::new());
    assert_eq!(extract_links("[text]()"), Vec::new());
    assert_eq!(extract_links("[]()"), Vec::new());
    assert_eq!(extract_links("[t](u)"), vec![pair("t", "u")]);
}

#[test]
fn extract_finds_all_links_from_left_to_right() {
    assert_eq!(
        extract_links("[a](1) and [b](2), then [c](3)"),
        vec![pair("a", "1"), pair("b", "2"), pair("c", "3")]
    );
    assert_eq!(extract_links("[a](1)[b](2)"), vec![pair("a", "1"), pair("b", "2")]);
}

#[test]
fn extract_cuts_the_url_at_the_first_closing_parenthesis() {
    assert_eq!(
        extract_links("[wiki](https://en.wikipedia.org/wiki/Rust_(language))"),
        vec![pair("wiki", "https://en.wikipedia.org/wiki/Rust_(language")]
    );
}

#[test]
fn extract_does_not_balance_brackets() {
    assert_eq!(extract_links("[x[A](B)"), vec![pair("x[A", "B")]);
    assert_eq!(extract_links("[][A](B)"), vec![pair("A", "B")]);
    assert_eq!(extract_links("[a](b](c)"), vec![pair("a", "b](c")]);
    assert_eq!(extract_links("[![img](pic.png)](page.html)"), vec![pair("![img", "pic.png")]);
}

#[test]
fn extract_counts_characters_not_bytes() {
    assert_eq!(extract_links("añb [añadir](ü.md) ñ"), vec![pair("añadir", "ü.md")]);
    assert_eq!(extract_links("日本語 [リンク](https://例え.jp/道) 終"), vec![pair("リンク", "https://例え.jp/道")]);
}

#[test]
fn extract_agrees_with_the_regular_expression() {
    let lines = [
        "",
        "[Example](https://example.com)",
        "[a](b",
        "[](url)",
        "[text]()",
        "[x[A](B)",
        "[][A](B)",
        "[a](b](c)",
        "[a](1)[b](2)",
        "[[[[[[",
        "]]](((",
        "[a]](b)",
        "[a](b))",
        "[a]([b](c)",
        "([a](b))",
        "[a] [b](c) (d)",
        "text [one](#1) text [two](./2.md) text [three](http://3) text",
        "[wiki](https://en.wikipedia.org/wiki/Rust_(language))",
        "añb [añadir](ü.md) ñ",
        "tab\t[a\tb](c\td)\r",
        "[![img](pic.png)](page.html)",
        "[a](b)[](c)[d]()[e](f)",
    ];
    for line in lines {
        assert_eq!(extract_links(line), by_regex(line), "line: {:?}", line);
    }
}

#[test]
fn classify_by_the_first_characters() {
    assert_eq!(classify("#x"), Target::Fragment);
    assert_eq!(classify("http://x"), Target::Absolute);
    assert_eq!(classify("./x.md"), Target::Relative);
    assert_eq!(classify("#http"), Target::Fragment);
    assert_eq!(classify("#http-anchor"), Target::Fragment);
}

#[test]
fn classify_edge_cases() {
    assert_eq!(classify(""), Target::Relative);
    assert_eq!(classify("#"), Target::Fragment);
    assert_eq!(classify("http"), Target::Absolute);
    assert_eq!(classify("htt"), Target::Relative);
    assert_eq!(classify("https://example.com"), Target::Absolute);
    assert_eq!(classify("httpfoo"), Target::Absolute);
    assert_eq!(classify("HTTP://EXAMPLE.COM"), Target::Relative);
    assert_eq!(classify("Http://example.com"), Target::Relative);
    assert_eq!(classify(" http://example.com"), Target::Relative);
    assert_eq!(classify("ftp://example.com"), Target::Relative);
    assert_eq!(classify("x#y"), Target::Relative);
}

#[test]
fn target_names() {
    assert_eq!(Target::Fragment.name(), "fragment");
    assert_eq!(Target::Relative.name(), "relative");
    assert_eq!(Target::Absolute.name(), "absolute");
}

#[test]
fn count_lines_as_the_standard_library_does() {
    let texts = [
        "",
        "a",
        "a\n",
        "a\n\n",
        "\n",
        "\n\n",
        "a\nb",
        "a\r\nb\r\n",
        "a\r",
        "a\r\n",
        "\r\n",
        "\r",
        "foo\r\nbar\n\nbaz\r",
        "a\n\rb",
    ];
    for text in texts {
        assert_eq!(count_lines(text), text.lines().count(), "text: {:?}", text);
    }
    assert_eq!(count_lines(""), 0);
    assert_eq!(count_lines("a\n\n"), 2);
    assert_eq!(count_lines("a\nb"), 2);
}

fn summary(link: &Link) -> (String, u32, String, String, Target, Option<bool>, Option<u16>) {
    (
        link.file.clone(),
        link.line,
        link.text.clone(),
        link.url.clone(),
        link.target,
        link.valid,
        link.status,
    )
}

fn expected(file: &str, line: u32, text: &str, url: &str, target: Target) -> (String, u32, String, String, Target, Option<bool>, Option<u16>) {
    (file.to_string(), line, text.to_string(), url.to_string(), target, None, None)
}

#[test]
fn from_file_finds_a_single_absolute_link() {
    let links = from_file("doc.md", "[Example](https://example.com)");
    assert_eq!(links.len(), 1);
    assert_eq!(links[0].url, "https://example.com");
    assert_eq!(links[0].text, "Example");
    assert_eq!(links[0].file, "doc.md");
    assert_eq!(links[0].line, 1);
    assert_eq!(links[0].target, Target::Absolute);
    assert_eq!(links[0].valid, None);
    assert_eq!(links[0].status, None);
}

#[test]
fn from_file_numbers_lines_from_one() {
    let links = from_file("two.md", "[A](#a)\n[B](./b.md)");
    let found: Vec<_> = links.iter().map(summary).collect();
    assert_eq!(
        found,
        vec![
            expected("two.md", 1, "A", "#a", Target::Fragment),
            expected("two.md", 2, "B", "./b.md", Target::Relative),
        ]
    );
}

#[test]
fn from_file_keeps_line_order_and_order_within_a_line() {
    let content = "# Title\n\nfirst [a](http://a) and [b](#b)\nnothing here\n\r\n[c](c.md)\r\nlast [d](https://d)";
    let links = from_file("./docs/x.md", content);
    let found: Vec<_> = links.iter().map(summary).collect();
    assert_eq!(
        found,
        vec![
            expected("./docs/x.md", 3, "a", "http://a", Target::Absolute),
            expected("./docs/x.md", 3, "b", "#b", Target::Fragment),
            expected("./docs/x.md", 6, "c", "c.md", Target::Relative),
            expected("./docs/x.md", 7, "d", "https://d", Target::Absolute),
        ]
    );
}

#[test]
fn from_file_does_not_join_lines() {
    assert_eq!(from_file("x.md", "[a\n](b)").len(), 0);
    assert_eq!(from_file("x.md", "[a](b\n)").len(), 0);
    assert_eq!(from_file("x.md", "[a]\n(b)").len(), 0);
}

#[test]
fn from_file_leaves_the_line_ending_out_of_a_link() {
    let links = from_file("x.md", "[a](b\r\n[c](d)\r\n[e](f\r");
    let found: Vec<_> = links.iter().map(summary).collect();
    assert_eq!(found, vec![expected("x.md", 2, "c", "d", Target::Relative)]);
    let links = from_file("x.md", "[a](b\r)\n");
    let found: Vec<_> = links.iter().map(summary).collect();
    assert_eq!(found, vec![expected("x.md", 1, "a", "b\r", Target::Relative)]);
}

#[test]
fn from_file_of_nothing_is_empty() {
    assert_eq!(from_file("empty.md", "").len(), 0);
    assert_eq!(from_file("blank.md", "\n\n\n").len(), 0);
}

#[test]
fn from_file_agrees_with_line_by_line_extraction() {
    let content = "intro [a](1)\r\n\r\n[b](2) [c](#3)\nñ [d](http://4) ü\n\n[e](5";
    let links = from_file("f.md", content);
    let mut want = Vec::new();
    for (index, line) in content.lines().enumerate() {
        for (text, url) in extract_links(line) {
            want.push((index as u32 + 1, text, url));
        }
    }
    let got: Vec<_> = links.iter().map(|l| (l.line, l.text.clone(), l.url.clone())).collect();
    assert_eq!(got, want);
    assert_eq!(got.len(), 4);
}
