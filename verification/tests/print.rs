use md_links::decimal::to_decimal;
use md_links::link::Link;
use md_links::print::{print_links, print_stats};
use md_links::target::Target;

fn printed(file: &str, line: u32, url: &str, text: &str, valid: Option<bool>, status: Option<u16>) -> Link {
    Link {
        file: file.to_string(),
        line,
        url: url.to_string(),
        text: text.to_string(),
        target: Target::Absolute,
        valid,
        status,
    }
}

#[test]
fn print_links_should_handle_one_link() {
    let links = vec![Link {
        file: "/README.md".to_string(),
        line: 1,
        url: "http://foo.bar".to_string(),
        text: "Foo".to_string(),
        target: Target::Absolute,
        valid: None,
        status: None,
    }];
    let out = print_links(&links, false);
    assert_eq!(out, "/README.md:1 http://foo.bar Foo");
}

#[test]
fn print_links_should_handle_many_links() {
    let links = vec![
        Link {
            file: "/README.md".to_string(),
            line: 1,
            url: "http://foo.bar".to_string(),
            text: "Foo".to_string(),
            target: Target::Absolute,
            valid: None,
            status: None,
        },
        Link {
            file: "/README.pt-BR.md".to_string(),
            line: 2,
            url: "http://foo.bar/baz.html".to_string(),
            text: "Foo bar".to_string(),
            target: Target::Absolute,
            valid: None,
            status: None,
        },
    ];
    let out = print_links(&links, false);
    assert_eq!(
        out,
        "/README.md:1 http://foo.bar Foo\n/README.pt-BR.md:2 http://foo.bar/baz.html Foo bar"
    );
}

#[test]
fn print_links_should_show_validation_stuff_when_appropriate() {
    let links = vec![
        Link {
            file: "/README.md".to_string(),
            line: 1,
            url: "http://foo.bar".to_string(),
            text: "Foo".to_string(),
            target: Target::Absolute,
            valid: Some(true),
            status: Some(200),
        },
        Link {
            file: "/README.pt-BR.md".to_string(),
            line: 2,
            url: "http://foo.bar/baz.html".to_string(),
            text: "Foo bar".to_string(),
            target: Target::Absolute,
            valid: Some(false),
            status: Some(404),
        },
    ];
    let out = print_links(&links, true);
    assert_eq!(
        out,
        "/README.md:1 http://foo.bar Foo OK 200\n/README.pt-BR.md:2 http://foo.bar/baz.html Foo bar INVALID 404"
    );
}

#[test]
fn print_stats_should_include_total_and_uniq() {
    let links = vec![
        Link {
            file: "/README.md".to_string(),
            line: 1,
            url: "http://foo.bar".to_string(),
            text: "Foo".to_string(),
            target: Target::Absolute,
            valid: None,
            status: None,
        },
        Link {
            file: "/README.pt-BR.md".to_string(),
            line: 2,
            url: "http://foo.bar".to_string(),
            text: "Foo".to_string(),
            target: Target::Absolute,
            valid: None,
            status: None,
        },
    ];
    let out = print_stats(&links, false);
    assert_eq!(out, "Total: 2\nUniq: 1");
}

#[test]
fn print_stats_should_include_broken_count_when_validate_option_enabled() {
    let links = vec![
        Link {
            file: "/README.md".to_string(),
            line: 1,
            url: "http://foo.bar".to_string(),
            text: "Foo".to_string(),
            target: Target::Absolute,
            valid: Some(false),
            status: Some(404),
        },
        Link {
            file: "/README.pt-BR.md".to_string(),
            line: 2,
            url: "http://omg.com".to_string(),
            text: "Foo".to_string(),
            target: Target::Absolute,
            valid: Some(true),
            status: Some(200),
        },
    ];
    let out = print_stats(&links, true);
    assert_eq!(out, "Total: 2\nUniq: 2\nBroken: 1");
}

#[test]
fn print_links_of_nothing_is_empty() {
    assert_eq!(print_links(&Vec::new(), false), "");
    assert_eq!(print_links(&Vec::new(), true), "");
}

#[test]
fn print_links_shows_zero_where_no_response_came() {
    let links = vec![printed("a.md", 7, "http://down.example", "Down", Some(false), None)];
    assert_eq!(print_links(&links, true), "a.md:7 http://down.example Down INVALID 0");
}

#[test]
fn print_links_leaves_the_verdict_blank_where_there_is_none() {
    let links = vec![printed("a.md", 12, "http://x", "X", None, None)];
    assert_eq!(print_links(&links, true), "a.md:12 http://x X  0");
}

#[test]
fn print_links_ignores_verdicts_without_validate() {
    let links = vec![printed("a.md", 1, "http://x", "X", Some(true), Some(200))];
    assert_eq!(print_links(&links, false), "a.md:1 http://x X");
}

#[test]
fn print_stats_of_nothing() {
    assert_eq!(print_stats(&Vec::new(), false), "Total: 0\nUniq: 0");
    assert_eq!(print_stats(&Vec::new(), true), "Total: 0\nUniq: 0\nBroken: 0");
}

#[test]
fn print_stats_counts_into_several_digits() {
    let mut links = Vec::new();
    for i in 0..120u32 {
        let url = format!("http://host/{}", i % 15);
        links.push(printed("a.md", i + 1, &url, "t", Some(i % 2 == 0), Some(if i % 2 == 0 { 200 } else { 500 })));
    }
    assert_eq!(print_stats(&links, true), "Total: 120\nUniq: 15\nBroken: 60");
}

#[test]
fn decimal_notation() {
    assert_eq!(to_decimal(0), "0");
    assert_eq!(to_decimal(7), "7");
    assert_eq!(to_decimal(10), "10");
    assert_eq!(to_decimal(404), "404");
    assert_eq!(to_decimal(1234567890), "1234567890");
    assert_eq!(to_decimal(u64::MAX), "18446744073709551615");
    for n in [0u64, 9, 10, 99, 100, 65535, 4294967295, 4294967296] {
        assert_eq!(to_decimal(n), n.to_string());
    }
}
