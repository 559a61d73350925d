use md_links::link::Link;
use md_links::stats::{stats, Stats};
use md_links::target::{classify, Target};

fn counted(url: &str, valid: Option<bool>, status: Option<u16>) -> Link {
    Link {
        file: "doc.md".to_string(),
        line: 1,
        url: url.to_string(),
        text: "text".to_string(),
        target: classify(url),
        valid,
        status,
    }
}

#[test]
fn stats_of_nothing() {
    assert_eq!(stats(&Vec::new(), false), Stats { total: 0, uniq: 0, broken: None });
    assert_eq!(stats(&Vec::new(), true), Stats { total: 0, uniq: 0, broken: Some(0) });
}

#[test]
fn stats_count_each_url_once() {
    let links = vec![
        counted("http://a", None, None),
        counted("./b.md", None, None),
        counted("http://a", None, None),
        counted("#c", None, None),
        counted("./b.md", None, None),
        counted("http://a", None, None),
    ];
    let s = stats(&links, false);
    assert_eq!(s.total, 6);
    assert_eq!(s.uniq, 3);
    assert_eq!(s.broken, None);
}

#[test]
fn stats_tell_unknown_from_zero() {
    let links = vec![counted("http://a", Some(true), Some(200))];
    assert_eq!(stats(&links, false).broken, None);
    assert_eq!(stats(&links, true).broken, Some(0));
}

#[test]
fn stats_count_broken_among_absolute_links_only() {
    let links = vec![
        counted("http://ok", Some(true), Some(200)),
        counted("http://gone", Some(false), Some(404)),
        counted("http://down", Some(false), None),
        counted("http://never-validated", None, None),
        counted("./relative.md", None, None),
        counted("#fragment", None, None),
    ];
    let s = stats(&links, true);
    assert_eq!(s, Stats { total: 6, uniq: 6, broken: Some(3) });
    let absolute = links.iter().filter(|l| l.target == Target::Absolute).count();
    assert!(s.uniq <= s.total);
    assert!(s.broken.unwrap() <= absolute);
}

#[test]
fn stats_urls_differ_by_case_and_by_trailing_characters() {
    let links = vec![
        counted("http://a", None, None),
        counted("http://A", None, None),
        counted("http://a/", None, None),
        counted("http://a ", None, None),
    ];
    assert_eq!(stats(&links, false).uniq, 4);
}
