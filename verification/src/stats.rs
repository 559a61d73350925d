//! Summary figures over a collection of links.

use crate::link::{views, Link, LinkView};
use crate::target::Target;
use vstd::hash_map::StringHashMap;
use vstd::prelude::*;
use vstd::seq_lib::seq_to_set_is_finite;

verus! {

/// Summary figures for a collection of links.
#[derive(Clone, Copy, Debug, PartialEq, Eq)]
pub struct Stats {
    /// How many links there are.
    pub total: usize,
    /// How many different URLs they name.
    pub uniq: usize,
    /// How many absolute links lack a passing verdict; `None` where validation was
    /// not asked for, which is not the same as zero.
    pub broken: Option<usize>,
}

/// The URLs of a sequence of links, in order.
pub open spec fn urls(links: Seq<LinkView>) -> Seq<Seq<char>> {
    links.map_values(|l: LinkView| l.url)
}

/// The set of URLs that occur in a sequence of links.
pub open spec fn distinct_urls(links: Seq<LinkView>) -> Set<Seq<char>> {
    urls(links).to_set()
}

/// The links that count as broken, in order.
pub open spec fn broken_links(links: Seq<LinkView>) -> Seq<LinkView> {
    links.filter(|l: LinkView| l.broken())
}

/// The links whose target is absolute, in order.
pub open spec fn absolute_links(links: Seq<LinkView>) -> Seq<LinkView> {
    links.filter(|l: LinkView| l.target == Target::Absolute)
}

/// There are no more different URLs than links.
pub proof fn lemma_uniq_at_most_total(links: Seq<LinkView>)
    ensures
        distinct_urls(links).finite(),
        distinct_urls(links).len() <= links.len(),
{
    seq_to_set_is_finite(urls(links));
    urls(links).lemma_cardinality_of_set();
}

/// There are no more broken links than absolute links.
pub proof fn lemma_broken_at_most_absolute(links: Seq<LinkView>)
    ensures
        broken_links(links).len() <= absolute_links(links).len(),
        absolute_links(links).len() <= links.len(),
    decreases links.len(),
{
    let broken = |l: LinkView| l.broken();
    let absolute = |l: LinkView| l.target == Target::Absolute;
    links.lemma_filter_len(absolute);
    if links.len() > 0 {
        let front = links.drop_last();
        lemma_broken_at_most_absolute(front);
        assert(front.push(links.last()) =~= links);
        front.lemma_filter_len_push(broken, links.last());
        front.lemma_filter_len_push(absolute, links.last());
    } else {
        links.lemma_filter_len(broken);
    }
}

/// What one more link adds to the figures.
proof fn lemma_stats_step(links: Seq<LinkView>, n: int)
    requires
        0 <= n < links.len(),
    ensures
        distinct_urls(links.take(n + 1)) == distinct_urls(links.take(n)).insert(links[n].url),
        distinct_urls(links.take(n)).finite(),
        broken_links(links.take(n + 1)).len() == broken_links(links.take(n)).len() + if links[n].broken() {
            1int
        } else {
            0int
        },
        broken_links(links.take(n)).len() <= n,
        distinct_urls(links.take(n)).len() <= n,
{
    let front = links.take(n);
    assert(links.take(n + 1) =~= front.push(links[n]));
    assert(urls(front.push(links[n])) =~= urls(front).push(links[n].url));
    urls(front).lemma_push_to_set_commute(links[n].url);
    front.lemma_filter_len_push(|l: LinkView| l.broken(), links[n]);
    front.lemma_filter_len(|l: LinkView| l.broken());
    lemma_uniq_at_most_total(front);
}

/// Computes the summary figures: the number of links, the number of different URLs,
/// and, where `validate` is set, the number of absolute links without a passing verdict.
pub fn stats(links: &Vec<Link>, validate: bool) -> (s: Stats)
    ensures
        s.total == links@.len(),
        s.uniq == distinct_urls(views(links@)).len(),
        validate ==> s.broken == Some(broken_links(views(links@)).len() as usize),
        !validate ==> s.broken is None,
        s.uniq <= s.total,
        s.broken matches Some(b) ==> b <= absolute_links(views(links@)).len(),
{
    let ghost all = views(links@);
    let mut seen: StringHashMap<()> = StringHashMap::new();
    let mut uniq: usize = 0;
    let mut broken: usize = 0;
    let mut i: usize = 0;
    proof {
        assert(all.take(0) =~= Seq::<LinkView>::empty());
        assert(urls(all.take(0)) =~= Seq::<Seq<char>>::empty());
        assert(distinct_urls(all.take(0)) =~= Set::<Seq<char>>::empty());
        all.take(0).lemma_filter_len(|l: LinkView| l.broken());
    }
    while i < links.len()
        invariant
            all == views(links@),
            i <= links.len(),
            seen@.dom() =~= distinct_urls(all.take(i as int)),
            uniq == distinct_urls(all.take(i as int)).len(),
            broken == broken_links(all.take(i as int)).len(),
        decreases links.len() - i,
    {
        proof {
            lemma_stats_step(all, i as int);
        }
        let link = &links[i];
        if !seen.contains_key(link.url.as_str()) {
            seen.insert(link.url.clone(), ());
            uniq = uniq + 1;
        }
        let passed = match link.valid {
            Some(v) => v,
            None => false,
        };
        if link.target == Target::Absolute && !passed {
            broken = broken + 1;
        }
        i = i + 1;
    }
    proof {
        assert(all.take(i as int) =~= all);
        lemma_uniq_at_most_total(all);
        lemma_broken_at_most_absolute(all);
    }
    Stats {
        total: links.len(),
        uniq,
        broken: if validate {
            Some(broken)
        } else {
            None
        },
    }
}

} // verus!
