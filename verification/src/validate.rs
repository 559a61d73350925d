//! Validating absolute links, with one request for each different URL.
//!
//! The validator decides and remembers; it sends nothing itself. It is driven in
//! turns: [`Validator::next_request`] settles every link that needs no request and
//! names the next URL to fetch, and [`Validator::record`] takes the outcome of that
//! request. Outcomes are kept for the length of one run, so a URL that occurs many
//! times is asked for once.

use crate::link::{views, Link, LinkView};
use crate::target::Target;
use vstd::hash_map::StringHashMap;
use vstd::prelude::*;

verus! {

/// The verdict for an outcome: valid exactly if a response came and its status is 200.
pub open spec fn passes(outcome: Option<u16>) -> bool {
    outcome == Some(200u16)
}

/// A link after the outcome of its request is known. An outcome of `None` stands for a
/// request that got no response: the link is then invalid and has no status.
pub open spec fn settled(link: LinkView, outcome: Option<u16>) -> LinkView {
    LinkView { valid: Some(passes(outcome)), status: outcome, ..link }
}

/// A link after validation against known outcomes: settled where it is absolute and
/// the outcome for its URL is known, unchanged otherwise.
pub open spec fn validated_link(link: LinkView, outcomes: Map<Seq<char>, Option<u16>>) -> LinkView {
    if link.target == Target::Absolute && outcomes.contains_key(link.url) {
        settled(link, outcomes[link.url])
    } else {
        link
    }
}

/// A sequence of links after validation against known outcomes.
pub open spec fn validated(links: Seq<LinkView>, outcomes: Map<Seq<char>, Option<u16>>) -> Seq<
    LinkView,
> {
    links.map_values(|l: LinkView| validated_link(l, outcomes))
}

/// The URLs of the absolute links among the first `n` links.
pub open spec fn absolute_urls(links: Seq<LinkView>, n: int) -> Set<Seq<char>> {
    Set::new(
        |url: Seq<char>|
            exists|i: int|
                0 <= i < n && i < links.len() && (#[trigger] links[i]).target == Target::Absolute
                    && links[i].url == url,
    )
}

/// Validation keeps a link well formed.
pub proof fn lemma_validated_wf(link: LinkView, outcomes: Map<Seq<char>, Option<u16>>)
    requires
        link.wf(),
    ensures
        validated_link(link, outcomes).wf(),
        validated_link(link, outcomes).url == link.url,
        validated_link(link, outcomes).text == link.text,
        validated_link(link, outcomes).file == link.file,
        validated_link(link, outcomes).line == link.line,
        validated_link(link, outcomes).target == link.target,
{
}

/// Two absolute links with the same URL leave validation with the same verdict and the
/// same status, whatever they held before, once the outcome for their URL is known.
pub proof fn lemma_same_url_same_verdict(
    links: Seq<LinkView>,
    outcomes: Map<Seq<char>, Option<u16>>,
    a: int,
    b: int,
)
    requires
        0 <= a < links.len(),
        0 <= b < links.len(),
        links[a].target == Target::Absolute,
        links[b].target == Target::Absolute,
        links[a].url == links[b].url,
        outcomes.contains_key(links[a].url),
    ensures
        validated(links, outcomes)[a].valid == validated(links, outcomes)[b].valid,
        validated(links, outcomes)[a].status == validated(links, outcomes)[b].status,
        validated(links, outcomes)[a].status == outcomes[links[a].url],
        validated(links, outcomes)[a].valid == Some(passes(outcomes[links[a].url])),
{
}

/// What the link at index `n` adds to the URLs of the absolute links before it.
pub proof fn lemma_absolute_urls_step(links: Seq<LinkView>, n: int)
    requires
        0 <= n < links.len(),
    ensures
        absolute_urls(links, n + 1) == if links[n].target == Target::Absolute {
            absolute_urls(links, n).insert(links[n].url)
        } else {
            absolute_urls(links, n)
        },
{
    let grown = if links[n].target == Target::Absolute {
        absolute_urls(links, n).insert(links[n].url)
    } else {
        absolute_urls(links, n)
    };
    assert forall|url: Seq<char>| absolute_urls(links, n + 1).contains(url) implies grown.contains(
        url,
    ) by {
        let i = choose|i: int|
            0 <= i < n + 1 && i < links.len() && (#[trigger] links[i]).target == Target::Absolute
                && links[i].url == url;
        if i < n {
            assert(absolute_urls(links, n).contains(url));
        }
    }
    assert forall|url: Seq<char>| grown.contains(url) implies absolute_urls(links, n + 1).contains(
        url,
    ) by {
        if absolute_urls(links, n).contains(url) {
            let i = choose|i: int|
                0 <= i < n && i < links.len() && (#[trigger] links[i]).target == Target::Absolute
                    && links[i].url == url;
            assert(links[i].target == Target::Absolute && links[i].url == url);
        } else {
            assert(links[n].target == Target::Absolute && links[n].url == url);
        }
    }
    assert(absolute_urls(links, n + 1) =~= grown);
}

/// Sets the verdict and the status of a link from the outcome of its request.
fn settle(link: &mut Link, outcome: Option<u16>)
    ensures
        final(link)@ == settled(old(link)@, outcome),
{
    link.valid = Some(
        match outcome {
            Some(code) => code == 200,
            None => false,
        },
    );
    link.status = outcome;
}

/// A run of validation over a collection of links.
pub struct Validator {
    links: Vec<Link>,
    cache: StringHashMap<Option<u16>>,
    next: usize,
    initial: Ghost<Seq<LinkView>>,
    requested: Ghost<Seq<Seq<char>>>,
}

impl Validator {
    /// The links as they stand now.
    pub closed spec fn links(&self) -> Seq<LinkView> {
        views(self.links@)
    }

    /// The links as they were handed in.
    pub closed spec fn initial(&self) -> Seq<LinkView> {
        self.initial@
    }

    /// The outcomes known so far, by URL.
    pub closed spec fn outcomes(&self) -> Map<Seq<char>, Option<u16>> {
        self.cache@
    }

    /// How many links have been settled or passed over.
    pub closed spec fn position(&self) -> int {
        self.next as int
    }

    /// The URLs for which an outcome was recorded, in the order of recording.
    pub closed spec fn requested(&self) -> Seq<Seq<char>> {
        self.requested@
    }

    /// What holds between any two turns: the links before the position are validated
    /// against the known outcomes, those behind it are untouched, and the known
    /// outcomes are those of the absolute links before the position, each recorded once.
    pub open spec fn wf(&self) -> bool {
        &&& 0 <= self.position() <= self.initial().len()
        &&& self.links().len() == self.initial().len()
        &&& forall|i: int|
            0 <= i < self.position() ==> #[trigger] self.links()[i] == validated_link(
                self.initial()[i],
                self.outcomes(),
            )
        &&& forall|i: int|
            self.position() <= i < self.initial().len() ==> #[trigger] self.links()[i]
                == self.initial()[i]
        &&& self.outcomes().dom() =~= absolute_urls(self.initial(), self.position())
        &&& self.requested().no_duplicates()
        &&& self.requested().to_set() =~= self.outcomes().dom()
    }

    /// Whether the run waits for the outcome of a request: the link at the position
    /// is absolute and nothing is known of its URL.
    pub open spec fn pending(&self) -> bool {
        &&& self.position() < self.initial().len()
        &&& self.initial()[self.position()].target == Target::Absolute
        &&& !self.outcomes().contains_key(self.initial()[self.position()].url)
    }

    /// Whether every link has been dealt with.
    pub open spec fn done(&self) -> bool {
        self.position() == self.initial().len()
    }

    /// Starts a run over the given links, with nothing known yet.
    pub fn new(links: Vec<Link>) -> (run: Validator)
        ensures
            run.wf(),
            run.initial() == views(links@),
            run.links() == views(links@),
            run.outcomes() == Map::<Seq<char>, Option<u16>>::empty(),
            run.position() == 0,
            run.requested() == Seq::<Seq<char>>::empty(),
    {
        let ghost initial = views(links@);
        let run = Validator {
            links,
            cache: StringHashMap::new(),
            next: 0,
            initial: Ghost(initial),
            requested: Ghost(Seq::empty()),
        };
        assert(run.requested().to_set() =~= Set::<Seq<char>>::empty());
        run
    }

    /// Goes through the links from the position on. A link that is not absolute is
    /// passed over; an absolute link whose URL has a known outcome is settled from it.
    /// The first absolute link of whose URL nothing is known stops the turn: its URL
    /// is returned, to be fetched, and the run is pending on it. `None` means that
    /// every link has been dealt with.
    pub fn next_request(&mut self) -> (url: Option<String>)
        requires
            old(self).wf(),
        ensures
            final(self).wf(),
            final(self).initial() == old(self).initial(),
            final(self).outcomes() == old(self).outcomes(),
            final(self).requested() == old(self).requested(),
            old(self).position() <= final(self).position(),
            forall|i: int|
                old(self).position() <= i < final(self).position() ==> !(
                #[trigger] old(self).initial()[i].target == Target::Absolute
                    && !old(self).outcomes().contains_key(old(self).initial()[i].url)),
            match url {
                Some(u) => final(self).pending()
                    && u@ == final(self).initial()[final(self).position()].url,
                None => final(self).done(),
            },
    {
        while self.next < self.links.len()
            invariant
                self.wf(),
                self.initial() == old(self).initial(),
                self.outcomes() == old(self).outcomes(),
                self.requested() == old(self).requested(),
                old(self).position() <= self.position(),
                forall|i: int|
                    old(self).position() <= i < self.position() ==> !(
                    #[trigger] old(self).initial()[i].target == Target::Absolute
                        && !old(self).outcomes().contains_key(old(self).initial()[i].url)),
            decreases self.links@.len() - self.next,
        {
            let i = self.next;
            let ghost before = *self;
            proof {
                assert(before.links()[i as int] == before.initial()[i as int]);
                lemma_absolute_urls_step(before.initial(), i as int);
            }
            if self.links[i].target == Target::Absolute {
                let known = match self.cache.get(self.links[i].url.as_str()) {
                    Some(outcome) => Some(*outcome),
                    None => None,
                };
                match known {
                    Some(outcome) => {
                        settle(&mut self.links[i], outcome);
                    },
                    None => {
                        return Some(self.links[i].url.clone());
                    },
                }
            }
            self.next = i + 1;
            proof {
                assert forall|j: int| 0 <= j < self.position() implies #[trigger] self.links()[j]
                    == validated_link(self.initial()[j], self.outcomes()) by {
                    if j < i {
                        assert(before.links()[j] == validated_link(
                            before.initial()[j],
                            before.outcomes(),
                        ));
                    }
                }
                assert forall|j: int|
                    self.position() <= j < self.initial().len() implies #[trigger] self.links()[j]
                    == self.initial()[j] by {
                    assert(before.links()[j] == before.initial()[j]);
                }
                assert(absolute_urls(before.initial(), i + 1) =~= absolute_urls(
                    before.initial(),
                    i as int,
                ));
            }
        }
        None
    }

    /// Takes the outcome of the request for the URL that the run is pending on: the
    /// status code received, or `None` where no response came. The outcome is kept for
    /// the URL, the link is settled, and the position moves behind it. Returns `false`,
    /// and changes nothing, where the run is not pending.
    pub fn record(&mut self, outcome: Option<u16>) -> (taken: bool)
        requires
            old(self).wf(),
        ensures
            final(self).wf(),
            final(self).initial() == old(self).initial(),
            taken == old(self).pending(),
            taken ==> {
                let url = old(self).initial()[old(self).position()].url;
                &&& final(self).outcomes() == old(self).outcomes().insert(url, outcome)
                &&& final(self).requested() == old(self).requested().push(url)
                &&& final(self).position() == old(self).position() + 1
            },
            !taken ==> {
                &&& final(self).outcomes() == old(self).outcomes()
                &&& final(self).requested() == old(self).requested()
                &&& final(self).position() == old(self).position()
                &&& final(self).links() == old(self).links()
            },
    {
        let i = self.next;
        if i >= self.links.len() {
            return false;
        }
        if !(self.links[i].target == Target::Absolute) || self.cache.contains_key(
            self.links[i].url.as_str(),
        ) {
            return false;
        }
        let ghost before = *self;
        let ghost url = self.links[i as int].url@;
        proof {
            assert(before.links()[i as int] == before.initial()[i as int]);
            lemma_absolute_urls_step(before.initial(), i as int);
        }
        self.cache.insert(self.links[i].url.clone(), outcome);
        settle(&mut self.links[i], outcome);
        self.next = i + 1;
        proof {
            self.requested = Ghost(before.requested().push(url));
            assert forall|j: int| 0 <= j < self.position() implies #[trigger] self.links()[j]
                == validated_link(self.initial()[j], self.outcomes()) by {
                if j < i {
                    assert(before.links()[j] == validated_link(
                        before.initial()[j],
                        before.outcomes(),
                    ));
                    if before.initial()[j].target == Target::Absolute {
                        assert(absolute_urls(before.initial(), i as int).contains(
                            before.initial()[j].url,
                        ));
                    }
                }
            }
            assert forall|j: int|
                self.position() <= j < self.initial().len() implies #[trigger] self.links()[j]
                == self.initial()[j] by {
                assert(before.links()[j] == before.initial()[j]);
            }
            assert(!before.requested().contains(url)) by {
                if before.requested().contains(url) {
                    assert(before.requested().to_set().contains(url));
                }
            }
            before.requested().lemma_push_to_set_commute(url);
        }
        true
    }

    /// Of a run that has dealt with every link: the links are those handed in,
    /// validated against the recorded outcomes; an outcome was recorded for the URL of
    /// each absolute link and for nothing else; and no URL was asked for twice, however
    /// many links share it.
    pub proof fn lemma_complete(self)
        requires
            self.wf(),
            self.done(),
        ensures
            self.links() == validated(self.initial(), self.outcomes()),
            self.outcomes().dom() == absolute_urls(self.initial(), self.initial().len() as int),
            self.requested().no_duplicates(),
            forall|url: Seq<char>|
                self.requested().contains(url) <==> absolute_urls(
                    self.initial(),
                    self.initial().len() as int,
                ).contains(url),
            forall|a: int, b: int|
                0 <= a < self.initial().len() && 0 <= b < self.initial().len()
                    && self.initial()[a].target == Target::Absolute && self.initial()[b].target
                    == Target::Absolute && self.initial()[a].url == self.initial()[b].url ==> (
                #[trigger] self.links()[a]).valid == (#[trigger] self.links()[b]).valid
                    && self.links()[a].status == self.links()[b].status,
    {
        assert(self.links() =~= validated(self.initial(), self.outcomes()));
        assert forall|url: Seq<char>|
            self.requested().contains(url) <==> absolute_urls(
                self.initial(),
                self.initial().len() as int,
            ).contains(url) by {
            assert(self.requested().contains(url) <==> self.requested().to_set().contains(url));
        }
        assert forall|a: int, b: int|
            0 <= a < self.initial().len() && 0 <= b < self.initial().len()
                && self.initial()[a].target == Target::Absolute && self.initial()[b].target
                == Target::Absolute && self.initial()[a].url == self.initial()[b].url implies (
            #[trigger] self.links()[a]).valid == (#[trigger] self.links()[b]).valid
                && self.links()[a].status == self.links()[b].status by {
            assert(absolute_urls(self.initial(), self.initial().len() as int).contains(
                self.initial()[a].url,
            ));
            lemma_same_url_same_verdict(self.initial(), self.outcomes(), a, b);
        }
    }

    /// Ends the run and hands the links back as they stand.
    pub fn finish(self) -> (links: Vec<Link>)
        ensures
            views(links@) == self.links(),
    {
        self.links
    }
}

} // verus!
