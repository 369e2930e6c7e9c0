//! In which order summarizers are asked.

use super::{disqualified, is_disqualified, CompactorError};
use crate::config::{SummarizerConfig, SummarizerProviderConfig};
use crate::text::{lemma_texts_push, same_text, texts};
use vstd::prelude::*;

verus! {

/// Some names in order, each once, up to the one that says to do without a summarizer.
pub open spec fn chained(names: Seq<Seq<char>>) -> Seq<Seq<char>>
    decreases names.len(),
{
    if names.len() == 0 {
        Seq::empty()
    } else {
        let before = chained(names.drop_last());
        if before.contains("model-free"@) || before.contains(names.last()) {
            before
        } else {
            before.push(names.last())
        }
    }
}

/// The summarizers that the settings name, the first choice first.
pub open spec fn named(s: &SummarizerConfig) -> Seq<Seq<char>> {
    seq![s.engine@] + texts(s.fallback@)
}

/// The summarizers in the order in which they are asked. To do without one is always the last
/// resort.
pub open spec fn chain_of(s: &SummarizerConfig) -> Seq<Seq<char>> {
    let c = chained(named(s));
    if c.contains("model-free"@) {
        c
    } else {
        c.push("model-free"@)
    }
}

fn holds(names: &Vec<String>, name: &str) -> (r: bool)
    ensures
        r == texts(names@).contains(name@),
{
    let ghost all = texts(names@);
    let mut i: usize = 0;
    while i < names.len()
        invariant
            i <= names@.len(),
            all == texts(names@),
            forall|j: int| 0 <= j < i ==> #[trigger] all[j] != name@,
        decreases names@.len() - i,
    {
        if same_text(&names[i], name) {
            assert(all[i as int] == name@);
            return true;
        }
        i = i + 1;
    }
    false
}

fn link(chain: &mut Vec<String>, name: &str)
    ensures
        texts(final(chain)@) == if texts(old(chain)@).contains("model-free"@) || texts(
            old(chain)@,
        ).contains(name@) {
            texts(old(chain)@)
        } else {
            texts(old(chain)@).push(name@)
        },
{
    if !holds(chain, "model-free") && !holds(chain, name) {
        let owned = name.to_owned();
        proof {
            lemma_texts_push(chain@, owned);
        }
        chain.push(owned);
    }
}

/// Works out in which order summarizers are asked.
pub fn cascade_chain(s: &SummarizerConfig) -> (r: Vec<String>)
    ensures
        texts(r@) == chain_of(s),
{
    let ghost all = named(s);
    let mut chain: Vec<String> = Vec::new();
    assert(texts(chain@) =~= Seq::empty());
    assert(all.take(1).drop_last() =~= Seq::empty());
    assert(all.take(1).last() == s.engine@);
    assert(chained(all.take(1).drop_last()) =~= Seq::empty());
    link(&mut chain, &s.engine);
    let mut i: usize = 0;
    while i < s.fallback.len()
        invariant
            i <= s.fallback@.len(),
            all == named(s),
            texts(chain@) == chained(all.take(i + 1)),
        decreases s.fallback@.len() - i,
    {
        assert(all.take(i + 2).drop_last() =~= all.take(i + 1));
        assert(all.take(i + 2).last() == s.fallback@[i as int]@);
        link(&mut chain, &s.fallback[i]);
        i = i + 1;
    }
    assert(all.take(i + 1) =~= all);
    if !holds(&chain, "model-free") {
        let owned = "model-free".to_owned();
        proof {
            lemma_texts_push(chain@, owned);
        }
        chain.push(owned);
    }
    chain
}

proof fn lemma_chained(names: Seq<Seq<char>>)
    ensures
        ({
            let c = chained(names);
            &&& forall|i: int, j: int| 0 <= i < j < c.len() ==> #[trigger] c[i] != #[trigger] c[j]
            &&& forall|i: int| 0 <= i < c.len() - 1 ==> #[trigger] c[i] != "model-free"@
            &&& forall|i: int| 0 <= i < c.len() ==> names.contains(#[trigger] c[i])
        }),
    decreases names.len(),
{
    if names.len() > 0 {
        let init = names.drop_last();
        let before = chained(init);
        let c = chained(names);
        lemma_chained(init);
        assert forall|i: int| 0 <= i < before.len() implies names.contains(#[trigger] before[i]) by {
            let k = choose|k: int| 0 <= k < init.len() && init[k] == before[i];
            assert(names[k] == before[i]);
        }
        assert(names[names.len() - 1] == names.last());
        if c != before {
            assert forall|i: int| 0 <= i < before.len() implies #[trigger] before[i] != "model-free"@ && before[i] != names.last() by {
                assert(before.contains(before[i]));
            }
            assert forall|i: int, j: int| 0 <= i < j < c.len() implies #[trigger] c[i] != #[trigger] c[j] by {
                assert(c[i] == before[i]);
                if j < before.len() {
                    assert(c[j] == before[j]);
                }
            }
        }
    }
}

/// No summarizer is asked twice; to do without one comes last and only there; and every other one
/// is named in the settings.
pub proof fn law_chain(s: &SummarizerConfig)
    ensures
        ({
            let c = chain_of(s);
            &&& c.len() > 0
            &&& c.last() == "model-free"@
            &&& forall|i: int, j: int| 0 <= i < j < c.len() ==> #[trigger] c[i] != #[trigger] c[j]
            &&& forall|i: int| 0 <= i < c.len() - 1 ==> #[trigger] c[i] != "model-free"@ && named(
                s,
            ).contains(c[i])
        }),
{
    let c = chained(named(s));
    lemma_chained(named(s));
    if c.contains("model-free"@) {
        let k = choose|k: int| 0 <= k < c.len() && c[k] == "model-free"@;
        assert(k == c.len() - 1);
    } else {
        assert forall|i: int| 0 <= i < c.len() implies #[trigger] c[i] != "model-free"@ by {
            assert(c.contains(c[i]));
        }
        let full = chain_of(s);
        assert forall|i: int, j: int| 0 <= i < j < full.len() implies #[trigger] full[i] != #[trigger] full[j] by {
            assert(full[i] == c[i]);
            if j < c.len() {
                assert(full[j] == c[j]);
            }
        }
    }
}

/// What to do next.
#[derive(Debug, Clone, Copy, PartialEq, Eq, Structural)]
pub enum CascadeStep {
    /// Ask the local summarizer; if it fails, go on at `next`.
    Local { next: usize },
    /// Ask a provider, by its place in the settings; if it fails, go on at `next`.
    Provider { index: usize, next: usize },
    /// Do without a summary.
    Stop,
}

/// The first provider with an id, from the `i`th on.
pub open spec fn provider_from(
    providers: Seq<SummarizerProviderConfig>,
    id: Seq<char>,
    i: int,
) -> Option<int>
    decreases providers.len() - i,
{
    if i < 0 || i >= providers.len() {
        None
    } else if providers[i].id@ == id {
        Some(i)
    } else {
        provider_from(providers, id, i + 1)
    }
}

/// What to do at place `at` of the chain. A local summarizer whose model is disqualified is passed
/// over, and so is a provider that the settings do not hold.
pub open spec fn step_at(s: &SummarizerConfig, chain: Seq<Seq<char>>, at: int) -> CascadeStep
    decreases chain.len() - at,
{
    if at < 0 || at >= chain.len() || chain[at] == "model-free"@ {
        CascadeStep::Stop
    } else if chain[at] == "local"@ {
        if disqualified(s.local.model@) {
            step_at(s, chain, at + 1)
        } else {
            CascadeStep::Local { next: (at + 1) as usize }
        }
    } else {
        match provider_from(s.providers@, chain[at], 0) {
            Some(k) => CascadeStep::Provider { index: k as usize, next: (at + 1) as usize },
            None => step_at(s, chain, at + 1),
        }
    }
}

fn find_provider(providers: &Vec<SummarizerProviderConfig>, id: &str) -> (r: Option<usize>)
    ensures
        match r {
            Some(i) => provider_from(providers@, id@, 0) == Some(i as int) && i < providers@.len(),
            None => provider_from(providers@, id@, 0) is None,
        },
{
    let mut i: usize = 0;
    while i < providers.len()
        invariant
            i <= providers@.len(),
            provider_from(providers@, id@, 0) == provider_from(providers@, id@, i as int),
        decreases providers@.len() - i,
    {
        if same_text(&providers[i].id, id) {
            return Some(i);
        }
        i = i + 1;
    }
    None
}

/// Says what to do at place `at` of the chain.
pub fn cascade_step(s: &SummarizerConfig, chain: &Vec<String>, at: usize) -> (r: CascadeStep)
    ensures
        r == step_at(s, texts(chain@), at as int),
        r matches CascadeStep::Provider { index, next } ==> index < s.providers@.len() && at < next
            <= chain@.len(),
        r matches CascadeStep::Local { next } ==> at < next <= chain@.len(),
{
    let ghost all = texts(chain@);
    let mut i: usize = at;
    while i < chain.len()
        invariant
            at <= i,
            all == texts(chain@),
            step_at(s, all, at as int) == step_at(s, all, i as int),
        decreases chain@.len() - i,
    {
        assert(all[i as int] == chain@[i as int]@);
        if same_text(&chain[i], "model-free") {
            return CascadeStep::Stop;
        }
        if same_text(&chain[i], "local") {
            if !is_disqualified(&s.local.model) {
                return CascadeStep::Local { next: i + 1 };
            }
        } else {
            match find_provider(&s.providers, &chain[i]) {
                Some(index) => return CascadeStep::Provider { index, next: i + 1 },
                None => {},
            }
        }
        i = i + 1;
    }
    CascadeStep::Stop
}

/// Where to go on when a step fails; nowhere from the last.
pub open spec fn next_of(step: CascadeStep) -> Option<usize> {
    match step {
        CascadeStep::Local { next } => Some(next),
        CascadeStep::Provider { next, .. } => Some(next),
        CascadeStep::Stop => None,
    }
}

/// The kind of summarizer that a step asks.
pub open spec fn kind_of(step: CascadeStep) -> Seq<char> {
    match step {
        CascadeStep::Local { .. } => "local"@,
        CascadeStep::Provider { .. } => "api"@,
        CascadeStep::Stop => "model-free"@,
    }
}

/// What becomes of the cascade after a reply.
#[derive(Debug)]
pub enum CascadeEnd {
    /// There is a summary, from a summarizer of some kind.
    Summary(String, &'static str),
    /// The next one is to be asked, from a place of the chain on.
    GoOn(usize),
    /// There is no summary.
    Without,
}

/// Says what becomes of the cascade after the reply to a step: the first summary ends it, whatever
/// is thought of the summary later, and a failure leads to the next step.
pub fn cascade_reply(step: CascadeStep, reply: Result<String, CompactorError>) -> (r: CascadeEnd)
    ensures
        match next_of(step) {
            Some(next) => match reply {
                Ok(text) => r matches CascadeEnd::Summary(t, kind) && t == text && kind@ == kind_of(
                    step,
                ),
                Err(_) => r == CascadeEnd::GoOn(next),
            },
            None => r is Without,
        },
{
    let (kind, next): (&'static str, usize) = match step {
        CascadeStep::Local { next } => ("local", next),
        CascadeStep::Provider { next, .. } => ("api", next),
        CascadeStep::Stop => return CascadeEnd::Without,
    };
    match reply {
        Ok(text) => CascadeEnd::Summary(text, kind),
        Err(_) => CascadeEnd::GoOn(next),
    }
}

proof fn lemma_step_forward(s: &SummarizerConfig, chain: Seq<Seq<char>>, at: int)
    requires
        0 <= at,
        chain.len() <= usize::MAX,
    ensures
        next_of(step_at(s, chain, at)) matches Some(next) ==> at < next <= chain.len(),
    decreases chain.len() - at,
{
    if at < chain.len() {
        lemma_step_forward(s, chain, at + 1);
    }
}

/// Every step leads forward in the chain, so that a cascade in which all fail comes to its end.
pub proof fn law_cascade_ends(s: &SummarizerConfig, chain: Seq<Seq<char>>, at: int)
    requires
        0 <= at,
        chain.len() <= usize::MAX,
    ensures
        next_of(step_at(s, chain, at)) matches Some(next) ==> at < next <= chain.len(),
        at >= chain.len() ==> step_at(s, chain, at) is Stop,
{
    lemma_step_forward(s, chain, at);
}

} // verus!
