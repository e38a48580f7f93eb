use vstd::prelude::*;

use crate::cluster::{
    connected_components, is_component_partition, lemma_partition_disjoint_and_closed, link_graph,
    listed, square,
};
use crate::graph::reachable;
use crate::keyed::{
    has_key, key_index, keyed_map, keys_distinct, lemma_keyed_at, lemma_keyed_empty, lemma_keyed_len,
    lemma_keyed_push, lemma_keyed_update,
};
use crate::signature::{is_adinkra_of, AgentSignature, TraitReading};
use crate::id::AdinkraId;
use crate::symbol::{AdinkraSymbol, SymbolMeaning};

verus! {

/// One registered agent: the name it was registered under, and its
/// behavioural signature.
#[derive(Debug, Clone)]
pub struct AgentEntry {
    pub agent_id: String,
    pub signature: AgentSignature,
}

/// Symbols are keyed by their identifier.
pub open spec fn symbol_key() -> spec_fn(AdinkraSymbol) -> Seq<char> {
    |s: AdinkraSymbol| s.id@
}

/// Agents are keyed by the name they were registered under.
pub open spec fn entry_key() -> spec_fn(AgentEntry) -> Seq<char> {
    |e: AgentEntry| e.agent_id@
}

/// Where an entry with key `k` goes in `s`: its present position, or the end.
pub open spec fn slot_for<T>(s: Seq<T>, key: spec_fn(T) -> Seq<char>, k: Seq<char>) -> int {
    if has_key(s, key, k) {
        key_index(s, key, k)
    } else {
        s.len() as int
    }
}

/// `after` is `before` with the entry at key `k` replaced in place, or
/// appended when `before` has none.
pub open spec fn replaced_or_appended<T>(
    before: Seq<T>,
    after: Seq<T>,
    key: spec_fn(T) -> Seq<char>,
    k: Seq<char>,
) -> bool {
    let at = slot_for(before, key, k);
    &&& after.len() == if has_key(before, key, k) {
        before.len()
    } else {
        before.len() + 1
    }
    &&& forall|i: int| 0 <= i < before.len() && i != at ==> #[trigger] after[i] == before[i]
    &&& key(after[at]) == k
}

/// The number of balanced symbols among the first `upto` of `s`.
pub open spec fn balanced_upto(s: Seq<AdinkraSymbol>, upto: int) -> nat
    decreases upto,
{
    if upto <= 0 {
        0
    } else {
        balanced_upto(s, upto - 1) + if s[upto - 1].balanced() {
            1nat
        } else {
            0nat
        }
    }
}

/// The names, in registration order, of the first `upto` agents other than
/// `me` whose flag in `similar` is set.
pub open spec fn similar_upto(
    agents: Seq<AgentEntry>,
    similar: Seq<bool>,
    me: Seq<char>,
    upto: int,
) -> Seq<Seq<char>>
    decreases upto,
{
    if upto <= 0 {
        seq![]
    } else {
        let before = similar_upto(agents, similar, me, upto - 1);
        let e = agents[upto - 1];
        if e.agent_id@ != me && similar[upto - 1] {
            before.push(e.agent_id@)
        } else {
            before
        }
    }
}

/// Some cluster of `clusters` lists `name`.
pub open spec fn name_listed(clusters: Seq<Vec<String>>, name: Seq<char>) -> bool {
    exists|c: int, k: int|
        0 <= c < clusters.len() && 0 <= k < clusters[c]@.len() && #[trigger] clusters[c]@[k]@ == name
}

/// A symbol has at least two-fold rotational symmetry or reflects.
pub open spec fn two_fold_or_reflecting() -> spec_fn(AdinkraSymbol) -> bool {
    |s: AdinkraSymbol| s.symmetry_fold >= 2 || s.has_reflection
}

/// The running count of balanced symbols is the number of symbols, among
/// the first `upto`, with at least two-fold symmetry or reflection.
pub proof fn lemma_balanced_upto_filter(s: Seq<AdinkraSymbol>, upto: int)
    requires
        0 <= upto <= s.len(),
    ensures
        balanced_upto(s, upto) == s.take(upto).filter(two_fold_or_reflecting()).len(),
    decreases upto,
{
    reveal(Seq::filter);
    if upto > 0 {
        lemma_balanced_upto_filter(s, upto - 1);
        assert(s.take(upto).drop_last() =~= s.take(upto - 1));
        assert(s.take(upto).last() == s[upto - 1]);
    } else {
        assert(s.take(upto).len() == 0);
    }
}

/// Some entry of `names` has the text `name`.
pub open spec fn str_listed(names: Seq<&str>, name: Seq<char>) -> bool {
    exists|k: int| 0 <= k < names.len() && #[trigger] names[k]@ == name
}

/// One of the first `upto` agents has its flag set and is named `name`.
pub open spec fn flagged_before(
    agents: Seq<AgentEntry>,
    similar: Seq<bool>,
    name: Seq<char>,
    upto: int,
) -> bool {
    exists|i: int| 0 <= i < upto && similar[i] && #[trigger] agents[i].agent_id@ == name
}

/// Central registry mapping agents to their Adinkra symbols.
///
/// Symbols are kept in registration order with distinct identifiers, agents
/// in registration order with distinct names; registering again under a
/// known key replaces the entry in place.
#[derive(Debug)]
pub struct AdinkraRegistry {
    symbols: Vec<AdinkraSymbol>,
    agents: Vec<AgentEntry>,
}

impl AdinkraRegistry {
    #[verifier::type_invariant]
    spec fn keys_unique(&self) -> bool {
        &&& keys_distinct(self.symbols@, symbol_key())
        &&& keys_distinct(self.agents@, entry_key())
    }

    /// The symbols, in registration order.
    pub closed spec fn symbol_seq(&self) -> Seq<AdinkraSymbol> {
        self.symbols@
    }

    /// The agents, in registration order.
    pub closed spec fn agent_seq(&self) -> Seq<AgentEntry> {
        self.agents@
    }

    /// The symbols by identifier.
    pub open spec fn symbol_map(&self) -> Map<Seq<char>, AdinkraSymbol> {
        keyed_map(self.symbol_seq(), symbol_key())
    }

    /// The agents by the name they were registered under.
    pub open spec fn agent_map(&self) -> Map<Seq<char>, AgentEntry> {
        keyed_map(self.agent_seq(), entry_key())
    }

    /// An empty registry.
    pub fn new() -> (r: Self)
        ensures
            r.symbol_seq().len() == 0,
            r.agent_seq().len() == 0,
            r.symbol_map() == Map::<Seq<char>, AdinkraSymbol>::empty(),
            r.agent_map() == Map::<Seq<char>, AgentEntry>::empty(),
    {
        let r = AdinkraRegistry { symbols: Vec::new(), agents: Vec::new() };
        proof {
            lemma_keyed_empty(r.symbols@, symbol_key());
            lemma_keyed_empty(r.agents@, entry_key());
        }
        r
    }

    /// Registers a symbol under its identifier, replacing any symbol already
    /// registered under it.
    pub fn register_symbol(&mut self, symbol: AdinkraSymbol)
        ensures
            final(self).symbol_map() == old(self).symbol_map().insert(symbol.id@, symbol),
            replaced_or_appended(
                old(self).symbol_seq(),
                final(self).symbol_seq(),
                symbol_key(),
                symbol.id@,
            ),
            final(self).symbol_seq()[slot_for(old(self).symbol_seq(), symbol_key(), symbol.id@)]
                == symbol,
            final(self).agent_seq() == old(self).agent_seq(),
    {
        proof {
            use_type_invariant(&*self);
        }
        let ghost before = self.symbols@;
        let mut symbols: Vec<AdinkraSymbol> = Vec::new();
        std::mem::swap(&mut symbols, &mut self.symbols);
        match symbol_position(&symbols, &symbol.id.0) {
            Some(i) => {
                proof {
                    lemma_keyed_at(before, symbol_key(), i as int);
                    lemma_keyed_update(before, symbol_key(), i as int, symbol);
                }
                symbols.set(i, symbol);
            },
            None => {
                proof {
                    lemma_keyed_push(before, symbol_key(), symbol);
                }
                symbols.push(symbol);
            },
        }
        self.symbols = symbols;
    }

    /// Records `signature` under the name `agent_id`, replacing any signature
    /// already recorded under that name.
    pub fn insert_signature(&mut self, agent_id: &str, signature: AgentSignature)
        ensures
            replaced_or_appended(
                old(self).agent_seq(),
                final(self).agent_seq(),
                entry_key(),
                agent_id@,
            ),
            final(self).agent_seq()[slot_for(old(self).agent_seq(), entry_key(), agent_id@)].signature
                == signature,
            final(self).agent_map() == old(self).agent_map().insert(
                agent_id@,
                final(self).agent_seq()[slot_for(old(self).agent_seq(), entry_key(), agent_id@)],
            ),
            final(self).symbol_seq() == old(self).symbol_seq(),
    {
        proof {
            use_type_invariant(&*self);
        }
        let ghost before = self.agents@;
        let key = agent_id.to_owned();
        let mut agents: Vec<AgentEntry> = Vec::new();
        std::mem::swap(&mut agents, &mut self.agents);
        let entry = AgentEntry { agent_id: key.clone(), signature };
        match agent_position(&agents, &key) {
            Some(i) => {
                proof {
                    lemma_keyed_at(before, entry_key(), i as int);
                    lemma_keyed_update(before, entry_key(), i as int, entry);
                }
                agents.set(i, entry);
            },
            None => {
                proof {
                    lemma_keyed_push(before, entry_key(), entry);
                }
                agents.push(entry);
            },
        }
        self.agents = agents;
    }

    /// Registers an agent: its signature is projected onto a symbol, which
    /// is registered under the signature's own agent identifier, and the
    /// signature is recorded under the name `agent_id`.
    pub fn register_agent(&mut self, agent_id: &str, signature: AgentSignature, reading: &TraitReading)
        ensures
            final(self).symbol_map() == old(self).symbol_map().insert(
                signature.agent_id@,
                final(self).symbol_map()[signature.agent_id@],
            ),
            is_adinkra_of(final(self).symbol_map()[signature.agent_id@], signature, *reading),
            replaced_or_appended(
                old(self).symbol_seq(),
                final(self).symbol_seq(),
                symbol_key(),
                signature.agent_id@,
            ),
            is_adinkra_of(
                final(self).symbol_seq()[slot_for(
                    old(self).symbol_seq(),
                    symbol_key(),
                    signature.agent_id@,
                )],
                signature,
                *reading,
            ),
            replaced_or_appended(
                old(self).agent_seq(),
                final(self).agent_seq(),
                entry_key(),
                agent_id@,
            ),
            final(self).agent_seq()[slot_for(old(self).agent_seq(), entry_key(), agent_id@)].signature
                == signature,
            final(self).agent_map() == old(self).agent_map().insert(
                agent_id@,
                final(self).agent_seq()[slot_for(old(self).agent_seq(), entry_key(), agent_id@)],
            ),
    {
        let adinkra = signature.to_adinkra(reading);
        let ghost projected = adinkra;
        self.register_symbol(adinkra);
        assert(self.symbol_map()[signature.agent_id@] == projected);
        self.insert_signature(agent_id, signature);
    }

    /// The symbol registered under the identifier `agent_id`, if any.
    pub fn agent_symbol(&self, agent_id: &str) -> (r: Option<&AdinkraSymbol>)
        ensures
            r is Some <==> self.symbol_map().dom().contains(agent_id@),
            r matches Some(s) ==> *s == self.symbol_map()[agent_id@],
    {
        proof {
            use_type_invariant(self);
        }
        let key = agent_id.to_owned();
        match symbol_position(&self.symbols, &key) {
            Some(i) => {
                proof {
                    lemma_keyed_at(self.symbols@, symbol_key(), i as int);
                }
                Some(&self.symbols[i])
            },
            None => None,
        }
    }

    /// The signature recorded under the name `agent_id`, if any.
    pub fn signature_of(&self, agent_id: &str) -> (r: Option<&AgentSignature>)
        ensures
            r is Some <==> self.agent_map().dom().contains(agent_id@),
            r matches Some(s) ==> *s == self.agent_map()[agent_id@].signature,
    {
        proof {
            use_type_invariant(self);
        }
        let key = agent_id.to_owned();
        match agent_position(&self.agents, &key) {
            Some(i) => {
                proof {
                    lemma_keyed_at(self.agents@, entry_key(), i as int);
                }
                Some(&self.agents[i].signature)
            },
            None => None,
        }
    }

    /// The registered symbols, in registration order.
    pub fn symbols(&self) -> (r: &[AdinkraSymbol])
        ensures
            r@ == self.symbol_seq(),
            keys_distinct(self.symbol_seq(), symbol_key()),
    {
        proof {
            use_type_invariant(self);
        }
        self.symbols.as_slice()
    }

    /// The registered agents, in registration order.
    pub fn agents(&self) -> (r: &[AgentEntry])
        ensures
            r@ == self.agent_seq(),
            keys_distinct(self.agent_seq(), entry_key()),
    {
        proof {
            use_type_invariant(self);
        }
        self.agents.as_slice()
    }

    /// The number of registered symbols.
    pub fn symbol_count(&self) -> (r: usize)
        ensures
            r == self.symbol_seq().len(),
            r == self.symbol_map().dom().len(),
    {
        proof {
            use_type_invariant(self);
            lemma_keyed_len(self.symbols@, symbol_key());
        }
        self.symbols.len()
    }

    /// The number of registered agents.
    pub fn agent_count(&self) -> (r: usize)
        ensures
            r == self.agent_seq().len(),
            r == self.agent_map().dom().len(),
    {
        proof {
            use_type_invariant(self);
            lemma_keyed_len(self.agents@, entry_key());
        }
        self.agents.len()
    }

    /// The number of registered symbols that are balanced.
    pub fn balanced_count(&self) -> (r: usize)
        ensures
            r == balanced_upto(self.symbol_seq(), self.symbol_seq().len() as int),
            r == self.symbol_seq().filter(two_fold_or_reflecting()).len(),
            r <= self.symbol_seq().len(),
    {
        let mut count: usize = 0;
        let mut i: usize = 0;
        while i < self.symbols.len()
            invariant
                i <= self.symbols@.len(),
                count == balanced_upto(self.symbols@, i as int),
                count <= i,
            decreases self.symbols@.len() - i,
        {
            if self.symbols[i].is_balanced() {
                count = count + 1;
            }
            i = i + 1;
        }
        proof {
            lemma_balanced_upto_filter(self.symbols@, self.symbols@.len() as int);
            assert(self.symbols@.take(self.symbols@.len() as int) =~= self.symbols@);
        }
        count
    }

    /// The names of the agents other than `agent_id` whose flag in
    /// `similar` is set, in registration order; `similar[k]` says whether the
    /// `k`-th registered agent is similar to `agent_id`. An agent that is not
    /// registered has no similar agents.
    pub fn similar_agents(&self, agent_id: &str, similar: &Vec<bool>) -> (r: Vec<&str>)
        requires
            similar@.len() == self.agent_seq().len(),
        ensures
            !self.agent_map().dom().contains(agent_id@) ==> r@.len() == 0,
            self.agent_map().dom().contains(agent_id@) ==> {
                let expected = similar_upto(
                    self.agent_seq(),
                    similar@,
                    agent_id@,
                    self.agent_seq().len() as int,
                );
                &&& r@.len() == expected.len()
                &&& forall|k: int| 0 <= k < r@.len() ==> #[trigger] r@[k]@ == expected[k]
            },
            forall|k: int|
                0 <= k < r@.len() ==> #[trigger] r@[k]@ != agent_id@
                    && self.agent_map().dom().contains(r@[k]@),
            forall|k1: int, k2: int|
                0 <= k1 < k2 < r@.len() ==> #[trigger] r@[k1]@ != #[trigger] r@[k2]@,
            self.agent_map().dom().contains(agent_id@) ==> forall|i: int|
                0 <= i < self.agent_seq().len() && similar@[i] && self.agent_seq()[i].agent_id@
                    != agent_id@ ==> #[trigger] str_listed(r@, self.agent_seq()[i].agent_id@),
            forall|k: int|
                0 <= k < r@.len() ==> #[trigger] flagged_before(
                    self.agent_seq(),
                    similar@,
                    r@[k]@,
                    self.agent_seq().len() as int,
                ),
            forall|k1: int, k2: int|
                0 <= k1 < k2 < r@.len() ==> key_index(self.agent_seq(), entry_key(), #[trigger] r@[k1]@)
                    < key_index(self.agent_seq(), entry_key(), #[trigger] r@[k2]@),
    {
        let key = agent_id.to_owned();
        let mut found: Vec<&str> = Vec::new();
        if agent_position(&self.agents, &key).is_none() {
            return found;
        }
        let mut i: usize = 0;
        while i < self.agents.len()
            invariant
                i <= self.agents@.len(),
                similar@.len() == self.agents@.len(),
                key@ == agent_id@,
                found@.len() == similar_upto(self.agents@, similar@, agent_id@, i as int).len(),
                forall|k: int|
                    0 <= k < found@.len() ==> #[trigger] found@[k]@ == similar_upto(
                        self.agents@,
                        similar@,
                        agent_id@,
                        i as int,
                    )[k],
            decreases self.agents@.len() - i,
        {
            if !(self.agents[i].agent_id == key) && similar[i] {
                found.push(self.agents[i].agent_id.as_str());
            }
            i = i + 1;
        }
        proof {
            use_type_invariant(self);
            let agents = self.agents@;
            let n = agents.len() as int;
            lemma_similar_names(agents, similar@, agent_id@, n);
            lemma_similar_complete(agents, similar@, agent_id@, n);
            let expected = similar_upto(agents, similar@, agent_id@, n);
            assert forall|i: int|
                0 <= i < n && similar@[i] && agents[i].agent_id@ != agent_id@ implies #[trigger] str_listed(
                found@,
                agents[i].agent_id@,
            ) by {
                assert(expected.contains(agents[i].agent_id@));
                let k = choose|k: int| 0 <= k < expected.len() && expected[k] == agents[i].agent_id@;
                assert(found@[k]@ == agents[i].agent_id@);
            }
            assert forall|k: int| 0 <= k < found@.len() implies #[trigger] flagged_before(
                agents,
                similar@,
                found@[k]@,
                n,
            ) by {
                assert(flagged_before(agents, similar@, expected[k], n));
            }
            assert forall|k1: int, k2: int| 0 <= k1 < k2 < found@.len() implies key_index(
                agents,
                entry_key(),
                #[trigger] found@[k1]@,
            ) < key_index(agents, entry_key(), #[trigger] found@[k2]@) by {
                assert(key_index(agents, entry_key(), expected[k1]) < key_index(
                    agents,
                    entry_key(),
                    expected[k2],
                ));
            }
        }
        found
    }

    /// Groups the registered agents into clusters: `links[a][b]`, for
    /// `a < b`, says whether the `a`-th and `b`-th registered agents are
    /// similar, and the clusters are the connected components of that
    /// relation, as the names of their agents. The agents of a cluster come
    /// in registration order, and clusters in the order of their first
    /// agent.
    pub fn cluster_agents(&self, links: &Vec<Vec<bool>>) -> (r: Vec<Vec<String>>)
        requires
            square(links@),
            links@.len() == self.agent_seq().len(),
        ensures
            exists|groups: Seq<Vec<usize>>|
                #[trigger] is_component_partition(links@, groups) && r@.len() == groups.len() && (
                forall|c: int| 0 <= c < r@.len() ==> #[trigger] r@[c]@.len() == groups[c]@.len())
                    && (forall|c: int, k: int|
                    0 <= c < r@.len() && 0 <= k < r@[c]@.len() ==> #[trigger] r@[c]@[k]@
                        == self.agent_seq()[groups[c]@[k] as int].agent_id@),
            keys_distinct(self.agent_seq(), entry_key()),
            r@.len() == 0 <==> self.agent_seq().len() == 0,
            forall|c: int| 0 <= c < r@.len() ==> #[trigger] r@[c]@.len() > 0,
            forall|i: int|
                0 <= i < self.agent_seq().len() ==> #[trigger] name_listed(
                    r@,
                    self.agent_seq()[i].agent_id@,
                ),
            forall|c: int, k: int|
                0 <= c < r@.len() && 0 <= k < r@[c]@.len() ==> self.agent_map().dom().contains(
                    #[trigger] r@[c]@[k]@,
                ),
            forall|c1: int, k1: int, c2: int, k2: int|
                0 <= c1 < r@.len() && 0 <= k1 < r@[c1]@.len() && 0 <= c2 < r@.len() && 0 <= k2
                    < r@[c2]@.len() && #[trigger] r@[c1]@[k1]@ == #[trigger] r@[c2]@[k2]@ ==> c1
                    == c2 && k1 == k2,
            forall|c1: int, k1: int, c2: int, k2: int|
                0 <= c1 < r@.len() && 0 <= k1 < r@[c1]@.len() && 0 <= c2 < r@.len() && 0 <= k2
                    < r@[c2]@.len() ==> (c1 == c2 <==> reachable(
                    link_graph(links@),
                    links@.len() as int,
                    key_index(self.agent_seq(), entry_key(), #[trigger] r@[c1]@[k1]@),
                    key_index(self.agent_seq(), entry_key(), #[trigger] r@[c2]@[k2]@),
                )),
    {
        proof {
            use_type_invariant(self);
        }
        let groups = connected_components(links);
        let mut named: Vec<Vec<String>> = Vec::new();
        let mut c: usize = 0;
        while c < groups.len()
            invariant
                c <= groups@.len(),
                is_component_partition(links@, groups@),
                links@.len() == self.agents@.len(),
                named@.len() == c,
                forall|d: int| 0 <= d < c ==> #[trigger] named@[d]@.len() == groups@[d]@.len(),
                forall|d: int, k: int|
                    0 <= d < c && 0 <= k < named@[d]@.len() ==> #[trigger] named@[d]@[k]@
                        == self.agents@[groups@[d]@[k] as int].agent_id@,
            decreases groups@.len() - c,
        {
            let group = &groups[c];
            let mut names: Vec<String> = Vec::new();
            let mut k: usize = 0;
            while k < group.len()
                invariant
                    k <= group@.len(),
                    c < groups@.len(),
                    *group == groups@[c as int],
                    is_component_partition(links@, groups@),
                    links@.len() == self.agents@.len(),
                    names@.len() == k,
                    forall|m: int|
                        0 <= m < k ==> #[trigger] names@[m]@ == self.agents@[group@[m] as int].agent_id@,
                decreases group@.len() - k,
            {
                let member = group[k];
                assert(groups@[c as int]@[k as int] < links@.len());
                names.push(self.agents[member].agent_id.clone());
                k = k + 1;
            }
            named.push(names);
            proof {
                assert forall|d: int, m: int|
                    0 <= d < c + 1 && 0 <= m < named@[d]@.len() implies #[trigger] named@[d]@[m]@
                    == self.agents@[groups@[d]@[m] as int].agent_id@ by {
                    if d == c {
                        assert(named@[d] == names);
                    }
                }
            }
            c = c + 1;
        }
        proof {
            let g = groups@;
            let r = named@;
            let agents = self.agents@;
            let n = links@.len() as int;
            assert forall|c: int, k: int| 0 <= c < r.len() && 0 <= k < r[c]@.len() implies key_index(
                agents,
                entry_key(),
                #[trigger] r[c]@[k]@,
            ) == g[c]@[k] && self.agent_map().dom().contains(r[c]@[k]@) by {
                assert(g[c]@[k] < n);
                lemma_keyed_at(agents, entry_key(), g[c]@[k] as int);
            }
            assert forall|i: int| 0 <= i < agents.len() implies #[trigger] name_listed(
                r,
                agents[i].agent_id@,
            ) by {
                assert(listed(g, i));
                let (c, k) = choose|c: int, k: int|
                    0 <= c < g.len() && 0 <= k < g[c]@.len() && #[trigger] g[c]@[k] == i;
                assert(r[c]@[k]@ == agents[i].agent_id@);
            }
            assert forall|c1: int, k1: int, c2: int, k2: int|
                0 <= c1 < r.len() && 0 <= k1 < r[c1]@.len() && 0 <= c2 < r.len() && 0 <= k2
                    < r[c2]@.len() && #[trigger] r[c1]@[k1]@ == #[trigger] r[c2]@[k2]@ implies c1
                == c2 && k1 == k2 by {
                let a = g[c1]@[k1] as int;
                let b = g[c2]@[k2] as int;
                assert(a < n && b < n);
                if a != b {
                    assert(entry_key()(agents[a]) != entry_key()(agents[b]));
                }
                lemma_partition_disjoint_and_closed(links@, g, c1, k1, c2, k2);
                if k1 < k2 {
                    assert(g[c1]@[k1] < g[c1]@[k2]);
                } else if k2 < k1 {
                    assert(g[c1]@[k2] < g[c1]@[k1]);
                }
            }
            assert forall|c1: int, k1: int, c2: int, k2: int|
                0 <= c1 < r.len() && 0 <= k1 < r[c1]@.len() && 0 <= c2 < r.len() && 0 <= k2
                    < r[c2]@.len() implies (c1 == c2 <==> reachable(
                link_graph(links@),
                n,
                key_index(agents, entry_key(), #[trigger] r[c1]@[k1]@),
                key_index(agents, entry_key(), #[trigger] r[c2]@[k2]@),
            )) by {
                assert(key_index(agents, entry_key(), r[c1]@[k1]@) == g[c1]@[k1]);
                assert(key_index(agents, entry_key(), r[c2]@[k2]@) == g[c2]@[k2]);
                assert(reachable(
                    link_graph(links@),
                    n,
                    g[c1]@[k1] as int,
                    g[c2]@[k2] as int,
                ) <==> c1 == c2);
            }
            if n > 0 {
                assert(listed(g, 0));
            }
            if r.len() > 0 {
                assert(g[0]@.len() > 0);
                assert(g[0]@[0] < n);
            }
        }
        named
    }
}

impl Default for AdinkraRegistry {
    /// An empty registry.
    fn default() -> (r: Self)
        ensures
            r.symbol_seq().len() == 0,
            r.agent_seq().len() == 0,
            r.symbol_map() == Map::<Seq<char>, AdinkraSymbol>::empty(),
            r.agent_map() == Map::<Seq<char>, AgentEntry>::empty(),
    {
        AdinkraRegistry::new()
    }
}

impl Clone for AdinkraRegistry {
    /// An independent registry with the same symbols and agents, in the same
    /// order.
    fn clone(&self) -> (r: Self)
        ensures
            r.symbol_seq() == self.symbol_seq(),
            r.agent_seq() == self.agent_seq(),
    {
        proof {
            use_type_invariant(self);
        }
        let mut symbols: Vec<AdinkraSymbol> = Vec::new();
        let mut i: usize = 0;
        while i < self.symbols.len()
            invariant
                i <= self.symbols@.len(),
                symbols@ == self.symbols@.take(i as int),
            decreases self.symbols@.len() - i,
        {
            symbols.push(copy_symbol(&self.symbols[i]));
            i = i + 1;
            assert(symbols@ =~= self.symbols@.take(i as int));
        }
        let mut agents: Vec<AgentEntry> = Vec::new();
        let mut j: usize = 0;
        while j < self.agents.len()
            invariant
                j <= self.agents@.len(),
                agents@ == self.agents@.take(j as int),
            decreases self.agents@.len() - j,
        {
            agents.push(copy_entry(&self.agents[j]));
            j = j + 1;
            assert(agents@ =~= self.agents@.take(j as int));
        }
        assert(symbols@ =~= self.symbols@);
        assert(agents@ =~= self.agents@);
        AdinkraRegistry { symbols, agents }
    }
}

/// A copy of `s`, field by field.
fn copy_symbol(s: &AdinkraSymbol) -> (r: AdinkraSymbol)
    ensures
        r == *s,
{
    AdinkraSymbol {
        id: AdinkraId(s.id.0.clone()),
        name: s.name.clone(),
        meaning: SymbolMeaning {
            name: s.meaning.name.clone(),
            proverb: s.meaning.proverb.clone(),
            teaching: s.meaning.teaching.clone(),
            elements: s.meaning.elements,
        },
        symmetry_fold: s.symmetry_fold,
        has_reflection: s.has_reflection,
        complexity_bits: s.complexity_bits,
        geometry: s.geometry,
    }
}

/// A copy of `e`, field by field.
fn copy_entry(e: &AgentEntry) -> (r: AgentEntry)
    ensures
        r == *e,
{
    AgentEntry {
        agent_id: e.agent_id.clone(),
        signature: AgentSignature {
            agent_id: e.signature.agent_id.clone(),
            patience_bits: e.signature.patience_bits,
            precision_bits: e.signature.precision_bits,
            playfulness_bits: e.signature.playfulness_bits,
            conservation_affinity_bits: e.signature.conservation_affinity_bits,
            social_tendency_bits: e.signature.social_tendency_bits,
        },
    }
}

/// The position in `symbols` of the symbol with identifier `id`.
fn symbol_position(symbols: &Vec<AdinkraSymbol>, id: &String) -> (r: Option<usize>)
    ensures
        r is Some <==> has_key(symbols@, symbol_key(), id@),
        r matches Some(i) ==> i < symbols@.len() && symbols@[i as int].id@ == id@,
{
    let mut i: usize = 0;
    while i < symbols.len()
        invariant
            i <= symbols@.len(),
            forall|j: int| 0 <= j < i ==> #[trigger] symbols@[j].id@ != id@,
        decreases symbols@.len() - i,
    {
        if symbols[i].id.0 == *id {
            assert(symbol_key()(symbols@[i as int]) == id@);
            return Some(i);
        }
        i = i + 1;
    }
    proof {
        if has_key(symbols@, symbol_key(), id@) {
            let j = choose|j: int|
                0 <= j < symbols@.len() && #[trigger] symbol_key()(symbols@[j]) == id@;
            assert(symbols@[j].id@ == id@);
        }
    }
    None
}

/// The position in `agents` of the agent registered under `agent_id`.
fn agent_position(agents: &Vec<AgentEntry>, agent_id: &String) -> (r: Option<usize>)
    ensures
        r is Some <==> has_key(agents@, entry_key(), agent_id@),
        r matches Some(i) ==> i < agents@.len() && agents@[i as int].agent_id@ == agent_id@,
{
    let mut i: usize = 0;
    while i < agents.len()
        invariant
            i <= agents@.len(),
            forall|j: int| 0 <= j < i ==> #[trigger] agents@[j].agent_id@ != agent_id@,
        decreases agents@.len() - i,
    {
        if agents[i].agent_id == *agent_id {
            assert(entry_key()(agents@[i as int]) == agent_id@);
            return Some(i);
        }
        i = i + 1;
    }
    proof {
        if has_key(agents@, entry_key(), agent_id@) {
            let j = choose|j: int|
                0 <= j < agents@.len() && #[trigger] entry_key()(agents@[j]) == agent_id@;
            assert(agents@[j].agent_id@ == agent_id@);
        }
    }
    None
}

/// The names picked out of `agents` are never `me`, each is the name of one
/// of the first `upto` agents, and where names are distinct none is picked
/// twice.
proof fn lemma_similar_names(agents: Seq<AgentEntry>, similar: Seq<bool>, me: Seq<char>, upto: int)
    requires
        0 <= upto <= agents.len(),
    ensures
        forall|k: int|
            0 <= k < similar_upto(agents, similar, me, upto).len() ==> #[trigger] similar_upto(
                agents,
                similar,
                me,
                upto,
            )[k] != me && has_key(agents, entry_key(), similar_upto(agents, similar, me, upto)[k])
                && has_key(agents.take(upto), entry_key(), similar_upto(agents, similar, me, upto)[k]),
        keys_distinct(agents, entry_key()) ==> forall|k1: int, k2: int|
            0 <= k1 < k2 < similar_upto(agents, similar, me, upto).len() ==> #[trigger] similar_upto(
                agents,
                similar,
                me,
                upto,
            )[k1] != #[trigger] similar_upto(agents, similar, me, upto)[k2],
    decreases upto,
{
    if upto > 0 {
        lemma_similar_names(agents, similar, me, upto - 1);
        let prev = similar_upto(agents, similar, me, upto - 1);
        let cur = similar_upto(agents, similar, me, upto);
        let last = agents[upto - 1];
        assert(entry_key()(last) == last.agent_id@);
        assert(agents.take(upto)[upto - 1] == last);
        assert forall|k: int| 0 <= k < cur.len() implies #[trigger] cur[k] != me && has_key(
            agents,
            entry_key(),
            cur[k],
        ) && has_key(agents.take(upto), entry_key(), cur[k]) by {
            if k < prev.len() {
                assert(cur[k] == prev[k]);
                assert(has_key(agents.take(upto - 1), entry_key(), prev[k]));
                let i = choose|i: int|
                    0 <= i < agents.take(upto - 1).len() && #[trigger] entry_key()(
                        agents.take(upto - 1)[i],
                    ) == prev[k];
                assert(agents.take(upto)[i] == agents.take(upto - 1)[i]);
            }
        }
        if keys_distinct(agents, entry_key()) {
            assert forall|k1: int, k2: int| 0 <= k1 < k2 < cur.len() implies #[trigger] cur[k1]
                != #[trigger] cur[k2] by {
                assert(cur[k1] == prev[k1]);
                if k2 < prev.len() {
                    assert(cur[k2] == prev[k2]);
                } else {
                    assert(cur[k2] == last.agent_id@);
                    assert(has_key(agents.take(upto - 1), entry_key(), prev[k1]));
                    let i = choose|i: int|
                        0 <= i < agents.take(upto - 1).len() && #[trigger] entry_key()(
                            agents.take(upto - 1)[i],
                        ) == prev[k1];
                    assert(agents.take(upto - 1)[i] == agents[i]);
                    assert(entry_key()(agents[i]) != entry_key()(agents[upto - 1]));
                }
            }
        }
    }
}

/// Every agent among the first `upto` whose flag is set and whose name is
/// not `me` is picked; every picked name is the name of such an agent; and,
/// where names are distinct, names are picked in registration order.
pub proof fn lemma_similar_complete(
    agents: Seq<AgentEntry>,
    similar: Seq<bool>,
    me: Seq<char>,
    upto: int,
)
    requires
        0 <= upto <= agents.len(),
    ensures
        forall|i: int|
            0 <= i < upto && similar[i] && agents[i].agent_id@ != me ==> #[trigger] similar_upto(
                agents,
                similar,
                me,
                upto,
            ).contains(agents[i].agent_id@),
        forall|k: int|
            0 <= k < similar_upto(agents, similar, me, upto).len() ==> #[trigger] flagged_before(
                agents,
                similar,
                similar_upto(agents, similar, me, upto)[k],
                upto,
            ),
        keys_distinct(agents, entry_key()) ==> forall|k1: int, k2: int|
            0 <= k1 < k2 < similar_upto(agents, similar, me, upto).len() ==> key_index(
                agents,
                entry_key(),
                #[trigger] similar_upto(agents, similar, me, upto)[k1],
            ) < key_index(agents, entry_key(), #[trigger] similar_upto(agents, similar, me, upto)[k2]),
    decreases upto,
{
    if upto > 0 {
        lemma_similar_complete(agents, similar, me, upto - 1);
        let prev = similar_upto(agents, similar, me, upto - 1);
        let cur = similar_upto(agents, similar, me, upto);
        let last = agents[upto - 1];
        assert forall|i: int|
            0 <= i < upto && similar[i] && agents[i].agent_id@ != me implies #[trigger] cur.contains(
            agents[i].agent_id@,
        ) by {
            if i < upto - 1 {
                assert(prev.contains(agents[i].agent_id@));
                let k = choose|k: int| 0 <= k < prev.len() && prev[k] == agents[i].agent_id@;
                assert(cur[k] == prev[k]);
            } else {
                assert(cur[prev.len() as int] == last.agent_id@);
            }
        }
        assert forall|k: int| 0 <= k < cur.len() implies #[trigger] flagged_before(
            agents,
            similar,
            cur[k],
            upto,
        ) by {
            if k < prev.len() {
                assert(cur[k] == prev[k]);
                assert(flagged_before(agents, similar, prev[k], upto - 1));
                let i = choose|i: int|
                    0 <= i < upto - 1 && similar[i] && #[trigger] agents[i].agent_id@ == prev[k];
                assert(agents[i].agent_id@ == cur[k]);
            } else {
                assert(agents[upto - 1].agent_id@ == cur[k]);
            }
        }
        if keys_distinct(agents, entry_key()) {
            assert forall|k: int| 0 <= k < cur.len() implies key_index(
                agents,
                entry_key(),
                #[trigger] cur[k],
            ) < upto by {
                assert(flagged_before(agents, similar, cur[k], upto));
                let i = choose|i: int|
                    0 <= i < upto && similar[i] && #[trigger] agents[i].agent_id@ == cur[k];
                lemma_keyed_at(agents, entry_key(), i);
            }
            assert forall|k1: int, k2: int| 0 <= k1 < k2 < cur.len() implies key_index(
                agents,
                entry_key(),
                #[trigger] cur[k1],
            ) < key_index(agents, entry_key(), #[trigger] cur[k2]) by {
                assert(cur[k1] == prev[k1]);
                if k2 < prev.len() {
                    assert(cur[k2] == prev[k2]);
                } else {
                    assert(cur[k2] == last.agent_id@);
                    lemma_keyed_at(agents, entry_key(), upto - 1);
                    assert(flagged_before(agents, similar, prev[k1], upto - 1));
                    let i = choose|i: int|
                        0 <= i < upto - 1 && similar[i] && #[trigger] agents[i].agent_id@ == prev[k1];
                    lemma_keyed_at(agents, entry_key(), i);
                }
            }
        }
    }
}

/// Looking a symbol up after registering it gives it back, and every other
/// identifier looks up as before.
pub proof fn lemma_register_then_lookup(
    before: AdinkraRegistry,
    after: AdinkraRegistry,
    symbol: AdinkraSymbol,
    other: Seq<char>,
)
    requires
        after.symbol_map() == before.symbol_map().insert(symbol.id@, symbol),
    ensures
        after.symbol_map().dom().contains(symbol.id@),
        after.symbol_map()[symbol.id@] == symbol,
        other != symbol.id@ ==> (after.symbol_map().dom().contains(other)
            <==> before.symbol_map().dom().contains(other)),
        other != symbol.id@ && before.symbol_map().dom().contains(other) ==> after.symbol_map()[other]
            == before.symbol_map()[other],
{
}

/// After an agent is registered, its name looks up to its signature and its
/// signature's identifier to the symbol projected from it; every other name
/// and identifier looks up as before.
pub proof fn lemma_register_agent_then_lookup(
    before: AdinkraRegistry,
    after: AdinkraRegistry,
    agent_id: Seq<char>,
    signature: AgentSignature,
    reading: TraitReading,
    other: Seq<char>,
)
    requires
        after.symbol_map() == before.symbol_map().insert(
            signature.agent_id@,
            after.symbol_map()[signature.agent_id@],
        ),
        is_adinkra_of(after.symbol_map()[signature.agent_id@], signature, reading),
        after.agent_seq()[slot_for(before.agent_seq(), entry_key(), agent_id)].signature
            == signature,
        after.agent_map() == before.agent_map().insert(
            agent_id,
            after.agent_seq()[slot_for(before.agent_seq(), entry_key(), agent_id)],
        ),
    ensures
        after.symbol_map().dom().contains(signature.agent_id@),
        after.symbol_map()[signature.agent_id@].id@ == signature.agent_id@,
        is_adinkra_of(after.symbol_map()[signature.agent_id@], signature, reading),
        after.agent_map().dom().contains(agent_id),
        after.agent_map()[agent_id].signature == signature,
        other != signature.agent_id@ && before.symbol_map().dom().contains(other)
            ==> after.symbol_map().dom().contains(other) && after.symbol_map()[other]
            == before.symbol_map()[other],
        other != agent_id && before.agent_map().dom().contains(other)
            ==> after.agent_map().dom().contains(other) && after.agent_map()[other]
            == before.agent_map()[other],
{
}

} // verus!
