use crate::models::{
    NeuronOrigin, NeuronState, NeuronType, Synapse, base_name, is_fresh, FULL_TAG_BITS, ZERO_BITS,
};
use crate::text::{decimal, push_char, push_chars, push_decimal};
use crate::kernel::evolution::{count_before, fanout_rank, sorts_before, weight_key, weight_order_key};
use vstd::hash_map::StringHashMap;
use vstd::prelude::*;

verus! {

/// `k` is the first position of `links` that leads to `target`.
pub open spec fn is_first_link(links: Seq<Synapse>, target: u64, k: int) -> bool {
    &&& 0 <= k < links.len()
    &&& links[k].target_id == target
    &&& forall|j: int| 0 <= j < k ==> links[j].target_id != target
}

/// Some synapse of `links` leads to `target`.
pub open spec fn has_link(links: Seq<Synapse>, target: u64) -> bool {
    exists|k: int| 0 <= k < links.len() && links[k].target_id == target
}

/// The first position of `links` that leads to `target` (meaningful when `has_link`).
pub open spec fn first_link(links: Seq<Synapse>, target: u64) -> int {
    choose|k: int| is_first_link(links, target, k)
}

/// A link to `target` has a first position.
pub proof fn lemma_first_link(links: Seq<Synapse>, target: u64)
    requires
        has_link(links, target),
    ensures
        is_first_link(links, target, first_link(links, target)),
    decreases links.len(),
{
    let front = links.drop_last();
    if has_link(front, target) {
        lemma_first_link(front, target);
        let f = first_link(front, target);
        assert(links[f] == front[f]);
        assert forall|j: int| 0 <= j < f implies links[j].target_id != target by {
            assert(links[j] == front[j]);
        }
        assert(is_first_link(links, target, f));
    } else {
        let k = choose|k: int| 0 <= k < links.len() && links[k].target_id == target;
        if k < links.len() - 1 {
            assert(front[k] == links[k]);
        }
        assert forall|j: int| 0 <= j < links.len() - 1 implies links[j].target_id != target by {
            assert(links[j] == front[j]);
        }
        assert(is_first_link(links, target, links.len() - 1));
    }
}

/// The first position of a link to `target` is the one `first_link` names.
pub proof fn lemma_first_link_unique(links: Seq<Synapse>, target: u64, k: int)
    requires
        is_first_link(links, target, k),
    ensures
        has_link(links, target),
        first_link(links, target) == k,
{
    assert(links[k].target_id == target);
    lemma_first_link(links, target);
    let f = first_link(links, target);
    if f < k {
        assert(links[f].target_id != target);
    }
    if k < f {
        assert(links[k].target_id != target);
    }
}

/// `links` after setting the weight of the link to `target` to `weight`: the first such link
/// gets the new weight; without one, a new link is laid at the end with a full activity tag,
/// last used at `tick`.
pub open spec fn set_link(links: Seq<Synapse>, target: u64, weight: u32, tick: u64) -> Seq<Synapse> {
    if has_link(links, target) {
        let k = first_link(links, target);
        links.update(k, Synapse { weight, ..links[k] })
    } else {
        links.push(
            Synapse {
                target_id: target,
                weight,
                tag_trace: FULL_TAG_BITS,
                last_used_tick: tick,
                cooldown_until: 0,
            },
        )
    }
}

/// The weight bits of the synapse `source -> target`, or the bits of `0.0` when there is none.
pub open spec fn link_weight(adj: Seq<Vec<Synapse>>, source: u64, target: u64) -> u32 {
    if source < adj.len() {
        weight_in(adj[source as int]@, target)
    } else {
        ZERO_BITS
    }
}

/// The weight bits of the (first) link of `links` to `target`, or the bits of `0.0`.
pub open spec fn weight_in(links: Seq<Synapse>, target: u64) -> u32 {
    if has_link(links, target) {
        links[first_link(links, target)].weight
    } else {
        ZERO_BITS
    }
}

/// Setting a weight is seen by the next read of that synapse, and by no other: the weight of
/// the link to `target` becomes `weight`, and the weight to every other target is unchanged.
pub proof fn law_set_then_get(links: Seq<Synapse>, target: u64, weight: u32, tick: u64, other: u64)
    ensures
        weight_in(set_link(links, target, weight, tick), target) == weight,
        other != target ==> weight_in(set_link(links, target, weight, tick), other) == weight_in(
            links,
            other,
        ),
{
    let after = set_link(links, target, weight, tick);
    if has_link(links, target) {
        lemma_first_link(links, target);
        let k = first_link(links, target);
        assert(is_first_link(after, target, k)) by {
            assert forall|j: int| 0 <= j < k implies after[j].target_id != target by {
                assert(after[j] == links[j]);
            }
        }
        lemma_first_link_unique(after, target, k);
    } else {
        let k = links.len() as int;
        assert(is_first_link(after, target, k)) by {
            assert forall|j: int| 0 <= j < k implies after[j].target_id != target by {
                assert(after[j] == links[j]);
            }
        }
        lemma_first_link_unique(after, target, k);
    }
    if other != target {
        assert forall|j: int| 0 <= j < links.len() implies #[trigger] after[j].target_id
            == links[j].target_id by {}
        if has_link(links, other) {
            lemma_first_link(links, other);
            let f = first_link(links, other);
            assert(is_first_link(after, other, f)) by {
                assert forall|j: int| 0 <= j < f implies after[j].target_id != other by {
                    assert(after[j].target_id == links[j].target_id);
                }
                assert(after[f].target_id == links[f].target_id);
            }
            lemma_first_link_unique(after, other, f);
            if has_link(links, target) {
                assert(f != first_link(links, target));
            }
            assert(after[f].weight == links[f].weight);
        } else {
            assert(!has_link(after, other)) by {
                if has_link(after, other) {
                    let j = choose|j: int| 0 <= j < after.len() && after[j].target_id == other;
                    if j < links.len() {
                        assert(after[j].target_id == links[j].target_id);
                    }
                }
            }
        }
    }
}

/// The characters of `"unknown_id_"`.
pub open spec fn unknown_prefix() -> Seq<char> {
    seq!['u', 'n', 'k', 'n', 'o', 'w', 'n', '_', 'i', 'd', '_']
}

/// Expanding neuron `id` through the chunk origins ends within `fuel` levels.
pub open spec fn unfolds_within(neurons: Seq<NeuronState>, id: u64, fuel: nat) -> bool
    decreases fuel,
{
    if fuel == 0 {
        false
    } else if id >= neurons.len() {
        true
    } else {
        match neurons[id as int].origin {
            NeuronOrigin::BaseToken(_) => true,
            NeuronOrigin::ChunkSequence(a, b) => unfolds_within(neurons, a, (fuel - 1) as nat)
                && unfolds_within(neurons, b, (fuel - 1) as nat),
        }
    }
}

/// Expanding neuron `id` through the chunk origins ends.
pub open spec fn unfolds(neurons: Seq<NeuronState>, id: u64) -> bool {
    exists|fuel: nat| unfolds_within(neurons, id, fuel)
}

/// A number of levels within which the expansion of `id` ends (when it `unfolds`).
pub open spec fn unfold_fuel(neurons: Seq<NeuronState>, id: u64) -> nat {
    choose|fuel: nat| unfolds_within(neurons, id, fuel)
}

/// The text of neuron `id`: a token's name; for a chunk, the texts of its two parts joined by
/// a space; for an id without a neuron, `unknown_id_` and the id in decimal.
pub open spec fn spelling_within(neurons: Seq<NeuronState>, id: u64, fuel: nat) -> Seq<char>
    decreases fuel,
{
    if fuel == 0 {
        Seq::empty()
    } else if id >= neurons.len() {
        unknown_prefix() + decimal(id as nat)
    } else {
        match neurons[id as int].origin {
            NeuronOrigin::BaseToken(name) => name@,
            NeuronOrigin::ChunkSequence(a, b) => spelling_within(neurons, a, (fuel - 1) as nat)
                + seq![' '] + spelling_within(neurons, b, (fuel - 1) as nat),
        }
    }
}

/// The text of neuron `id` (see `spelling_within`).
pub open spec fn spelling(neurons: Seq<NeuronState>, id: u64) -> Seq<char> {
    spelling_within(neurons, id, unfold_fuel(neurons, id))
}

/// The last token of neuron `id`: following the second part of chunks down to a token (or to
/// an id without a neuron).
pub open spec fn terminal_within(neurons: Seq<NeuronState>, id: u64, fuel: nat) -> u64
    decreases fuel,
{
    if fuel == 0 || id >= neurons.len() {
        id
    } else {
        match neurons[id as int].origin {
            NeuronOrigin::BaseToken(_) => id,
            NeuronOrigin::ChunkSequence(_, b) => terminal_within(neurons, b, (fuel - 1) as nat),
        }
    }
}

/// The last token of neuron `id` (see `terminal_within`).
pub open spec fn terminal(neurons: Seq<NeuronState>, id: u64) -> u64 {
    terminal_within(neurons, id, unfold_fuel(neurons, id))
}

/// Neuron `id`, or a neuron of its expansion, is one of `ids`.
pub open spec fn mentions_within(neurons: Seq<NeuronState>, id: u64, ids: Seq<u64>, fuel: nat) -> bool
    decreases fuel,
{
    if fuel == 0 {
        false
    } else if ids.contains(id) {
        true
    } else if id >= neurons.len() {
        false
    } else {
        match neurons[id as int].origin {
            NeuronOrigin::BaseToken(_) => false,
            NeuronOrigin::ChunkSequence(a, b) => mentions_within(neurons, a, ids, (fuel - 1) as nat)
                || mentions_within(neurons, b, ids, (fuel - 1) as nat),
        }
    }
}

/// Neuron `id`, or a neuron of its expansion, is one of `ids` (see `mentions_within`).
pub open spec fn mentions(neurons: Seq<NeuronState>, id: u64, ids: Seq<u64>) -> bool {
    mentions_within(neurons, id, ids, unfold_fuel(neurons, id))
}

/// More levels of expansion never hurt.
pub proof fn lemma_unfolds_mono(neurons: Seq<NeuronState>, id: u64, f: nat, g: nat)
    requires
        unfolds_within(neurons, id, f),
        f <= g,
    ensures
        unfolds_within(neurons, id, g),
    decreases f,
{
    if id < neurons.len() {
        match neurons[id as int].origin {
            NeuronOrigin::BaseToken(_) => {},
            NeuronOrigin::ChunkSequence(a, b) => {
                lemma_unfolds_mono(neurons, a, (f - 1) as nat, (g - 1) as nat);
                lemma_unfolds_mono(neurons, b, (f - 1) as nat, (g - 1) as nat);
            },
        }
    }
}

/// The expansion of a chunk ends exactly when the expansions of both its parts end.
pub proof fn lemma_unfolds_chunk(neurons: Seq<NeuronState>, id: u64, a: u64, b: u64)
    requires
        id < neurons.len(),
        neurons[id as int].origin == NeuronOrigin::ChunkSequence(a, b),
    ensures
        unfolds(neurons, id) == (unfolds(neurons, a) && unfolds(neurons, b)),
{
    if unfolds(neurons, a) && unfolds(neurons, b) {
        let fa = unfold_fuel(neurons, a);
        let fb = unfold_fuel(neurons, b);
        let f = if fa < fb { fb } else { fa };
        lemma_unfolds_mono(neurons, a, fa, f);
        lemma_unfolds_mono(neurons, b, fb, f);
        assert(unfolds_within(neurons, id, f + 1));
    }
    if unfolds(neurons, id) {
        let f = unfold_fuel(neurons, id);
        assert(unfolds_within(neurons, a, (f - 1) as nat));
        assert(unfolds_within(neurons, b, (f - 1) as nat));
    }
}

/// Any sufficient depth of expansion gives the same text, last token and answer to "is one of
/// these ids inside".
pub proof fn lemma_expansion_fuel_independent(
    neurons: Seq<NeuronState>,
    id: u64,
    ids: Seq<u64>,
    f: nat,
    g: nat,
)
    requires
        unfolds_within(neurons, id, f),
        unfolds_within(neurons, id, g),
    ensures
        spelling_within(neurons, id, f) == spelling_within(neurons, id, g),
        terminal_within(neurons, id, f) == terminal_within(neurons, id, g),
        mentions_within(neurons, id, ids, f) == mentions_within(neurons, id, ids, g),
    decreases f,
{
    if id < neurons.len() {
        match neurons[id as int].origin {
            NeuronOrigin::BaseToken(_) => {},
            NeuronOrigin::ChunkSequence(a, b) => {
                lemma_expansion_fuel_independent(neurons, a, ids, (f - 1) as nat, (g - 1) as nat);
                lemma_expansion_fuel_independent(neurons, b, ids, (f - 1) as nat, (g - 1) as nat);
            },
        }
    }
}

/// The expansion of a chunk is the expansion of its parts: its text is the texts of its two
/// parts joined by a space, its last token is that of its second part, and it holds one of
/// `ids` when it is one, or either part holds one.
pub proof fn law_chunk_expansion(neurons: Seq<NeuronState>, id: u64, ids: Seq<u64>)
    requires
        id < neurons.len(),
        neurons[id as int].origin is ChunkSequence,
        unfolds(neurons, id),
    ensures
        ({
            let a = neurons[id as int].origin->ChunkSequence_0;
            let b = neurons[id as int].origin->ChunkSequence_1;
            &&& unfolds(neurons, a)
            &&& unfolds(neurons, b)
            &&& spelling(neurons, id) == spelling(neurons, a) + seq![' '] + spelling(neurons, b)
            &&& terminal(neurons, id) == terminal(neurons, b)
            &&& mentions(neurons, id, ids) == (ids.contains(id) || mentions(neurons, a, ids)
                || mentions(neurons, b, ids))
        }),
{
    let a = neurons[id as int].origin->ChunkSequence_0;
    let b = neurons[id as int].origin->ChunkSequence_1;
    lemma_unfolds_chunk(neurons, id, a, b);
    let f = unfold_fuel(neurons, id);
    assert(unfolds_within(neurons, a, (f - 1) as nat));
    assert(unfolds_within(neurons, b, (f - 1) as nat));
    lemma_expansion_fuel_independent(neurons, a, ids, (f - 1) as nat, unfold_fuel(neurons, a));
    lemma_expansion_fuel_independent(neurons, b, ids, (f - 1) as nat, unfold_fuel(neurons, b));
}

/// A vocabulary entry spells back its token: the neuron registered for `token` expands, and
/// its text is the token itself.
pub proof fn law_token_spells_itself(m: SpikeMemory, token: Seq<char>)
    requires
        m.wf(),
        m.vocabulary@.contains_key(token),
    ensures
        unfolds(m.neurons@, m.vocabulary@[token]),
        spelling(m.neurons@, m.vocabulary@[token]) == token,
{
    let id = m.vocabulary@[token];
    assert(unfolds_within(m.neurons@, id, 1));
    let f = unfold_fuel(m.neurons@, id);
    assert(f > 0);
}

/// Number of `true` entries.
pub open spec fn count_true(s: Seq<bool>) -> nat
    decreases s.len(),
{
    if s.len() == 0 {
        0
    } else {
        count_true(s.drop_last()) + (if s.last() { 1nat } else { 0nat })
    }
}

/// Turning one `false` entry into `true` adds one to the count, which never exceeds the length.
pub proof fn lemma_count_true_set(s: Seq<bool>, i: int)
    requires
        0 <= i < s.len(),
        !s[i],
    ensures
        count_true(s.update(i, true)) == count_true(s) + 1,
        count_true(s.update(i, true)) <= s.len(),
    decreases s.len(),
{
    lemma_count_true_le(s.update(i, true));
    if i == s.len() - 1 {
        assert(s.update(i, true).drop_last() =~= s.drop_last());
    } else {
        assert(s.update(i, true).drop_last() =~= s.drop_last().update(i, true));
        lemma_count_true_set(s.drop_last(), i);
    }
}

/// The count never exceeds the length.
pub proof fn lemma_count_true_le(s: Seq<bool>)
    ensures
        count_true(s) <= s.len(),
    decreases s.len(),
{
    if s.len() > 0 {
        lemma_count_true_le(s.drop_last());
    }
}

/// The neuron memory: neurons, their outgoing synapses, and the token vocabulary.
pub struct SpikeMemory {
    pub neurons: Vec<NeuronState>,
    pub adj_list: Vec<Vec<Synapse>>,
    pub vocabulary: StringHashMap<u64>,
}

impl SpikeMemory {
    /// Every neuron has its synapse list, and every vocabulary entry names the token neuron
    /// grown for it.
    pub open spec fn wf(&self) -> bool {
        &&& self.neurons@.len() == self.adj_list@.len()
        &&& forall|k: Seq<char>| #[trigger] self.vocabulary@.contains_key(k) ==> {
            &&& self.vocabulary@[k] < self.neurons@.len()
            &&& base_name(self.neurons@[self.vocabulary@[k] as int].origin) == Some(k)
        }
    }

    /// An empty memory.
    pub fn new() -> (m: Self)
        ensures
            m.wf(),
            m.neurons@.len() == 0,
            m.adj_list@.len() == 0,
            m.vocabulary@ == Map::<Seq<char>, u64>::empty(),
    {
        Self {
            neurons: Vec::with_capacity(10000),
            adj_list: Vec::with_capacity(10000),
            vocabulary: StringHashMap::with_capacity(5000),
        }
    }

    /// The id of the token neuron for `token`; grows a fresh sensor neuron (with no synapses)
    /// and enters it in the vocabulary when the token is new.
    pub fn get_or_create_token(&mut self, token: &str) -> (id: u64)
        ensures
            old(self).vocabulary@.contains_key(token@) ==> {
                &&& id == old(self).vocabulary@[token@]
                &&& final(self).neurons@ == old(self).neurons@
                &&& final(self).adj_list@ == old(self).adj_list@
                &&& final(self).vocabulary@ == old(self).vocabulary@
            },
            !old(self).vocabulary@.contains_key(token@) ==> {
                &&& id == old(self).neurons@.len()
                &&& final(self).neurons@.len() == old(self).neurons@.len() + 1
                &&& final(self).neurons@.take(old(self).neurons@.len() as int) == old(self).neurons@
                &&& is_fresh(final(self).neurons@[id as int], NeuronType::Sensor)
                &&& base_name(final(self).neurons@[id as int].origin) == Some(token@)
                &&& final(self).adj_list@.len() == old(self).adj_list@.len() + 1
                &&& final(self).adj_list@.take(old(self).adj_list@.len() as int)
                    == old(self).adj_list@
                &&& final(self).adj_list@.last()@.len() == 0
                &&& final(self).vocabulary@ == old(self).vocabulary@.insert(token@, id)
            },
            old(self).wf() ==> final(self).wf(),
    {
        match self.vocabulary.get(token) {
            Some(id) => {
                return *id;
            },
            None => {},
        }
        let id = self.neurons.len() as u64;
        let ghost old_neurons = self.neurons@;
        let ghost old_adj = self.adj_list@;
        self.neurons.push(
            NeuronState::new(NeuronType::Sensor, NeuronOrigin::BaseToken(token.to_owned())),
        );
        self.adj_list.push(Vec::new());
        self.vocabulary.insert(token.to_owned(), id);
        assert(self.neurons@.take(old_neurons.len() as int) =~= old_neurons);
        assert(self.adj_list@.take(old_adj.len() as int) =~= old_adj);
        proof {
            if old(self).wf() {
                assert forall|k: Seq<char>| #[trigger] self.vocabulary@.contains_key(k) implies {
                    &&& self.vocabulary@[k] < self.neurons@.len()
                    &&& base_name(self.neurons@[self.vocabulary@[k] as int].origin) == Some(k)
                } by {
                    if k != token@ {
                        assert(old(self).vocabulary@.contains_key(k));
                        assert(self.neurons@[self.vocabulary@[k] as int] == old_neurons[
                            self.vocabulary@[k] as int]);
                    }
                }
            }
        }
        id
    }

    /// Grows a hidden chunk neuron joining `source_id` and `target_id`, with no synapses, and
    /// returns its id.
    pub fn create_meta_chunk(&mut self, source_id: u64, target_id: u64) -> (id: u64)
        ensures
            id == old(self).neurons@.len(),
            final(self).neurons@.len() == old(self).neurons@.len() + 1,
            final(self).neurons@.take(old(self).neurons@.len() as int) == old(self).neurons@,
            is_fresh(final(self).neurons@[id as int], NeuronType::Hidden),
            final(self).neurons@[id as int].origin == NeuronOrigin::ChunkSequence(
                source_id,
                target_id,
            ),
            final(self).adj_list@.len() == old(self).adj_list@.len() + 1,
            final(self).adj_list@.take(old(self).adj_list@.len() as int) == old(self).adj_list@,
            final(self).adj_list@.last()@.len() == 0,
            final(self).vocabulary@ == old(self).vocabulary@,
            old(self).wf() ==> final(self).wf(),
    {
        let id = self.neurons.len() as u64;
        let ghost old_neurons = self.neurons@;
        self.neurons.push(
            NeuronState::new(NeuronType::Hidden, NeuronOrigin::ChunkSequence(source_id, target_id)),
        );
        let ghost old_adj = self.adj_list@;
        self.adj_list.push(Vec::new());
        assert(self.adj_list@.take(old_adj.len() as int) =~= old_adj);
        assert(self.neurons@.take(old_neurons.len() as int) =~= old_neurons);
        proof {
            if old(self).wf() {
                assert forall|k: Seq<char>| #[trigger] self.vocabulary@.contains_key(k) implies {
                    &&& self.vocabulary@[k] < self.neurons@.len()
                    &&& base_name(self.neurons@[self.vocabulary@[k] as int].origin) == Some(k)
                } by {
                    assert(self.neurons@[self.vocabulary@[k] as int] == old_neurons[
                        self.vocabulary@[k] as int]);
                }
            }
        }
        id
    }

    /// Sets the weight of the synapse `source_id -> target_id` (the first one, if several lead
    /// there); when there is none, lays a new one at the end of the source's list, with a full
    /// activity tag, last used at `current_tick`.
    pub fn set_synapse(&mut self, source_id: u64, target_id: u64, weight: u32, current_tick: u64)
        requires
            source_id < old(self).adj_list@.len(),
        ensures
            final(self).neurons@ == old(self).neurons@,
            final(self).vocabulary@ == old(self).vocabulary@,
            final(self).adj_list@.len() == old(self).adj_list@.len(),
            forall|i: int|
                0 <= i < old(self).adj_list@.len() && i != source_id ==> #[trigger] final(self).adj_list@[i]
                    == old(self).adj_list@[i],
            final(self).adj_list@[source_id as int]@ == set_link(
                old(self).adj_list@[source_id as int]@,
                target_id,
                weight,
                current_tick,
            ),
            old(self).wf() ==> final(self).wf(),
    {
        assert(source_id < self.adj_list.len());
        let idx = source_id as usize;
        let mut links: Vec<Synapse> = Vec::new();
        self.adj_list.set_and_swap(idx, &mut links);
        let ghost old_links = links@;
        let n = links.len();
        let mut k: usize = 0;
        let mut found = false;
        while k < n && !found
            invariant
                0 <= k <= n,
                n == links@.len(),
                links@ == old_links,
                found ==> k < n && old_links[k as int].target_id == target_id,
                forall|j: int| 0 <= j < k ==> old_links[j].target_id != target_id,
            decreases 2 * (n - k) + (if found { 0int } else { 1int }),
        {
            if links[k].target_id == target_id {
                found = true;
            } else {
                k = k + 1;
            }
        }
        if found {
            proof {
                assert(is_first_link(old_links, target_id, k as int));
                assert(has_link(old_links, target_id));
                lemma_first_link_unique(old_links, target_id, k as int);
            }
            let mut s = links[k];
            s.weight = weight;
            links.set(k, s);
        } else {
            assert(!has_link(old_links, target_id));
            links.push(
                Synapse {
                    target_id,
                    weight,
                    tag_trace: FULL_TAG_BITS,
                    last_used_tick: current_tick,
                    cooldown_until: 0,
                },
            );
        }
        let ghost done = links;
        self.adj_list.set_and_swap(idx, &mut links);
        assert(self.adj_list@ =~= old(self).adj_list@.update(idx as int, done));
    }

    /// The weight bits of the synapse `source_id -> target_id` (the first one, if several lead
    /// there), or the bits of `0.0` when there is no such synapse.
    pub fn get_synapse_weight(&self, source_id: u64, target_id: u64) -> (w: u32)
        ensures
            w == link_weight(self.adj_list@, source_id, target_id),
    {
        if source_id < self.adj_list.len() as u64 {
            let links = &self.adj_list[source_id as usize];
            let n = links.len();
            let mut k: usize = 0;
            while k < n
                invariant
                    0 <= k <= n,
                    n == links@.len(),
                    source_id < self.adj_list@.len(),
                    links@ == self.adj_list@[source_id as int]@,
                    forall|j: int| 0 <= j < k ==> links@[j].target_id != target_id,
                decreases n - k,
            {
                if links[k].target_id == target_id {
                    proof {
                        assert(is_first_link(links@, target_id, k as int));
                        lemma_first_link_unique(links@, target_id, k as int);
                    }
                    return links[k].weight;
                }
                k = k + 1;
            }
        }
        ZERO_BITS
    }

    /// The id of the token neuron for `token`, if the token is known.
    pub fn lookup_token_id(&self, token: &str) -> (id: Option<u64>)
        ensures
            id == (if self.vocabulary@.contains_key(token@) {
                Some(self.vocabulary@[token@])
            } else {
                None::<u64>
            }),
    {
        match self.vocabulary.get(token) {
            Some(id) => Some(*id),
            None => None,
        }
    }

    /// The text of neuron `id` at the given depth of expansion.
    fn spell(&self, id: u64, Ghost(fuel): Ghost<nat>) -> (s: String)
        requires
            unfolds_within(self.neurons@, id, fuel),
        ensures
            s@ == spelling_within(self.neurons@, id, fuel),
        decreases fuel,
    {
        if id < self.neurons.len() as u64 {
            match &self.neurons[id as usize].origin {
                NeuronOrigin::BaseToken(name) => name.clone(),
                NeuronOrigin::ChunkSequence(a, b) => {
                    let mut s = self.spell(*a, Ghost((fuel - 1) as nat));
                    push_char(&mut s, ' ');
                    let t = self.spell(*b, Ghost((fuel - 1) as nat));
                    push_chars(&mut s, t.as_str());
                    s
                },
            }
        } else {
            let mut s = String::new();
            push_chars(&mut s, "unknown_id_");
            proof {
                reveal_strlit("unknown_id_");
                assert(s@ =~= unknown_prefix());
            }
            push_decimal(&mut s, id);
            s
        }
    }

    /// The text of neuron `id`: a token's name; for a chunk, the texts of its parts joined by
    /// a space; for an id without a neuron, `unknown_id_` followed by the id.
    pub fn reverse_lookup_token(&self, target_id: u64) -> (s: String)
        requires
            unfolds(self.neurons@, target_id),
        ensures
            s@ == spelling(self.neurons@, target_id),
    {
        self.spell(target_id, Ghost(unfold_fuel(self.neurons@, target_id)))
    }

    /// The last token of neuron `id` at the given depth of expansion.
    fn terminal_of(&self, id: u64, Ghost(fuel): Ghost<nat>) -> (t: u64)
        requires
            unfolds_within(self.neurons@, id, fuel),
        ensures
            t == terminal_within(self.neurons@, id, fuel),
        decreases fuel,
    {
        if id < self.neurons.len() as u64 {
            match &self.neurons[id as usize].origin {
                NeuronOrigin::BaseToken(_) => id,
                NeuronOrigin::ChunkSequence(_, b) => self.terminal_of(*b, Ghost((fuel - 1) as nat)),
            }
        } else {
            id
        }
    }

    /// The last token of neuron `chunk_id`: the second part of a chunk, followed down to a
    /// token neuron (a token neuron, or an id without a neuron, is its own last token).
    pub fn get_chunk_terminal_token_id(&self, chunk_id: u64) -> (t: u64)
        requires
            unfolds(self.neurons@, chunk_id),
        ensures
            t == terminal(self.neurons@, chunk_id),
    {
        self.terminal_of(chunk_id, Ghost(unfold_fuel(self.neurons@, chunk_id)))
    }

    /// Whether neuron `id` or a neuron of its expansion is one of `ids`, at the given depth.
    fn mentions_of(&self, id: u64, ids: &[u64], Ghost(fuel): Ghost<nat>) -> (r: bool)
        requires
            unfolds_within(self.neurons@, id, fuel),
        ensures
            r == mentions_within(self.neurons@, id, ids@, fuel),
        decreases fuel,
    {
        if contains_id(ids, id) {
            true
        } else if id < self.neurons.len() as u64 {
            match &self.neurons[id as usize].origin {
                NeuronOrigin::BaseToken(_) => false,
                NeuronOrigin::ChunkSequence(a, b) => {
                    self.mentions_of(*a, ids, Ghost((fuel - 1) as nat)) || self.mentions_of(
                        *b,
                        ids,
                        Ghost((fuel - 1) as nat),
                    )
                },
            }
        } else {
            false
        }
    }

    /// Whether neuron `chunk_id`, or a neuron of its expansion, is one of `forbidden_ids`.
    pub fn is_chunk_containing_forbidden_ids(&self, chunk_id: u64, forbidden_ids: &[u64]) -> (r:
        bool)
        requires
            unfolds(self.neurons@, chunk_id),
        ensures
            r == mentions(self.neurons@, chunk_id, forbidden_ids@),
    {
        self.mentions_of(chunk_id, forbidden_ids, Ghost(unfold_fuel(self.neurons@, chunk_id)))
    }
}

/// Whether the expansion of every neuron id is known to end, by `table` (ids without a
/// neuron always end).
pub open spec fn known_to_end(table: Seq<bool>, id: u64) -> bool {
    id >= table.len() || table[id as int]
}

/// One round of the expansion-table computation could still mark neuron `i`.
pub open spec fn can_mark(neurons: Seq<NeuronState>, table: Seq<bool>, i: int) -> bool {
    match neurons[i].origin {
        NeuronOrigin::BaseToken(_) => true,
        NeuronOrigin::ChunkSequence(a, b) => known_to_end(table, a) && known_to_end(table, b),
    }
}

impl SpikeMemory {
    /// For each neuron, whether expanding it through the chunk origins ends (so that
    /// `reverse_lookup_token`, `get_chunk_terminal_token_id` and
    /// `is_chunk_containing_forbidden_ids` may be asked about it).
    pub fn expansion_table(&self) -> (table: Vec<bool>)
        ensures
            table@.len() == self.neurons@.len(),
            forall|i: int|
                0 <= i < table@.len() ==> #[trigger] table@[i] == unfolds(self.neurons@, i as u64),
    {
        let n = self.neurons.len();
        let mut table: Vec<bool> = Vec::new();
        let mut j: usize = 0;
        while j < n
            invariant
                0 <= j <= n,
                n == self.neurons@.len(),
                table@.len() == j,
                forall|i: int| 0 <= i < j ==> !table@[i],
            decreases n - j,
        {
            table.push(false);
            j = j + 1;
        }
        proof {
            lemma_count_true_le(table@);
            assert(count_true(table@) == 0) by {
                lemma_count_all_false(table@);
            }
        }
        let mut changed = true;
        while changed
            invariant
                n == self.neurons@.len(),
                table@.len() == n,
                forall|i: int| 0 <= i < n && #[trigger] table@[i] ==> unfolds(self.neurons@, i as u64),
                count_true(table@) <= n,
                !changed ==> forall|i: int| 0 <= i < n && !#[trigger] table@[i] ==> !can_mark(
                    self.neurons@,
                    table@,
                    i,
                ),
            decreases n - count_true(table@) + (if changed { 1int } else { 0int }),
        {
            changed = false;
            let ghost start_count = count_true(table@);
            let mut i: usize = 0;
            while i < n
                invariant
                    0 <= i <= n,
                    n == self.neurons@.len(),
                    table@.len() == n,
                    forall|k: int| 0 <= k < n && #[trigger] table@[k] ==> unfolds(self.neurons@, k as u64),
                    count_true(table@) <= n,
                    changed ==> count_true(table@) > start_count,
                    !changed ==> count_true(table@) == start_count,
                    !changed ==> forall|k: int| 0 <= k < i && !#[trigger] table@[k] ==> !can_mark(
                        self.neurons@,
                        table@,
                        k,
                    ),
                decreases n - i,
            {
                if !table[i] {
                    let mark = match &self.neurons[i].origin {
                        NeuronOrigin::BaseToken(_) => true,
                        NeuronOrigin::ChunkSequence(a, b) => {
                            (*a >= n as u64 || table[*a as usize]) && (*b >= n as u64
                                || table[*b as usize])
                        },
                    };
                    if mark {
                        proof {
                            let id = i as u64;
                            match self.neurons@[i as int].origin {
                                NeuronOrigin::BaseToken(_) => {
                                    assert(unfolds_within(self.neurons@, id, 1));
                                },
                                NeuronOrigin::ChunkSequence(a, b) => {
                                    if a >= n {
                                        assert(unfolds_within(self.neurons@, a, 1));
                                    }
                                    if b >= n {
                                        assert(unfolds_within(self.neurons@, b, 1));
                                    }
                                    lemma_unfolds_chunk(self.neurons@, id, a, b);
                                },
                            }
                            lemma_count_true_set(table@, i as int);
                        }
                        table.set(i, true);
                        changed = true;
                    }
                }
                i = i + 1;
            }
        }
        proof {
            assert forall|i: int| 0 <= i < n implies #[trigger] table@[i] == unfolds(
                self.neurons@,
                i as u64,
            ) by {
                if unfolds(self.neurons@, i as u64) {
                    let f = unfold_fuel(self.neurons@, i as u64);
                    lemma_table_complete(self.neurons@, table@, i as u64, f);
                }
            }
        }
        table
    }
}

/// At a fixpoint of the table computation, every neuron whose expansion ends within `fuel`
/// levels is marked.
pub proof fn lemma_table_complete(neurons: Seq<NeuronState>, table: Seq<bool>, id: u64, fuel: nat)
    requires
        table.len() == neurons.len(),
        forall|i: int| 0 <= i < neurons.len() && !#[trigger] table[i] ==> !can_mark(neurons, table, i),
        unfolds_within(neurons, id, fuel),
    ensures
        known_to_end(table, id),
    decreases fuel,
{
    if id < neurons.len() {
        match neurons[id as int].origin {
            NeuronOrigin::BaseToken(_) => {
                assert(can_mark(neurons, table, id as int));
            },
            NeuronOrigin::ChunkSequence(a, b) => {
                lemma_table_complete(neurons, table, a, (fuel - 1) as nat);
                lemma_table_complete(neurons, table, b, (fuel - 1) as nat);
                assert(can_mark(neurons, table, id as int));
            },
        }
    }
}

/// A sequence with no `true` entry counts zero.
pub proof fn lemma_count_all_false(s: Seq<bool>)
    requires
        forall|i: int| 0 <= i < s.len() ==> !s[i],
    ensures
        count_true(s) == 0,
    decreases s.len(),
{
    if s.len() > 0 {
        lemma_count_all_false(s.drop_last());
    }
}

/// The ids of the known tokens among `toks`, in order (unknown tokens are skipped).
pub open spec fn known_ids(vocab: Map<Seq<char>, u64>, toks: Seq<Seq<char>>) -> Seq<u64>
    decreases toks.len(),
{
    if toks.len() == 0 {
        Seq::empty()
    } else if vocab.contains_key(toks.last()) {
        known_ids(vocab, toks.drop_last()).push(vocab[toks.last()])
    } else {
        known_ids(vocab, toks.drop_last())
    }
}

/// Looking up a list of tokens keeps, in order, the id of every token the vocabulary knows,
/// whatever the token, and skips exactly the unknown ones.
pub proof fn law_known_ids(vocab: Map<Seq<char>, u64>, toks: Seq<Seq<char>>)
    ensures
        known_ids(vocab, toks) == toks.filter(|t: Seq<char>| vocab.contains_key(t)).map_values(
            |t: Seq<char>| vocab[t],
        ),
    decreases toks.len(),
{
    reveal_with_fuel(Seq::filter, 1);
    if toks.len() > 0 {
        law_known_ids(vocab, toks.drop_last());
        let f = toks.drop_last().filter(|t: Seq<char>| vocab.contains_key(t));
        if vocab.contains_key(toks.last()) {
            assert(f.push(toks.last()).map_values(|t: Seq<char>| vocab[t]) =~= f.map_values(
                |t: Seq<char>| vocab[t],
            ).push(vocab[toks.last()]));
        }
    }
}

/// `id` is the id of a token of `toks` that the vocabulary knows.
pub open spec fn is_known_id(vocab: Map<Seq<char>, u64>, toks: Seq<Seq<char>>, id: u64) -> bool {
    exists|k: int| 0 <= k < toks.len() && vocab.contains_key(toks[k]) && vocab[toks[k]] == id
}

/// The ids kept are exactly those of the known tokens: each known token of `toks` gives its id,
/// and each id kept is that of a known token of `toks`.
pub proof fn law_known_ids_members(vocab: Map<Seq<char>, u64>, toks: Seq<Seq<char>>)
    ensures
        forall|k: int|
            0 <= k < toks.len() && vocab.contains_key(#[trigger] toks[k]) ==> known_ids(vocab, toks).contains(
                vocab[toks[k]],
            ),
        forall|j: int|
            0 <= j < known_ids(vocab, toks).len() ==> is_known_id(vocab, toks, #[trigger] known_ids(vocab, toks)[j]),
    decreases toks.len(),
{
    if toks.len() > 0 {
        let front = toks.drop_last();
        law_known_ids_members(vocab, front);
        let f = known_ids(vocab, front);
        let r = known_ids(vocab, toks);
        let n = toks.len() - 1;
        assert forall|k: int| 0 <= k < toks.len() && vocab.contains_key(#[trigger] toks[k]) implies r.contains(
            vocab[toks[k]],
        ) by {
            if k < n {
                assert(front[k] == toks[k]);
                let q = choose|q: int| 0 <= q < f.len() && f[q] == vocab[front[k]];
                assert(r[q] == f[q]);
            } else {
                assert(r[r.len() - 1] == vocab[toks[k]]);
            }
        }
        assert forall|j: int| 0 <= j < r.len() implies is_known_id(vocab, toks, #[trigger] r[j]) by {
            if j < f.len() {
                assert(r[j] == f[j]);
                assert(is_known_id(vocab, front, f[j]));
                let k = choose|k: int| 0 <= k < front.len() && vocab.contains_key(front[k]) && vocab[front[k]] == f[j];
                assert(toks[k] == front[k]);
            } else {
                assert(r[j] == vocab[toks[n]]);
            }
        }
    }
}

/// Nothing among the first `upto` positions sorts before `i`: `i` is first in the sort.
proof fn lemma_nothing_before(links: Seq<Synapse>, i: int, upto: int)
    requires
        0 <= upto <= links.len(),
        forall|j: int| 0 <= j < upto ==> !sorts_before(links, j, i),
    ensures
        count_before(links, i, upto) == 0,
    decreases upto,
{
    if upto > 0 {
        lemma_nothing_before(links, i, upto - 1);
    }
}

impl SpikeMemory {
    /// The ids of the known tokens among `tokens`, in order; unknown tokens are skipped.
    pub fn lookup_token_ids(&self, tokens: &[String]) -> (ids: Vec<u64>)
        ensures
            ids@ == known_ids(self.vocabulary@, tokens@.map_values(|t: String| t@)),
            ids@ == tokens@.map_values(|t: String| t@).filter(
                |t: Seq<char>| self.vocabulary@.contains_key(t),
            ).map_values(|t: Seq<char>| self.vocabulary@[t]),
            forall|k: int|
                0 <= k < tokens@.len() && self.vocabulary@.contains_key(#[trigger] tokens@[k]@)
                    ==> ids@.contains(self.vocabulary@[tokens@[k]@]),
            forall|j: int|
                0 <= j < ids@.len() ==> is_known_id(
                    self.vocabulary@,
                    tokens@.map_values(|t: String| t@),
                    #[trigger] ids@[j],
                ),
    {
        let ghost toks = tokens@.map_values(|t: String| t@);
        let mut ids: Vec<u64> = Vec::new();
        let mut i: usize = 0;
        while i < tokens.len()
            invariant
                0 <= i <= tokens@.len(),
                toks == tokens@.map_values(|t: String| t@),
                ids@ == known_ids(self.vocabulary@, toks.take(i as int)),
            decreases tokens@.len() - i,
        {
            assert(toks.take(i + 1).drop_last() =~= toks.take(i as int));
            assert(toks.take(i + 1).last() == tokens@[i as int]@);
            match self.lookup_token_id(tokens[i].as_str()) {
                Some(id) => ids.push(id),
                None => {},
            }
            i = i + 1;
        }
        assert(toks.take(tokens@.len() as int) =~= toks);
        proof {
            law_known_ids(self.vocabulary@, toks);
            law_known_ids_members(self.vocabulary@, toks);
            assert forall|k: int| 0 <= k < tokens@.len() implies #[trigger] tokens@[k]@ == toks[k] by {}
        }
        ids
    }

    /// The synapse of `source_id` that a stable sort by descending weight puts first (the
    /// first of the heaviest), if the neuron has any synapse.
    pub fn strongest_synapse(&self, source_id: u64) -> (best: Option<Synapse>)
        ensures
            best is None <==> (source_id >= self.adj_list@.len()
                || self.adj_list@[source_id as int]@.len() == 0),
            best matches Some(syn) ==> exists|k: int|
                0 <= k < self.adj_list@[source_id as int]@.len() && fanout_rank(
                    self.adj_list@[source_id as int]@,
                    k,
                ) == 0 && self.adj_list@[source_id as int]@[k] == syn,
    {
        if source_id >= self.adj_list.len() as u64 {
            return None;
        }
        let links = &self.adj_list[source_id as usize];
        let n = links.len();
        if n == 0 {
            return None;
        }
        let mut best: usize = 0;
        let mut best_key = weight_key(links[0].weight);
        let mut j: usize = 1;
        while j < n
            invariant
                1 <= j <= n,
                n == links@.len(),
                0 <= best < j,
                best_key == weight_order_key(links@[best as int].weight),
                forall|m: int| 0 <= m < j ==> weight_order_key(links@[m].weight) <= best_key,
                forall|m: int| 0 <= m < best ==> weight_order_key(links@[m].weight) < best_key,
            decreases n - j,
        {
            let kj = weight_key(links[j].weight);
            if kj > best_key {
                best = j;
                best_key = kj;
            }
            j = j + 1;
        }
        proof {
            lemma_nothing_before(links@, best as int, n as int);
        }
        Some(links[best])
    }
}

impl SpikeMemory {
    /// Whether neuron `id` exists and is a sensor.
    pub fn is_sensor(&self, id: u64) -> (r: bool)
        ensures
            r == (id < self.neurons@.len() && self.neurons@[id as int].neuron_type
                == NeuronType::Sensor),
    {
        id < self.neurons.len() as u64 && self.neurons[id as usize].neuron_type == NeuronType::Sensor
    }
}

/// Whether `id` is one of `ids`.
pub fn contains_id(ids: &[u64], id: u64) -> (r: bool)
    ensures
        r == ids@.contains(id),
{
    let mut i: usize = 0;
    while i < ids.len()
        invariant
            0 <= i <= ids@.len(),
            forall|k: int| 0 <= k < i ==> ids@[k] != id,
        decreases ids@.len() - i,
    {
        if ids[i] == id {
            return true;
        }
        i = i + 1;
    }
    false
}

} // verus!
