use crate::memory::SpikeMemory;
use crate::models::{NeuronState, NeuronType, Synapse, ZERO_BITS};
use vstd::prelude::*;
use vstd::relations::injective_on;
use vstd::set_lib::{lemma_int_range, lemma_map_size, lemma_subset_equality, set_int_range};

verus! {

/// Neuron `id` takes part in some synapse: it has an outgoing synapse, or a synapse leads to it.
pub open spec fn takes_part(adj: Seq<Vec<Synapse>>, id: u64) -> bool {
    ||| (id < adj.len() && adj[id as int]@.len() > 0)
    ||| exists|s: int, k: int|
        0 <= s < adj.len() && 0 <= k < adj[s]@.len() && #[trigger] adj[s]@[k].target_id == id
}

/// Neuron `i` is a hidden neuron that takes part in no synapse.
pub open spec fn is_silent_hidden(neurons: Seq<NeuronState>, adj: Seq<Vec<Synapse>>, i: int) -> bool {
    neurons[i].neuron_type == NeuronType::Hidden && !takes_part(adj, i as u64)
}

/// `n` frozen: zero potential, resting until the end of time.
pub open spec fn frozen(n: NeuronState) -> NeuronState {
    NeuronState { potential: ZERO_BITS, cooldown_until: u64::MAX, ..n }
}

/// Number of silent hidden neurons among the first `n`.
pub open spec fn silent_hidden_count(neurons: Seq<NeuronState>, adj: Seq<Vec<Synapse>>, n: int) -> nat
    decreases n,
{
    if n <= 0 {
        0
    } else {
        silent_hidden_count(neurons, adj, n - 1) + (if is_silent_hidden(neurons, adj, n - 1) {
            1nat
        } else {
            0nat
        })
    }
}

/// Freezes every hidden neuron that takes part in no synapse (zero potential, cooldown until
/// the end of time) and returns how many were frozen; every other neuron is left as it was.
pub fn freeze_silent_hidden_neurons(memory: &mut SpikeMemory) -> (count: usize)
    ensures
        final(memory).adj_list == old(memory).adj_list,
        final(memory).vocabulary == old(memory).vocabulary,
        final(memory).neurons@.len() == old(memory).neurons@.len(),
        old(memory).wf() ==> final(memory).wf(),
        forall|i: int|
            0 <= i < old(memory).neurons@.len() ==> #[trigger] final(memory).neurons@[i] == (if is_silent_hidden(
                old(memory).neurons@,
                old(memory).adj_list@,
                i,
            ) {
                frozen(old(memory).neurons@[i])
            } else {
                old(memory).neurons@[i]
            }),
        count == silent_hidden_count(
            old(memory).neurons@,
            old(memory).adj_list@,
            old(memory).neurons@.len() as int,
        ),
{
    let n = memory.neurons.len();
    let ghost adj = memory.adj_list@;
    let ghost neurons0 = memory.neurons@;
    // Which neurons take part in a synapse.
    let mut active: Vec<bool> = Vec::new();
    let mut j: usize = 0;
    while j < n
        invariant
            0 <= j <= n,
            active@.len() == j,
            forall|k: int| 0 <= k < j ==> !active@[k],
        decreases n - j,
    {
        active.push(false);
        j = j + 1;
    }
    let m = memory.adj_list.len();
    let mut s: usize = 0;
    while s < m
        invariant
            0 <= s <= m,
            m == adj.len(),
            n == neurons0.len(),
            memory.adj_list@ == adj,
            memory.neurons@ == neurons0,
            active@.len() == n,
            forall|id: int| 0 <= id < n && #[trigger] active@[id] ==> takes_part(adj, id as u64),
            forall|id: int| 0 <= id < n && id < s && adj[id]@.len() > 0 ==> #[trigger] active@[id],
            forall|s2: int, k: int|
                0 <= s2 < s && 0 <= k < adj[s2]@.len() && adj[s2]@[k].target_id < n
                    ==> active@[#[trigger] adj[s2]@[k].target_id as int],
        decreases m - s,
    {
        let links = &memory.adj_list[s];
        if links.len() > 0 && s < n {
            active.set(s, true);
        }
        let len = links.len();
        let mut k: usize = 0;
        while k < len
            invariant
                0 <= k <= len,
                0 <= s < m,
                m == adj.len(),
                n == neurons0.len(),
                len == adj[s as int]@.len(),
                links@ == adj[s as int]@,
                active@.len() == n,
                forall|id: int| 0 <= id < n && #[trigger] active@[id] ==> takes_part(adj, id as u64),
                forall|id: int| 0 <= id < n && id <= s && adj[id]@.len() > 0 ==> #[trigger] active@[id],
                forall|s2: int, k2: int|
                    0 <= s2 < s && 0 <= k2 < adj[s2]@.len() && adj[s2]@[k2].target_id < n
                        ==> active@[#[trigger] adj[s2]@[k2].target_id as int],
                forall|k2: int|
                    0 <= k2 < k && adj[s as int]@[k2].target_id < n
                        ==> active@[#[trigger] adj[s as int]@[k2].target_id as int],
            decreases len - k,
        {
            let t = links[k].target_id;
            if t < n as u64 {
                proof {
                    assert(adj[s as int]@[k as int].target_id == t);
                    assert(takes_part(adj, t));
                }
                active.set(t as usize, true);
            }
            k = k + 1;
        }
        s = s + 1;
    }
    // Freeze the silent hidden neurons.
    let mut count: usize = 0;
    let mut i: usize = 0;
    while i < n
        invariant
            0 <= i <= n,
            n == neurons0.len(),
            memory.adj_list@ == adj,
            memory.adj_list == old(memory).adj_list,
            memory.vocabulary == old(memory).vocabulary,
            neurons0 == old(memory).neurons@,
            adj == old(memory).adj_list@,
            memory.neurons@.len() == n,
            active@.len() == n,
            forall|id: int| 0 <= id < n ==> (#[trigger] active@[id] <==> takes_part(adj, id as u64)),
            forall|k: int| 0 <= k < i ==> #[trigger] memory.neurons@[k] == (if is_silent_hidden(
                neurons0,
                adj,
                k,
            ) {
                frozen(neurons0[k])
            } else {
                neurons0[k]
            }),
            forall|k: int| i <= k < n ==> #[trigger] memory.neurons@[k] == neurons0[k],
            count == silent_hidden_count(neurons0, adj, i as int),
            count <= i,
        decreases n - i,
    {
        if memory.neurons[i].neuron_type == NeuronType::Hidden && !active[i] {
            memory.neurons[i].potential = ZERO_BITS;
            memory.neurons[i].cooldown_until = u64::MAX;
            count = count + 1;
        }
        i = i + 1;
    }
    count
}

/// `b` is the bit pattern of a binary32 NaN.
pub open spec fn is_nan_bits(b: u32) -> bool {
    b % 0x8000_0000 > 0x7F80_0000
}

/// An unsigned key that orders binary32 bit patterns as their (non-NaN) values are ordered,
/// `-0.0` and `0.0` alike: negative values below zero, the most negative lowest.
pub open spec fn weight_order_key(b: u32) -> u32 {
    if b == 0x8000_0000 {
        0x8000_0000
    } else if b > 0x8000_0000 {
        (0xFFFF_FFFF - b) as u32
    } else {
        (b + 0x8000_0000) as u32
    }
}

/// The order key of `b` (see `weight_order_key`).
pub fn weight_key(b: u32) -> (k: u32)
    ensures
        k == weight_order_key(b),
{
    if b == 0x8000_0000 {
        0x8000_0000
    } else if b > 0x8000_0000 {
        0xFFFF_FFFF - b
    } else {
        b + 0x8000_0000
    }
}

/// In a stable sort by descending weight, `links[j]` comes before `links[i]`.
pub open spec fn sorts_before(links: Seq<Synapse>, j: int, i: int) -> bool {
    let kj = weight_order_key(links[j].weight);
    let ki = weight_order_key(links[i].weight);
    kj > ki || (kj == ki && j < i)
}

/// Number of positions below `upto` that sort before `i`.
pub open spec fn count_before(links: Seq<Synapse>, i: int, upto: int) -> nat
    decreases upto,
{
    if upto <= 0 {
        0
    } else {
        count_before(links, i, upto - 1) + (if sorts_before(links, upto - 1, i) {
            1nat
        } else {
            0nat
        })
    }
}

/// The position of `links[i]` after a stable sort by descending weight.
pub open spec fn fanout_rank(links: Seq<Synapse>, i: int) -> int {
    count_before(links, i, links.len() as int) as int
}

/// No weight of `links` is a NaN.
pub open spec fn no_nan_weight(links: Seq<Synapse>) -> bool {
    forall|i: int| 0 <= i < links.len() ==> !is_nan_bits(#[trigger] links[i].weight)
}

/// Positions that sort before `i` also sort before `j` when `i` sorts before `j`, which adds
/// `i` itself.
proof fn lemma_count_before_grows(links: Seq<Synapse>, i: int, j: int, upto: int)
    requires
        0 <= i < links.len(),
        0 <= j < links.len(),
        sorts_before(links, i, j),
        0 <= upto <= links.len(),
    ensures
        count_before(links, j, upto) >= count_before(links, i, upto) + (if i < upto {
            1int
        } else {
            0int
        }),
    decreases upto,
{
    if upto > 0 {
        lemma_count_before_grows(links, i, j, upto - 1);
    }
}

/// Nothing sorts before itself, so a rank stays below the number of positions counted.
proof fn lemma_count_before_bound(links: Seq<Synapse>, i: int, upto: int)
    requires
        0 <= i < links.len(),
        0 <= upto <= links.len(),
    ensures
        count_before(links, i, upto) <= upto - (if i < upto {
            1int
        } else {
            0int
        }),
    decreases upto,
{
    if upto > 0 {
        lemma_count_before_bound(links, i, upto - 1);
    }
}

/// Distinct positions have distinct ranks, each below the length.
pub proof fn lemma_fanout_rank_injective(links: Seq<Synapse>, i: int, j: int)
    requires
        0 <= i < links.len(),
        0 <= j < links.len(),
    ensures
        0 <= fanout_rank(links, i) < links.len(),
        i != j ==> fanout_rank(links, i) != fanout_rank(links, j),
{
    lemma_count_before_bound(links, i, links.len() as int);
    if i != j {
        if sorts_before(links, i, j) {
            lemma_count_before_grows(links, i, j, links.len() as int);
        } else {
            assert(sorts_before(links, j, i));
            lemma_count_before_grows(links, j, i, links.len() as int);
        }
    }
}

/// The sorted positions are a permutation: every position below the length is the rank of
/// exactly one synapse.
pub proof fn lemma_fanout_rank_onto(links: Seq<Synapse>, p: int)
    requires
        0 <= p < links.len(),
    ensures
        exists|i: int| 0 <= i < links.len() && fanout_rank(links, i) == p,
{
    let n = links.len() as int;
    let x = set_int_range(0, n);
    let f = |i: int| fanout_rank(links, i);
    let y = x.map(f);
    lemma_int_range(0, n);
    assert(injective_on(f, x)) by {
        assert forall|a: int, b: int| x.contains(a) && x.contains(b) && #[trigger] f(a) == #[trigger] f(b)
            implies a == b by {
            lemma_fanout_rank_injective(links, a, b);
        }
    }
    lemma_map_size(x, y, f);
    assert(y.subset_of(x)) by {
        assert forall|q: int| y.contains(q) implies x.contains(q) by {
            let i = choose|i: int| x.contains(i) && f(i) == q;
            lemma_fanout_rank_injective(links, i, i);
        }
    }
    lemma_subset_equality(y, x);
    assert(x.contains(p));
    assert(y.contains(p));
    let i = choose|i: int| x.contains(i) && f(i) == p;
    assert(0 <= i < n && fanout_rank(links, i) == p);
}

/// Cutting keeps the heaviest: a synapse kept (sorted position below `max_fanout`) weighs at
/// least as much as one dropped, and among equal weights the earlier one is kept.
pub proof fn law_fanout_keeps_heaviest(links: Seq<Synapse>, max_fanout: int, kept: int, dropped: int)
    requires
        0 <= kept < links.len(),
        0 <= dropped < links.len(),
        fanout_rank(links, kept) < max_fanout <= fanout_rank(links, dropped),
    ensures
        weight_order_key(links[kept].weight) >= weight_order_key(links[dropped].weight),
        weight_order_key(links[kept].weight) == weight_order_key(links[dropped].weight) ==> kept
            < dropped,
{
    if sorts_before(links, dropped, kept) {
        lemma_count_before_grows(links, dropped, kept, links.len() as int);
    }
}

/// Keeps a synapse list within `max_fanout` entries: when it is longer, it is ordered by
/// descending weight (stable: equal weights keep their order) and cut to the first
/// `max_fanout`; otherwise it is left as it is.
pub fn limit_fanout(links: &mut Vec<Synapse>, max_fanout: usize)
    requires
        no_nan_weight(old(links)@),
    ensures
        old(links)@.len() <= max_fanout ==> final(links)@ == old(links)@,
        old(links)@.len() > max_fanout ==> {
            &&& final(links)@.len() == max_fanout
            &&& forall|i: int|
                0 <= i < old(links)@.len() && fanout_rank(old(links)@, i) < max_fanout
                    ==> final(links)@[#[trigger] fanout_rank(old(links)@, i)] == old(links)@[i]
        },
{
    let n = links.len();
    if n <= max_fanout {
        return;
    }
    let ghost s = links@;
    // The sorted position of every synapse.
    let mut ranks: Vec<usize> = Vec::new();
    let mut i: usize = 0;
    while i < n
        invariant
            0 <= i <= n,
            n == s.len(),
            links@ == s,
            ranks@.len() == i,
            forall|k: int| 0 <= k < i ==> ranks@[k] == fanout_rank(s, k),
        decreases n - i,
    {
        let ki = weight_key(links[i].weight);
        let mut c: usize = 0;
        let mut j: usize = 0;
        while j < n
            invariant
                0 <= j <= n,
                0 <= i < n,
                n == s.len(),
                links@ == s,
                ki == weight_order_key(s[i as int].weight),
                c == count_before(s, i as int, j as int),
                c <= j,
            decreases n - j,
        {
            let kj = weight_key(links[j].weight);
            if kj > ki || (kj == ki && j < i) {
                c = c + 1;
            }
            j = j + 1;
        }
        ranks.push(c);
        i = i + 1;
    }
    // Place each kept synapse at its sorted position.
    let mut out: Vec<Synapse> = Vec::new();
    let mut p: usize = 0;
    while p < max_fanout
        invariant
            0 <= p <= max_fanout,
            max_fanout < n,
            n == s.len(),
            links@ == s,
            out@.len() == p,
        decreases max_fanout - p,
    {
        out.push(links[0]);
        p = p + 1;
    }
    let mut i: usize = 0;
    while i < n
        invariant
            0 <= i <= n,
            n == s.len(),
            links@ == s,
            ranks@.len() == n,
            forall|k: int| 0 <= k < n ==> ranks@[k] == fanout_rank(s, k),
            out@.len() == max_fanout,
            forall|k: int|
                0 <= k < i && fanout_rank(s, k) < max_fanout ==> out@[#[trigger] fanout_rank(s, k)]
                    == s[k],
        decreases n - i,
    {
        let r = ranks[i];
        if r < max_fanout {
            proof {
                assert forall|k: int| 0 <= k < i implies fanout_rank(s, k) != r by {
                    lemma_fanout_rank_injective(s, k, i as int);
                }
            }
            out.set(r, links[i]);
        }
        i = i + 1;
    }
    *links = out;
}

} // verus!
