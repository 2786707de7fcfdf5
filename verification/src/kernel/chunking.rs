use crate::memory::{SpikeMemory, set_link};
use crate::models::{NeuronOrigin, NeuronType, is_fresh};
use vstd::hash_map::HashMapWithView;
use vstd::prelude::*;

verus! {

broadcast use vstd::std_specs::hash::group_hash_axioms;

/// The map key of the ordered pair `(a, b)`.
pub open spec fn pair_key(a: u64, b: u64) -> u128 {
    (a as int * 0x1_0000_0000_0000_0000int + b as int) as u128
}

/// Distinct pairs have distinct keys.
pub proof fn lemma_pair_key_injective(a1: u64, b1: u64, a2: u64, b2: u64)
    requires
        pair_key(a1, b1) == pair_key(a2, b2),
    ensures
        a1 == a2 && b1 == b2,
{
    let m = 0x1_0000_0000_0000_0000int;
    assert(0 <= (a1 as int) * m + (b1 as int) && (a1 as int) * m + (b1 as int) < 0x1_0000_0000_0000_0000_0000_0000_0000_0000int) by (nonlinear_arith)
        requires m == 0x1_0000_0000_0000_0000int, 0 <= a1 < m, 0 <= b1 < m;
    assert(0 <= (a2 as int) * m + (b2 as int) && (a2 as int) * m + (b2 as int) < 0x1_0000_0000_0000_0000_0000_0000_0000_0000int) by (nonlinear_arith)
        requires m == 0x1_0000_0000_0000_0000int, 0 <= a2 < m, 0 <= b2 < m;
    assert((a1 as int) * m + (b1 as int) == (a2 as int) * m + (b2 as int));
    assert(a1 == a2 && b1 == b2) by (nonlinear_arith)
        requires
            m == 0x1_0000_0000_0000_0000int,
            0 <= b1 < m,
            0 <= b2 < m,
            0 <= a1,
            0 <= a2,
            (a1 as int) * m + (b1 as int) == (a2 as int) * m + (b2 as int);
}

/// How many times each ordered pair of neurons has fired in consecutive ticks.
pub struct CoincidenceTracker {
    counts: HashMapWithView<u128, u32>,
}

impl View for CoincidenceTracker {
    type V = Map<(u64, u64), u32>;

    closed spec fn view(&self) -> Map<(u64, u64), u32> {
        Map::new(
            |p: (u64, u64)| self.counts@.contains_key(pair_key(p.0, p.1)),
            |p: (u64, u64)| self.counts@[pair_key(p.0, p.1)],
        )
    }
}

/// The count recorded for `(a, b)`: zero when the pair was never seen.
pub open spec fn count_of(m: Map<(u64, u64), u32>, a: u64, b: u64) -> u32 {
    if m.contains_key((a, b)) {
        m[(a, b)]
    } else {
        0
    }
}

impl CoincidenceTracker {
    /// No pair seen yet.
    pub fn new() -> (t: Self)
        ensures
            t@ == Map::<(u64, u64), u32>::empty(),
    {
        let t = Self { counts: HashMapWithView::new() };
        assert(t@ =~= Map::<(u64, u64), u32>::empty());
        t
    }

    /// Forgets every pair.
    pub fn clear(&mut self)
        ensures
            final(self)@ == Map::<(u64, u64), u32>::empty(),
    {
        self.counts.clear();
        assert(self@ =~= Map::<(u64, u64), u32>::empty());
    }

    /// The count recorded for `(a, b)`.
    pub fn count(&self, a: u64, b: u64) -> (c: u32)
        ensures
            c == count_of(self@, a, b),
    {
        let key = (a as u128) * 0x1_0000_0000_0000_0000u128 + (b as u128);
        assert(key == pair_key(a, b)) by (nonlinear_arith)
            requires key == (a as u128) * 0x1_0000_0000_0000_0000u128 + (b as u128);
        match self.counts.get(&key) {
            Some(c) => *c,
            None => 0,
        }
    }

    /// Counts one more occurrence of `(a, b)` and returns the new count.
    pub fn record(&mut self, a: u64, b: u64) -> (c: u32)
        requires
            count_of(old(self)@, a, b) < u32::MAX,
        ensures
            c == count_of(old(self)@, a, b) + 1,
            final(self)@ == old(self)@.insert((a, b), c),
    {
        assert(((a as int) * 0x1_0000_0000_0000_0000int + (b as int)) < 0x1_0000_0000_0000_0000_0000_0000_0000_0000int) by (nonlinear_arith)
            requires 0 <= a < 0x1_0000_0000_0000_0000int, 0 <= b < 0x1_0000_0000_0000_0000int;
        let key = (a as u128) * 0x1_0000_0000_0000_0000u128 + (b as u128);
        assert(key == pair_key(a, b));
        let c = match self.counts.get(&key) {
            Some(c) => *c + 1,
            None => 1,
        };
        self.counts.insert(key, c);
        proof {
            assert forall|p: (u64, u64)| #![auto] self@.contains_key(p) == old(self)@.insert((a, b), c).contains_key(p)
                && (self@.contains_key(p) ==> self@[p] == old(self)@.insert((a, b), c)[p]) by {
                if p != (a, b) && pair_key(p.0, p.1) == key {
                    lemma_pair_key_injective(p.0, p.1, a, b);
                }
            }
            assert(self@ =~= old(self)@.insert((a, b), c));
        }
        c
    }
}

/// Neuron `id` exists and is a sensor.
pub open spec fn sensor_at(memory: SpikeMemory, id: u64) -> bool {
    id < memory.neurons@.len() && memory.neurons@[id as int].neuron_type == NeuronType::Sensor
}

/// What a pair of spikes in consecutive ticks teaches.
pub struct Coincidence {
    /// How often the pair has now been seen.
    pub count: u32,
    /// The pair has just been seen `threshold` times: it grows a chunk.
    pub grows_chunk: bool,
}

/// Notes that `old_id` fired in the tick before `new_id`.  Only two distinct sensor neurons
/// make a coincidence: their pair is counted once more, and grows a chunk when the count
/// reaches `threshold` exactly; any other pair is not counted (`None`).
pub fn note_coincidence(
    memory: &SpikeMemory,
    tracker: &mut CoincidenceTracker,
    old_id: u64,
    new_id: u64,
    threshold: u32,
) -> (r: Option<Coincidence>)
    requires
        old_id != new_id && sensor_at(*memory, old_id) && sensor_at(*memory, new_id) ==> count_of(
            old(tracker)@,
            old_id,
            new_id,
        ) < u32::MAX,
    ensures
        (old_id != new_id && sensor_at(*memory, old_id) && sensor_at(*memory, new_id)) ==> {
            &&& r matches Some(c)
            &&& c.count == count_of(old(tracker)@, old_id, new_id) + 1
            &&& c.grows_chunk == (c.count == threshold)
            &&& final(tracker)@ == old(tracker)@.insert((old_id, new_id), c.count)
        },
        !(old_id != new_id && sensor_at(*memory, old_id) && sensor_at(*memory, new_id)) ==> {
            &&& r is None
            &&& final(tracker)@ == old(tracker)@
        },
{
    if old_id != new_id && memory.is_sensor(old_id) && memory.is_sensor(new_id) {
        let count = tracker.record(old_id, new_id);
        Some(Coincidence { count, grows_chunk: count == threshold })
    } else {
        None
    }
}

/// Grows the chunk neuron of the pair `old_id -> new_id` (see `create_meta_chunk`) and links
/// both neurons of the pair to it with `weight` (see `set_synapse`); returns its id.
pub fn grow_chunk(memory: &mut SpikeMemory, old_id: u64, new_id: u64, weight: u32, current_tick: u64) -> (meta: u64)
    requires
        old_id < old(memory).adj_list@.len(),
        new_id < old(memory).adj_list@.len(),
    ensures
        meta == old(memory).neurons@.len(),
        final(memory).neurons@.len() == old(memory).neurons@.len() + 1,
        final(memory).neurons@.take(old(memory).neurons@.len() as int) == old(memory).neurons@,
        is_fresh(final(memory).neurons@[meta as int], NeuronType::Hidden),
        final(memory).neurons@[meta as int].origin == NeuronOrigin::ChunkSequence(old_id, new_id),
        final(memory).vocabulary@ == old(memory).vocabulary@,
        final(memory).adj_list@.len() == old(memory).adj_list@.len() + 1,
        final(memory).adj_list@.last()@.len() == 0,
        forall|i: int|
            0 <= i < old(memory).adj_list@.len() && i != old_id && i != new_id
                ==> #[trigger] final(memory).adj_list@[i] == old(memory).adj_list@[i],
        old_id != new_id ==> {
            &&& final(memory).adj_list@[old_id as int]@ == set_link(
                old(memory).adj_list@[old_id as int]@,
                meta,
                weight,
                current_tick,
            )
            &&& final(memory).adj_list@[new_id as int]@ == set_link(
                old(memory).adj_list@[new_id as int]@,
                meta,
                weight,
                current_tick,
            )
        },
        old_id == new_id ==> final(memory).adj_list@[old_id as int]@ == set_link(
            set_link(old(memory).adj_list@[old_id as int]@, meta, weight, current_tick),
            meta,
            weight,
            current_tick,
        ),
        old(memory).wf() ==> final(memory).wf(),
{
    let ghost adj0 = memory.adj_list@;
    let meta = memory.create_meta_chunk(old_id, new_id);
    assert(memory.adj_list@[old_id as int] == adj0[old_id as int]) by {
        assert(memory.adj_list@.take(adj0.len() as int)[old_id as int] == adj0[old_id as int]);
    }
    assert(memory.adj_list@[new_id as int] == adj0[new_id as int]) by {
        assert(memory.adj_list@.take(adj0.len() as int)[new_id as int] == adj0[new_id as int]);
    }
    let ghost adj1 = memory.adj_list@;
    let ghost neurons1 = memory.neurons@;
    memory.set_synapse(old_id, meta, weight, current_tick);
    let ghost adj2 = memory.adj_list@;
    memory.set_synapse(new_id, meta, weight, current_tick);
    proof {
        assert forall|i: int|
            0 <= i < adj0.len() && i != old_id && i != new_id implies #[trigger] memory.adj_list@[i]
                == adj0[i] by {
            assert(adj1.take(adj0.len() as int)[i] == adj0[i]);
        }
        assert(memory.adj_list@.last() == adj1.last());
        assert(memory.neurons@ == neurons1);
    }
    meta
}

} // verus!
