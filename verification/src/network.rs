use crate::kernel::chunking::CoincidenceTracker;
use crate::kernel::event_queue::{KernelEventQueue, due_ids, pending_events};
use crate::memory::SpikeMemory;
use crate::models::{NeuronState, Synapse, ZERO_BITS};
use vstd::prelude::*;

pub use crate::kernel::event_queue::SpikeEvent;

verus! {

/// Each entry is smaller than the next.
pub open spec fn strictly_increasing(s: Seq<u64>) -> bool {
    forall|i: int, j: int| 0 <= i < j < s.len() ==> s[i] < s[j]
}

/// The ids of `ids`, sorted ascending, each once.
pub fn sorted_unique(ids: &[u64]) -> (r: Vec<u64>)
    ensures
        strictly_increasing(r@),
        r@.to_set() == ids@.to_set(),
{
    let mut r: Vec<u64> = Vec::new();
    let mut i: usize = 0;
    while i < ids.len()
        invariant
            0 <= i <= ids@.len(),
            strictly_increasing(r@),
            r@.to_set() == ids@.take(i as int).to_set(),
        decreases ids@.len() - i,
    {
        let x = ids[i];
        let mut p: usize = 0;
        while p < r.len() && r[p] < x
            invariant
                0 <= p <= r@.len(),
                forall|k: int| 0 <= k < p ==> r@[k] < x,
            decreases r@.len() - p,
        {
            p = p + 1;
        }
        let ghost before = r@;
        let ghost pre = ids@.take(i as int);
        let ghost post = ids@.take(i + 1);
        assert(post =~= pre.push(x));
        assert(post.to_set() =~= pre.to_set().insert(x)) by {
            assert forall|y: u64| post.to_set().contains(y) == pre.to_set().insert(x).contains(y) by {
                if y != x && post.contains(y) {
                    let k = choose|k: int| 0 <= k < post.len() && #[trigger] post[k] == y;
                    assert(pre[k] == y);
                }
                if pre.contains(y) {
                    let k = choose|k: int| 0 <= k < pre.len() && #[trigger] pre[k] == y;
                    assert(post[k] == y);
                }
                if y == x {
                    assert(post[i as int] == x);
                }
            }
        }
        if p < r.len() && r[p] == x {
            assert(r@.to_set() =~= r@.to_set().insert(x)) by {
                assert(r@[p as int] == x);
            }
        } else {
            r.insert(p, x);
            assert(r@ =~= before.insert(p as int, x));
            assert(strictly_increasing(r@)) by {
                assert forall|a: int, b: int| 0 <= a < b < r@.len() implies r@[a] < r@[b] by {
                    if b < p {
                    } else if a < p && b == p {
                    } else if a < p {
                        assert(r@[b] == before[b - 1]);
                    } else if a == p {
                        assert(r@[b] == before[b - 1]);
                        assert(before[p as int] >= x);
                        if b - 1 > p {
                            assert(before[p as int] < before[b - 1]);
                        }
                    } else {
                        assert(r@[a] == before[a - 1]);
                        assert(r@[b] == before[b - 1]);
                    }
                }
            }
            assert(r@.to_set() =~= before.to_set().insert(x)) by {
                assert forall|y: u64| r@.to_set().contains(y) == before.to_set().insert(x).contains(y) by {
                    if r@.contains(y) {
                        let k = choose|k: int| 0 <= k < r@.len() && #[trigger] r@[k] == y;
                        if k < p {
                            assert(before[k] == y);
                        } else if k > p {
                            assert(before[k - 1] == y);
                        }
                    }
                    if before.contains(y) {
                        let k = choose|k: int| 0 <= k < before.len() && #[trigger] before[k] == y;
                        if k < p {
                            assert(r@[k] == y);
                        } else {
                            assert(r@[k + 1] == y);
                        }
                    }
                    if y == x {
                        assert(r@[p as int] == x);
                    }
                }
            }
        }
        i = i + 1;
    }
    assert(ids@.take(ids@.len() as int) =~= ids@);
    r
}

/// `n` with its potential reset to zero and its clock set to `t`.
pub open spec fn relaxed(n: NeuronState, t: u64) -> NeuronState {
    NeuronState { potential: ZERO_BITS, last_updated_tick: t, ..n }
}

/// `s` with its activity tag cleared.
pub open spec fn untagged(s: Synapse) -> Synapse {
    Synapse { tag_trace: ZERO_BITS, ..s }
}

/// The simulated network: memory, clock, scheduled spikes and short-term buffers.
pub struct SpikingNetwork {
    pub memory: SpikeMemory,
    pub current_tick: u64,
    pub event_queue: KernelEventQueue,
    pub previous_tick_spikes: Vec<u64>,
    pub coincidence_tracker: CoincidenceTracker,
    pub is_learning_mode: bool,
}

impl SpikingNetwork {
    /// An empty network at tick zero, not learning.
    pub fn new() -> (net: Self)
        ensures
            net.memory.wf(),
            net.memory.neurons@.len() == 0,
            net.memory.vocabulary@ == Map::<Seq<char>, u64>::empty(),
            net.current_tick == 0,
            net.event_queue@.len() == 0,
            net.previous_tick_spikes@.len() == 0,
            net.coincidence_tracker@ == Map::<(u64, u64), u32>::empty(),
            !net.is_learning_mode,
    {
        Self {
            memory: SpikeMemory::new(),
            current_tick: 0,
            event_queue: KernelEventQueue::new(),
            previous_tick_spikes: Vec::new(),
            coincidence_tracker: CoincidenceTracker::new(),
            is_learning_mode: false,
        }
    }

    /// Switches plasticity on or off.
    pub fn set_learning_mode(&mut self, is_learning: bool)
        ensures
            *final(self) == (SpikingNetwork { is_learning_mode: is_learning, ..*old(self) }),
    {
        self.is_learning_mode = is_learning;
    }

    /// Number of scheduled spikes.
    pub fn active_spikes_count(&self) -> (n: usize)
        ensures
            n == self.event_queue@.len(),
    {
        self.event_queue.len()
    }

    /// The weight bits of the synapse `source_id -> target_id`, or the bits of `0.0`.
    pub fn get_synapse_weight(&self, source_id: u64, target_id: u64) -> (w: u32)
        ensures
            w == crate::memory::link_weight(self.memory.adj_list@, source_id, target_id),
    {
        self.memory.get_synapse_weight(source_id, target_id)
    }

    /// Forgets the short-term state: the spikes of the last tick, every scheduled spike and
    /// every synapse's activity tag; every neuron's potential is reset to zero as of the
    /// current tick.
    pub fn clear_runtime_attention_buffers(&mut self)
        ensures
            final(self).previous_tick_spikes@.len() == 0,
            final(self).event_queue@.len() == 0,
            final(self).current_tick == old(self).current_tick,
            final(self).is_learning_mode == old(self).is_learning_mode,
            final(self).coincidence_tracker == old(self).coincidence_tracker,
            final(self).memory.vocabulary == old(self).memory.vocabulary,
            final(self).memory.neurons@ == old(self).memory.neurons@.map_values(
                |n: NeuronState| relaxed(n, old(self).current_tick),
            ),
            final(self).memory.adj_list@.len() == old(self).memory.adj_list@.len(),
            old(self).memory.wf() ==> final(self).memory.wf(),
            forall|i: int|
                0 <= i < old(self).memory.adj_list@.len() ==> #[trigger] final(self).memory.adj_list@[i]@
                    == old(self).memory.adj_list@[i]@.map_values(
                    |s: Synapse| untagged(s),
                ),
    {
        self.previous_tick_spikes.clear();
        self.event_queue.clear();
        let n = self.memory.adj_list.len();
        let mut i: usize = 0;
        while i < n
            invariant
                0 <= i <= n,
                n == old(self).memory.adj_list@.len(),
                self.memory.adj_list@.len() == n,
                self.memory.neurons == old(self).memory.neurons,
                self.memory.vocabulary == old(self).memory.vocabulary,
                self.current_tick == old(self).current_tick,
                self.is_learning_mode == old(self).is_learning_mode,
                self.coincidence_tracker == old(self).coincidence_tracker,
                self.previous_tick_spikes@.len() == 0,
                self.event_queue@.len() == 0,
                forall|k: int| #![trigger self.memory.adj_list@[k]]
                    0 <= k < i ==> self.memory.adj_list@[k]@ == old(self).memory.adj_list@[k]@.map_values(
                        |s: Synapse| untagged(s),
                    ),
                forall|k: int| #![trigger self.memory.adj_list@[k]]
                    i <= k < n ==> self.memory.adj_list@[k] == old(self).memory.adj_list@[k],
            decreases n - i,
        {
            let mut links: Vec<Synapse> = Vec::new();
            self.memory.adj_list.set_and_swap(i, &mut links);
            let ghost orig = links@;
            let m = links.len();
            let mut j: usize = 0;
            while j < m
                invariant
                    0 <= j <= m,
                    m == orig.len(),
                    links@.len() == m,
                    forall|k: int| 0 <= k < j ==> links@[k] == untagged(orig[k]),
                    forall|k: int| j <= k < m ==> links@[k] == orig[k],
                decreases m - j,
            {
                let mut s = links[j];
                s.tag_trace = ZERO_BITS;
                links.set(j, s);
                j = j + 1;
            }
            assert(links@ =~= orig.map_values(|s: Synapse| untagged(s)));
            self.memory.adj_list.set_and_swap(i, &mut links);
            i = i + 1;
        }
        let t = self.current_tick;
        let ghost adj_done = self.memory.adj_list;
        let nn = self.memory.neurons.len();
        let mut i: usize = 0;
        while i < nn
            invariant
                0 <= i <= nn,
                t == old(self).current_tick,
                nn == old(self).memory.neurons@.len(),
                self.memory.neurons@.len() == nn,
                self.memory.adj_list == adj_done,
                self.memory.vocabulary == old(self).memory.vocabulary,
                self.current_tick == old(self).current_tick,
                self.is_learning_mode == old(self).is_learning_mode,
                self.coincidence_tracker == old(self).coincidence_tracker,
                self.previous_tick_spikes@.len() == 0,
                self.event_queue@.len() == 0,
                forall|k: int| 0 <= k < i ==> self.memory.neurons@[k] == relaxed(
                    old(self).memory.neurons@[k],
                    t,
                ),
                forall|k: int| i <= k < nn ==> self.memory.neurons@[k] == old(self).memory.neurons@[k],
            decreases nn - i,
        {
            self.memory.neurons[i].potential = ZERO_BITS;
            self.memory.neurons[i].last_updated_tick = t;
            i = i + 1;
        }
        assert(self.memory.neurons@ =~= old(self).memory.neurons@.map_values(
            |n: NeuronState| relaxed(n, t),
        ));
    }

    /// Moves the clock one tick forward and takes the spikes due at the new tick out of the
    /// queue: their neuron ids, ascending, each once.  Spikes not yet due stay queued.
    pub fn start_tick(&mut self) -> (spikes: Vec<u64>)
        requires
            old(self).current_tick < u64::MAX,
        ensures
            final(self).current_tick == old(self).current_tick + 1,
            strictly_increasing(spikes@),
            spikes@.to_set() == due_ids(old(self).event_queue@, final(self).current_tick).to_set(),
            final(self).event_queue@ == pending_events(
                old(self).event_queue@,
                final(self).current_tick,
            ),
            final(self).memory == old(self).memory,
            final(self).previous_tick_spikes == old(self).previous_tick_spikes,
            final(self).coincidence_tracker == old(self).coincidence_tracker,
            final(self).is_learning_mode == old(self).is_learning_mode,
    {
        self.current_tick = self.current_tick + 1;
        let raw = self.event_queue.extract_current_spikes(self.current_tick);
        sorted_unique(raw.as_slice())
    }

    /// Closes a tick: `current_tick_spikes` become the spikes of the last tick, and each of
    /// `next_spikes` is scheduled, in order, to fire at the next tick.
    pub fn finish_tick(&mut self, current_tick_spikes: Vec<u64>, next_spikes: &[u64])
        requires
            next_spikes@.len() > 0 ==> old(self).current_tick < u64::MAX,
        ensures
            final(self).previous_tick_spikes@ == current_tick_spikes@,
            final(self).event_queue@ == old(self).event_queue@ + next_spikes@.map_values(
                |id: u64| SpikeEvent { neuron_id: id, target_tick: (old(self).current_tick + 1) as u64 },
            ),
            final(self).current_tick == old(self).current_tick,
            final(self).memory == old(self).memory,
            final(self).coincidence_tracker == old(self).coincidence_tracker,
            final(self).is_learning_mode == old(self).is_learning_mode,
    {
        self.previous_tick_spikes = current_tick_spikes;
        if next_spikes.len() == 0 {
            assert(next_spikes@.map_values(
                |id: u64| SpikeEvent { neuron_id: id, target_tick: (old(self).current_tick + 1) as u64 },
            ) =~= Seq::<SpikeEvent>::empty());
            assert(self.event_queue@ =~= old(self).event_queue@ + Seq::<SpikeEvent>::empty());
            return;
        }
        let at = self.current_tick + 1;
        let mut i: usize = 0;
        while i < next_spikes.len()
            invariant
                0 <= i <= next_spikes@.len(),
                at == old(self).current_tick + 1,
                self.current_tick == old(self).current_tick,
                self.memory == old(self).memory,
                self.coincidence_tracker == old(self).coincidence_tracker,
                self.is_learning_mode == old(self).is_learning_mode,
                self.previous_tick_spikes@ == current_tick_spikes@,
                self.event_queue@ == old(self).event_queue@ + next_spikes@.take(i as int).map_values(
                    |id: u64| SpikeEvent { neuron_id: id, target_tick: at },
                ),
            decreases next_spikes@.len() - i,
        {
            self.event_queue.push(next_spikes[i], at);
            assert(next_spikes@.take(i + 1) =~= next_spikes@.take(i as int).push(next_spikes@[i as int]));
            i = i + 1;
        }
        assert(next_spikes@.take(next_spikes@.len() as int) =~= next_spikes@);
    }
}

} // verus!
