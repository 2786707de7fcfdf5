use std::collections::VecDeque;
use vstd::prelude::*;

verus! {

/// A scheduled spike: neuron `neuron_id` is due to fire at tick `target_tick`.
pub struct SpikeEvent {
    pub neuron_id: u64,
    pub target_tick: u64,
}

/// An event is due at tick `t` once its target tick is not later than `t`.
pub open spec fn is_due(e: SpikeEvent, t: u64) -> bool {
    e.target_tick <= t
}

/// Neuron ids of the events of `s` that are due at `t`, in queue order.
pub open spec fn due_ids(s: Seq<SpikeEvent>, t: u64) -> Seq<u64>
    decreases s.len(),
{
    if s.len() == 0 {
        Seq::empty()
    } else if is_due(s.last(), t) {
        due_ids(s.drop_last(), t).push(s.last().neuron_id)
    } else {
        due_ids(s.drop_last(), t)
    }
}

/// The events of `s` that are not yet due at `t`, in queue order.
pub open spec fn pending_events(s: Seq<SpikeEvent>, t: u64) -> Seq<SpikeEvent>
    decreases s.len(),
{
    if s.len() == 0 {
        Seq::empty()
    } else if is_due(s.last(), t) {
        pending_events(s.drop_last(), t)
    } else {
        pending_events(s.drop_last(), t).push(s.last())
    }
}

/// Extraction loses nothing and leaves nothing due: the ids taken out and the events kept
/// together number the events queued, and none of the events kept is due.
pub proof fn law_extract_partitions(s: Seq<SpikeEvent>, t: u64)
    ensures
        due_ids(s, t).len() + pending_events(s, t).len() == s.len(),
        forall|i: int|
            0 <= i < pending_events(s, t).len() ==> !is_due(#[trigger] pending_events(s, t)[i], t),
        due_ids(pending_events(s, t), t) == Seq::<u64>::empty(),
    decreases s.len(),
{
    if s.len() > 0 {
        law_extract_partitions(s.drop_last(), t);
        let p = pending_events(s.drop_last(), t);
        if !is_due(s.last(), t) {
            assert(pending_events(s, t).drop_last() =~= p);
            assert forall|i: int| 0 <= i < pending_events(s, t).len() implies !is_due(
                #[trigger] pending_events(s, t)[i],
                t,
            ) by {
                if i < p.len() {
                    assert(pending_events(s, t)[i] == p[i]);
                }
            }
        }
    }
}

/// A spike scheduled for tick `t` behind the queue `q` is due at `t`, in order, after the
/// due events of `q`.
pub proof fn law_scheduled_spikes_fire(q: Seq<SpikeEvent>, ids: Seq<u64>, t: u64)
    ensures
        due_ids(q + ids.map_values(|id: u64| SpikeEvent { neuron_id: id, target_tick: t }), t)
            == due_ids(q, t) + ids,
    decreases ids.len(),
{
    let evs = ids.map_values(|id: u64| SpikeEvent { neuron_id: id, target_tick: t });
    if ids.len() == 0 {
        assert(q + evs =~= q);
        assert(due_ids(q, t) + ids =~= due_ids(q, t));
    } else {
        law_scheduled_spikes_fire(q, ids.drop_last(), t);
        let front = ids.drop_last().map_values(|id: u64| SpikeEvent { neuron_id: id, target_tick: t });
        assert((q + evs).drop_last() =~= q + front);
        assert((q + evs).last() == SpikeEvent { neuron_id: ids.last(), target_tick: t });
        assert(due_ids(q, t) + ids =~= (due_ids(q, t) + ids.drop_last()).push(ids.last()));
    }
}

/// FIFO of scheduled spikes.
pub struct KernelEventQueue {
    pub queue: VecDeque<SpikeEvent>,
}

impl View for KernelEventQueue {
    type V = Seq<SpikeEvent>;

    open spec fn view(&self) -> Seq<SpikeEvent> {
        self.queue@
    }
}

impl KernelEventQueue {
    /// An empty queue.
    pub fn new() -> (q: Self)
        ensures
            q@ == Seq::<SpikeEvent>::empty(),
    {
        Self { queue: VecDeque::new() }
    }

    /// Schedules `neuron_id` to fire at `target_tick`, behind every event already queued.
    pub fn push(&mut self, neuron_id: u64, target_tick: u64)
        ensures
            final(self)@ == old(self)@.push(SpikeEvent { neuron_id, target_tick }),
    {
        self.queue.push_back(SpikeEvent { neuron_id, target_tick });
    }

    /// Number of queued events.
    pub fn len(&self) -> (n: usize)
        ensures
            n == self@.len(),
    {
        self.queue.len()
    }

    /// Drops every queued event.
    pub fn clear(&mut self)
        ensures
            final(self)@ == Seq::<SpikeEvent>::empty(),
    {
        self.queue.clear();
    }

    /// Removes every event that is due at `current_tick` and returns their neuron ids in
    /// queue order; the events not yet due stay queued, in their order.
    pub fn extract_current_spikes(&mut self, current_tick: u64) -> (spikes: Vec<u64>)
        ensures
            spikes@ == due_ids(old(self)@, current_tick),
            final(self)@ == pending_events(old(self)@, current_tick),
    {
        let ghost s = self.queue@;
        let n = self.queue.len();
        let mut spikes: Vec<u64> = Vec::new();
        let mut kept: VecDeque<SpikeEvent> = VecDeque::new();
        let mut i: usize = 0;
        while i < n
            invariant
                0 <= i <= n,
                n == s.len(),
                self.queue@ == s.skip(i as int),
                spikes@ == due_ids(s.take(i as int), current_tick),
                kept@ == pending_events(s.take(i as int), current_tick),
            decreases n - i,
        {
            let e = self.queue.pop_front().unwrap();
            assert(s.take(i + 1).drop_last() =~= s.take(i as int));
            assert(s.take(i + 1).last() == s[i as int]);
            assert(self.queue@ =~= s.skip(i + 1));
            if e.target_tick <= current_tick {
                spikes.push(e.neuron_id);
            } else {
                kept.push_back(e);
            }
            i = i + 1;
        }
        assert(s.take(n as int) =~= s);
        self.queue = kept;
        spikes
    }
}

} // verus!
