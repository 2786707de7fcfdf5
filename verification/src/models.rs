use vstd::prelude::*;

verus! {

/// The bit pattern of the binary32 value `0.0`.
pub const ZERO_BITS: u32 = 0u32;

/// The bit pattern of the binary32 value `1.0`: the activity tag of a synapse just laid.
pub const FULL_TAG_BITS: u32 = 0x3F80_0000u32;

/// The role of a neuron in the network.
#[derive(PartialEq, Eq, Structural, Clone, Copy, Debug)]
pub enum NeuronType {
    Sensor,
    Motor,
    Hidden,
}

/// Where a neuron comes from: a token of the vocabulary, or a chunk that joins two neurons.
#[derive(Clone, Debug)]
pub enum NeuronOrigin {
    BaseToken(String),
    ChunkSequence(u64, u64),
}

/// A neuron.  `potential` holds the binary32 bit pattern of the membrane potential.
#[derive(Clone, Debug)]
pub struct NeuronState {
    pub potential: u32,
    pub last_updated_tick: u64,
    pub cooldown_until: u64,
    pub neuron_type: NeuronType,
    pub origin: NeuronOrigin,
}

/// A directed connection.  `weight` and `tag_trace` hold binary32 bit patterns.
#[derive(Clone, Copy, Debug)]
pub struct Synapse {
    pub target_id: u64,
    pub weight: u32,
    pub tag_trace: u32,
    pub last_used_tick: u64,
    pub cooldown_until: u64,
}

/// The token name of a neuron grown for a token, if it is one.
pub open spec fn base_name(o: NeuronOrigin) -> Option<Seq<char>> {
    match o {
        NeuronOrigin::BaseToken(name) => Some(name@),
        NeuronOrigin::ChunkSequence(_, _) => None,
    }
}

/// A neuron at rest: zero potential, clocks at zero.
pub open spec fn is_fresh(n: NeuronState, t: NeuronType) -> bool {
    &&& n.potential == ZERO_BITS
    &&& n.last_updated_tick == 0
    &&& n.cooldown_until == 0
    &&& n.neuron_type == t
}

impl NeuronState {
    /// A neuron at rest, of type `neuron_type`, grown from `origin`.
    pub fn new(neuron_type: NeuronType, origin: NeuronOrigin) -> (n: Self)
        ensures
            is_fresh(n, neuron_type),
            n.origin == origin,
    {
        Self { potential: ZERO_BITS, last_updated_tick: 0, cooldown_until: 0, neuron_type, origin }
    }
}

} // verus!
