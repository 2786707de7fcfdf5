# spikedb

A spiking associative memory for source-code tokens: tokens become sensor neurons,
co-occurring tokens are wired by synapses and grown into chunk neurons, a critic rewards or
punishes recently active synapses, and a contrast sleep prunes weak synapses and freezes
isolated chunks.  A walk over the strongest synapses proposes token trails, which a small
compiler agent uses to try repairs of a broken line.

Layout:

- `src/` — the verified library (Verus): the event queue, the neuron memory (vocabulary,
  synapse lists, chunk expansion), the tokenizer, the coincidence tracker, the fanout cut,
  the freezing of silent neurons, trail extension, compiler-report parsing and the repair
  state machine.  Binary32 quantities (potentials, weights, activity tags) are stored as
  their bit patterns.
- `app/` — the program around it: configuration file, membrane and synapse dynamics and the
  learning kernels (all computing on binary32 values), the background `SpikeDB` thread and
  its channel, the compiler agent's process and file I/O, and the console.
- `tests/` — tests of the library.
