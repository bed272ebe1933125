# uniset

A hierarchical, growable bit set. Its behaviour is stated in contracts and
proved, except for what the words of an `AtomicBitSet` hold: other threads may
set bits in them, so only the layout of an atomic set is stated.

Layer 0 of a `BitSet` holds one bit per position; every layer above holds one
bit per word of the layer below, set exactly when that word is not zero, up to
a top layer of a single word. Iteration and draining use the upper layers to
skip empty stretches a word at a time.

Modules under `src/`:

- `bits`: bits of a word, `span(d)` (the positions one bit of layer `d` covers)
  and the arithmetic that relates positions, words and bits.
- `layout`: how many layers of which length a capacity takes
  (`layer_sizes`, `bit_set_layout`), and how a requested capacity is rounded
  (`capacity_for`, `round_capacity_up`).
- `levels`: what a layer says about the set of positions (`level_ok`), and how
  setting, clearing and growing keep that true.
- `layer`: a single layer of words.
- `bitset`: `BitSet`, its iterator `Iter` and its draining iterator `Drain`.
- `atomic`: `AtomicBitSet`, whose words other threads may set bits in.
- `laws`: properties of the set as a whole.
