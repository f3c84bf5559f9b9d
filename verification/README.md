# hca — hyperdimensional computing, verified

Packed 8192-bit hypervectors and the symbolic memory built on them, written
in Verus: every function in `src/` carries a contract that Verus proves.

## Layout

- `src/` — the verified library.
  - `bits`, `prng`, `digest`, `hypervector`: the bit model, the xorshift64
    stream, SHA-256 seeding (the `sha2` crate behind one trusted wrapper),
    atomic vectors and binding.
  - `permute`, `distance`, `bundle`: cyclic permutation and its inverse,
    Hamming distance, majority bundling with a threshold.
  - `codec`: base64 text of vector data (the `base64` crate behind two
    trusted wrappers).
  - `text`, `store`: trimming and character helpers; a name-keyed store
    that keeps insertion order.
  - `bubble`, `ast`, `agent`: the knowledge bubble (episodic traces,
    consolidation, tasks, sequences), expression-tree encoding and facts,
    and the reinforcement-learning agent.
  - `godnode`, `god_memory`: the trigram-encoded variant, with a
    deduplicated semantic index ranked by resonance.
  - `distil_gpt`: what is sent to a local chat model and how its reply is
    shown.
- `tests/` — tests of the library on concrete values.
- `app/` — the programs around the library: floating-point strengths,
  decay and spatial placement, sled persistence, file reading, the HTTP
  bridge, the testbed and the desktop dashboard.

The laws the library states (binding is its own inverse, permutation is
undone by its inverse, bundling ignores order, consolidation keeps the index
free of duplicate concepts, retrieval ranks nearest first, and others) are
public proof functions named `lemma_*`.
