# aether

AETHER (Adaptive Entangled Thought with Holographic Emergent Resonance) is a
small neural architecture: hyperdimensional vectors, resonant oscillators,
entangled attention, sparse experts, a fractal memory and an evolutionary
trainer, plus a trainable byte-pair tokenizer and a command line.

## Layout

- `src/` — the verified library (Verus):
  - `text.rs`: Unicode whitespace, word splitting, trimming, decimal rendering.
  - `bpe.rs`: the model of byte-pair encoding — pieces, merges, pair counts,
    the deterministic choice of the next merge, encoding and decoding.
  - `tokenizer.rs`: `BpeTokenizer` (train / encode / decode), proved against
    `bpe.rs`.
  - `laws.rs`: proved properties — decoding an encoding gives the text back,
    words encode independently, `<unk>` ids are dropped when decoding,
    unseen characters encode to `<unk>`, training is deterministic and never
    learns more merges than asked for, the layout of a trained vocabulary,
    and a tokenizer rebuilt from its listings behaves as the one listed.
  - `error.rs`: `AetherError` and its rendering.
  - `attention.rs`: the entangled-attention configuration and input checks,
    and the local window (proved to depend on relative position only).
  - `cli.rs`: how the command line reads its command, flags, numbers and id
    lists.
  - `config.rs`: the integer rules of every component's configuration
    (experts, network shape, memory, resonance, creativity, trainer,
    sequences and prompts), each with its exact error message.
  - `shape.rs`: matrix and vector shape checks, row flattening, transposition
    (proved an involution) and the cyclic shift used by permutation.
  - `params.rs`: the flat view of the model's parameters — blocks cut from a
    buffer at their lengths, proved to undo concatenation.
- `app/` — the `aether` program and the floating-point network (tensors,
  attention layers, experts, memory, training, creativity), with JSON
  persistence; it calls the library for tokenization, configuration checks
  and argument parsing.
- `tests/` — tests of the library.
