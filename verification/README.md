# vibrato_rkyv

A tokenizer for Japanese text in the MeCab style, written in Verus: its
behaviour is stated in `requires` / `ensures` contracts and proved.

- `src/dictionary/`: the system dictionary, built from a lexicon CSV, a
  connection matrix, `char.def` and `unk.def` texts; user lexicons;
  connection-id mappings; and a binary image of the dictionary that
  `Dictionary::from_bytes` reads back to the same value that
  `DictionaryInner::write` wrote; dictionary files hold that image
  compressed with zstd (`read_model`, `write_model`).
- `src/tokenizer/`: lattice construction (every word the lexicons hold and
  every unknown word the MeCab rule generates), the Viterbi search with its
  optimality proof, N-best search (distinct paths by non-decreasing cost, no
  cheaper path left out), lattice snapshots with per-node cost deltas, and
  connection-id counting.
- `src/legacy/`: the older in-memory forms of the connector, mapper and word
  features, with conversions into the current ones.
- `tests/`: tokenization scenarios and tests of each contract on concrete
  values.
- `app/`: the command-line program that remaps the connection ids of a
  dictionary file (argument parsing and file I/O), the serialisation
  copies of the library types, and the floating-point probabilities of
  connection ids.
