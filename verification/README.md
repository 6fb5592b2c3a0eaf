# ft_filter

A single-threaded fastText inference engine for filtering text corpora with
supervised `.bin` classifiers, written in Verus.

- `src/` is the verified library:
  - `tokenize` — the fastText hash, ASCII-separator tokenisation and the
    character n-gram (subword) buckets of a word;
  - `dict` — the index that finds a word's (last) position in the dictionary;
  - `format` — little-endian scalars of the model file, read with `byteorder`;
  - `huffman` — the hierarchical-softmax label tree, built as fastText builds it;
  - `model` — the `.bin` layout and the loader;
  - `features` — the input-matrix rows a document adds up, in fastText's order;
  - `filter` — the record text of an input line, the text to score (the
    string field of a JSONL record, read with `serde_json`) and the choice of
    label.
- `app/` is the command-line tool: argument parsing, streaming I/O, writing
  the score back into JSONL records, and the floating-point scoring heads
  (softmax, hierarchical softmax, table sigmoid), which add up the rows the
  library selects.
- `tests/` exercises the library on concrete inputs.
