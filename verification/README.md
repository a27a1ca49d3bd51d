# shitoken

A byte-pair-encoding tokenizer whose library is verified with Verus.

- `src/` — the library. `bpe` encodes and decodes, `train` learns a merge
  table (a linked list over the text, pair counts and positions, a queue of
  candidates), `model` states what training computes, `laws` proves what every
  trained table satisfies (merges read as their pairs, encoding the corpus gives
  training's final sequence, decoding gives text back), `table` reads and
  writes the binary table format, `render` builds what the command line prints,
  and `cli` makes the command line's choices.
- `tests/` — tests on concrete values.
- `app/` — the command-line program: argument parsing, files, terminal.

```bash
shitoken generate --corpus ./shakespeare.txt --output ./shakespeare.bpe --merges 500
shitoken tokenize --table ./shakespeare.bpe --raw "Tokenize me"
```
