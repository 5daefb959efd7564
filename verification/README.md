# keygen

Keyboard layout analysis: n-gram corpora, typing-effort penalties of layouts
and of key positions, and searches for layouts with a lower penalty.

- `src/` is the library, written in Verus. Its functions carry contracts and
  are proved against them, except a few small trusted wrappers whose contracts
  are believed, not proved: in `text`, the conversions between strings and
  characters and the standard library's case mappings (`chars_of`,
  `string_from_chars`, `char_uppercase_first`, `to_lowercase`); in `layout`,
  the random draw (`random_usize`); in `evaluator`, the calls into itertools
  (`permutations`, `cartesian_product`).
  - `layout`: the board (fingers, hands, rows), layers and layouts, swaps and
    shuffles, drawing a layer as text.
  - `text`: character-level text handling (splitting, lines, numbers, and
    the byte offsets at which string slices are taken).
  - `corpus_manager`: counting, parsing, merging and normalising n-gram lists,
    and relating each trigram to the trigrams that follow it.
  - `corpus_laws`: how those functions relate: merging does not depend on
    the order of the lists, counting corpora together sums their single
    counts, and relating a corpus adds its long items one after the other.
  - `penalty`: the penalty of a layout for a trigram list (amounts in tenths
    of a point), choosing the best layouts, and the layout search.
  - `evaluator_penalty`: the penalty of a trigram of key positions (amounts in
    hundredths of a point) and the comparisons between such penalties.
  - `evaluator`: letters by frequency, groups of keys by base penalty, the
    letters handed to the groups most frequent first and cheapest group
    first, and the layouts built from every arrangement of the groups; its
    laws show that such a layout keeps `e`, `t` and the newline on their keys,
    holds each group's letters on that group's keys, and puts a letter on a
    cheaper key no later in the frequency order than one on a dearer key.
  - `positions`: the penalties of all ordered triples of distinct keys, summed
    per move, and the triples weighed by their moves.
  - `letters`: how the letters of a trigram list are used.
- `app/` is the command-line program around the library: argument handling,
  files, threads, timers and the printed reports.
- `tests/` runs the library on concrete values.
