# lyricforge

The analysis core of LyricForge, a songwriting editor: syllable counts per
line, rhyme search in a pronunciation dictionary, and rhyme highlighting
(pure end rhymes in green, assonances in yellow, inner rhymes and shared
vowel sounds in purple). The functions in `src/` are verified with Verus
against contracts stated over mathematical models of their inputs and
outputs, except five small trusted wrappers around outside code (the two
case mappings of `std`, stated over a named result and their documented
ASCII behaviour, and `String::push`, one call into `regex`, one into
`hyphenation`), whose contracts are stated in their doc comments and
believed without proof.

## Layout

- `src/text.rs`: characters, UTF-8 widths, ASCII case-insensitive
  comparison, code-point order of strings, vowel normalisation, and the
  trusted case mappings (`str::to_lowercase`, `str::to_uppercase`).
- `src/pattern.rs`: regular-expression matching through the `regex` crate
  (trusted: byte ranges of the matches, well formed as the crate documents).
- `src/hyphen.rs`: hyphenation through the embedded dictionaries of the
  `hyphenation` crate (trusted: the segment count of a word).
- `src/layout.rs`: byte offsets, line numbers and line ranges of a text.
- `src/dictionary.rs`: the `words` table (rows in storage order, NULL
  columns as `None`), word lookup and the ranked rhyme search.
- `src/phonetics.rs`: phonemes, stressed vowels, rhyme parts, stop words and
  the classification of a pair of words into a highlight colour.
- `src/highlight.rs`: the model of highlighting (words, pairs, the best
  match kept per word) and its verified computation.
- `src/linguistics.rs`: the public commands `count_syllables_word`,
  `calculate_syllables`, `find_rhymes_for_word` and `analyze_rhymes`, and
  beside them `syllables_from`, `words_syllables` and `analyze_rhymes_in`,
  which take the outcome of the pattern matching and hyphenation as
  arguments.
- `app/`: the host side: it loads the SQLite dictionary with `rusqlite`,
  keeps it in memory and offers serialisable copies of the result types.
- `tests/`: tests of every command on small dictionaries.

## Phonetic data

A word's phonetic facts come from its dictionary row: its phonemes are the
blank-separated entries of the `vowels` column (a vowel carries a stress
mark `0`, `1` or `2`), its rhyme part is the `rhyme_part` column. Two words
rhyme purely when their rhyme parts agree, form an assonance when the
vowels of their rhyme parts agree but the rhyme parts do not, and share a
vowel sound when the lists of vowels (stress marks removed) of the whole
words agree and hold at least two vowels.
