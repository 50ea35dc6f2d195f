//! Syllable counting, rhyme lookup grouped by syllables, and the rhyme
//! highlighting of a whole text.

use vstd::prelude::*;
use crate::dictionary::{
    get_all_rhymes, get_word_attributes, is_rhyme_search_result, lemma_lower_form_ascii, pairs_view, rhyme_languages_present, try_get_all_rhymes, word_lookup,
    Dictionary, EntryView,
};
use crate::highlight::{
    best_highlights, best_highlights_exec, copy_highlight, kept_keys, lemma_best_keys_are_starts, line_end_flags,
    is_segmentation, represents, segmentation_of, text_segmentation, word_matches, words_of, Segmentation,
    SpecHighlight,
};
use crate::hyphen::{hyphenated_segment_count, hyphenation_segments, HyphenationLanguage};
use crate::layout::{
    char_index_of, lemma_byte_offset_strict, lemma_line_count, lemma_lines_of_joined_text, newline_count, lemma_char_index_of,
    lemma_utf8_len_subrange, line_ranges, line_ranges_of, line_texts, TextIndex,
};
use crate::pattern::{find_match_spans, regex_matches, spans_well_formed};
use crate::phonetics::{count_phonemes, stressed_phoneme_count};
use crate::text::{byte_offset, is_ascii_text, lower_form, str_eq, string_from_chars, to_lowercase, utf8_len};

verus! {

/// The pattern of a word of a text: a run of letters.
pub open spec fn word_pattern() -> Seq<char> {
    "[\\p{L}]+"@
}

/// The pattern of a vowel group, the last resort of syllable counting.
pub open spec fn vowel_group_pattern() -> Seq<char> {
    "(?i)[aeiouy\u{e4}\u{f6}\u{fc}]+"@
}

/// The hyphenation dictionary for a language: English for `en`, German
/// otherwise.
pub open spec fn hyphenation_language(lang: Seq<char>) -> HyphenationLanguage {
    if lang == "en"@ {
        HyphenationLanguage::EnglishUS
    } else {
        HyphenationLanguage::German1996
    }
}

/// The syllables that the dictionary records for `word`: the stressed
/// phonemes of its vowel transcription, 0 where the word is missing.
pub open spec fn dictionary_syllables(d: Seq<EntryView>, word: Seq<char>, lang: Seq<char>) -> nat {
    match word_lookup(d, word, lang) {
        Some(a) => stressed_phoneme_count(a.vowels),
        None => 0,
    }
}

/// The syllables of `word`: those the dictionary records where there are
/// any; else the hyphenation segments; else, for a non-empty word, the
/// number of vowel groups, at least 1.
pub open spec fn syllable_count(d: Seq<EntryView>, word: Seq<char>, lang: Seq<char>) -> usize {
    syllable_rule(
        dictionary_syllables(d, word, lang),
        hyphenation_count(hyphenation_language(lang), word),
        word.len() == 0,
        match regex_matches(vowel_group_pattern(), word) {
            Some(m) => m.len(),
            None => 0,
        },
    )
}

/// The hyphenation segments of `word`: hyphenation ignores case, so a word
/// that is not its own lower-case form is hyphenated in its lower-case form,
/// where that form is its own lower-case form; otherwise there is none.
pub open spec fn hyphenation_count(lang: HyphenationLanguage, word: Seq<char>) -> Option<usize> {
    if lower_form(word) == word {
        hyphenation_segments(lang, word)
    } else if lower_form(lower_form(word)) == lower_form(word) {
        hyphenation_segments(lang, lower_form(word))
    } else {
        None
    }
}

/// Case does not change the hyphenation of a word: every ASCII word (and
/// every word whose lower-case form is its own lower-case form) has the
/// segments of its lower-case form, as its lower-case form has.
pub proof fn lemma_hyphenation_ignores_case(lang: HyphenationLanguage, word: Seq<char>)
    requires
        is_ascii_text(word) || lower_form(lower_form(word)) == lower_form(word),
    ensures
        hyphenation_count(lang, word) == hyphenation_segments(lang, lower_form(word)),
        hyphenation_count(lang, word) == hyphenation_count(lang, lower_form(word)),
{
    if is_ascii_text(word) {
        lemma_lower_form_ascii(word);
    }
}

/// Case does not change the syllables of an ASCII word wherever hyphenation
/// decides them: the word counts as its lower-case form counts.
pub proof fn lemma_syllables_ignore_case(d: Seq<EntryView>, word: Seq<char>, lang: Seq<char>)
    requires
        is_ascii_text(word),
    ensures
        (hyphenation_segments(hyphenation_language(lang), lower_form(word)) matches Some(n) && n > 0)
            ==> syllable_count(d, word, lang) == syllable_count(d, lower_form(word), lang),
        dictionary_syllables(d, word, lang) == dictionary_syllables(d, lower_form(word), lang),
{
    lemma_lower_form_ascii(word);
    lemma_hyphenation_ignores_case(hyphenation_language(lang), word);
    lemma_hyphenation_ignores_case(hyphenation_language(lang), lower_form(word));
    assert(lower_form(word).len() == word.len());
}

/// Hyphenates `word` as `hyphenation_count` says.
fn hyphenation_count_of(lang: HyphenationLanguage, word: &str) -> (res: Option<usize>)
    ensures
        res == hyphenation_count(lang, word@),
{
    let lower = to_lowercase(word);
    if str_eq(lower.as_str(), word) {
        hyphenated_segment_count(lang, word)
    } else {
        let lower_again = to_lowercase(lower.as_str());
        if str_eq(lower_again.as_str(), lower.as_str()) {
            hyphenated_segment_count(lang, lower.as_str())
        } else {
            None
        }
    }
}

/// How the syllables of a word follow from the dictionary's count, the
/// hyphenation segments (if the dictionary could be loaded) and the vowel
/// groups: the dictionary's count where it is positive; else the segments;
/// where there are none, for a non-empty word, the vowel groups, at least 1.
pub open spec fn syllable_rule(from_dictionary: nat, segments: Option<usize>, word_is_empty: bool, groups: nat) -> usize {
    if from_dictionary > 0 {
        from_dictionary as usize
    } else {
        let n = match segments {
            Some(n) => n,
            None => 0,
        };
        if n == 0 && !word_is_empty {
            if groups == 0 {
                1
            } else {
                groups as usize
            }
        } else {
            n
        }
    }
}

/// Decides the syllables of a word from the dictionary's count, the
/// hyphenation segments and the vowel groups (consulted only when neither
/// of the first two gives a count for a non-empty word).
pub fn syllables_from(dictionary_count: usize, segments: Option<usize>, word_is_empty: bool, vowel_groups: usize) -> (res: usize)
    ensures
        res == syllable_rule(dictionary_count as nat, segments, word_is_empty, vowel_groups as nat),
{
    if dictionary_count > 0 {
        return dictionary_count;
    }
    let n = match segments {
        Some(n) => n,
        None => 0,
    };
    if n == 0 && !word_is_empty {
        if vowel_groups == 0 {
            1
        } else {
            vowel_groups
        }
    } else {
        n
    }
}

/// Every non-empty word has at least one syllable, where the dictionary's
/// count fits a `usize` (as every count of a stored string does) and the
/// vowel groups are not more than a list in memory can hold.
pub proof fn lemma_nonempty_word_has_syllables(d: Seq<EntryView>, word: Seq<char>, lang: Seq<char>)
    requires
        word.len() > 0,
        dictionary_syllables(d, word, lang) <= usize::MAX,
    ensures
        syllable_count(d, word, lang) >= 1 || (regex_matches(vowel_group_pattern(), word) matches Some(m)
            && m.len() > usize::MAX),
{
}

/// Counts the syllables of one word in language `lang`: the vowel phonemes
/// (those ending in a stress mark `0`, `1` or `2`) that the dictionary
/// records, where there are any; otherwise the segments into which the
/// English (`en`) or German (anything else) hyphenation splits the word
/// (in its lower-case form, as `hyphenation_count` says); where that gives
/// none, the vowel groups of a non-empty word, and 1 if it
/// has none.
pub fn count_syllables_word(dict: &Dictionary, word: &str, lang: &str) -> (res: usize)
    ensures
        res == syllable_count(dict@, word@, lang@),
{
    let dictionary_count = match get_word_attributes(dict, word, lang) {
        Some(a) => count_phonemes(a.vowels.as_str(), true),
        None => 0,
    };
    if dictionary_count > 0 {
        return syllables_from(dictionary_count, None, word.is_empty(), 0);
    }
    let language = if str_eq(lang, "en") {
        HyphenationLanguage::EnglishUS
    } else {
        HyphenationLanguage::German1996
    };
    let segments = hyphenation_count_of(language, word);
    let needs_groups = match segments {
        Some(n) => n == 0,
        None => true,
    } && !word.is_empty();
    let groups = if needs_groups {
        match find_match_spans("(?i)[aeiouy\u{e4}\u{f6}\u{fc}]+", word) {
            Some(v) => v.len(),
            None => 0,
        }
    } else {
        0
    };
    syllables_from(dictionary_count, segments, word.is_empty(), groups)
}

/// The text of a match: the characters between its byte offsets.
pub open spec fn span_text(s: Seq<char>, span: (usize, usize)) -> Seq<char> {
    let from = match char_index_of(s, span.0 as int) {
        Some(k) => k,
        None => 0,
    };
    let to = match char_index_of(s, span.1 as int) {
        Some(k) => k,
        None => 0,
    };
    s.subrange(from, to)
}

/// The syllables of the first `n` matches of `spans` in `line`, summed with
/// wrap-around.
pub open spec fn spans_syllables(
    d: Seq<EntryView>,
    line: Seq<char>,
    lang: Seq<char>,
    spans: Seq<(usize, usize)>,
    n: int,
) -> usize
    decreases n,
{
    if n <= 0 {
        0
    } else {
        vstd::wrapping::usize_specs::wrapping_add(
            spans_syllables(d, line, lang, spans, n - 1),
            syllable_count(d, span_text(line, spans[n - 1]), lang),
        )
    }
}

/// The syllables of the words (runs of letters) of one line.
pub open spec fn line_syllables(d: Seq<EntryView>, line: Seq<char>, lang: Seq<char>) -> usize {
    match regex_matches(word_pattern(), line) {
        Some(spans) => spans_syllables(d, line, lang, spans, spans.len() as int),
        None => 0,
    }
}

/// The characters of a match in `idx`'s text, and their range.
pub(crate) fn span_chars(idx: &TextIndex, span: (usize, usize)) -> (res: (usize, usize))
    requires
        idx.describes(idx.chars@),
        spans_well_formed(idx.chars@, seq![span]),
    ensures
        char_index_of(idx.chars@, span.0 as int) == Some(res.0 as int),
        char_index_of(idx.chars@, span.1 as int) == Some(res.1 as int),
        res.0 <= res.1 <= idx.chars@.len(),
{
    let ghost s = idx.chars@;
    assert(seq![span][0] == span);
    let ghost ka = choose|k: int| 0 <= k <= s.len() && #[trigger] byte_offset(s, k) == span.0 as int;
    let ghost kb = choose|k: int| 0 <= k <= s.len() && #[trigger] byte_offset(s, k) == span.1 as int;
    proof {
        lemma_char_index_of(s, ka);
        lemma_char_index_of(s, kb);
        if kb < ka {
            lemma_byte_offset_strict(s, kb, ka);
        }
    }
    let from = match idx.char_at_byte(span.0) {
        Some(k) => k,
        None => 0,
    };
    let to = match idx.char_at_byte(span.1) {
        Some(k) => k,
        None => 0,
    };
    (from, to)
}

/// The syllables of every line of `s`.
pub open spec fn line_syllable_counts(d: Seq<EntryView>, s: Seq<char>, lang: Seq<char>) -> Seq<usize> {
    line_texts(s).map_values(|l: Seq<char>| line_syllables(d, l, lang))
}

/// Syllable counting splits a line into the same words as highlighting
/// does: the runs of letters that the pattern `[\p{L}]+` matches, one-letter
/// words included. The syllables of every line of a text sum the syllables
/// of exactly the words that the highlighting of that text sees in the line.
pub proof fn lemma_syllables_count_the_highlighted_words(d: Seq<EntryView>, s: Seq<char>, lang: Seq<char>)
    ensures
        word_pattern() == "[\\p{L}]+"@,
        line_syllable_counts(d, s, lang).len() == text_segmentation(s).line_words.len(),
        forall|l: int|
            0 <= l < line_syllable_counts(d, s, lang).len() ==> #[trigger] line_syllable_counts(d, s, lang)[l]
                == spans_syllables(
                d,
                line_texts(s)[l],
                lang,
                text_segmentation(s).line_words[l],
                text_segmentation(s).line_words[l].len() as int,
            ),
{
    let g = text_segmentation(s);
    assert forall|l: int| 0 <= l < line_syllable_counts(d, s, lang).len() implies #[trigger] line_syllable_counts(
        d,
        s,
        lang,
    )[l] == spans_syllables(d, line_texts(s)[l], lang, g.line_words[l], g.line_words[l].len() as int) by {
        let line = line_texts(s)[l];
        assert(line == s.subrange(line_ranges(s)[l].0, line_ranges(s)[l].1));
        assert(g.line_words[l] == word_matches(line));
        match regex_matches(word_pattern(), line) {
            Some(v) => {},
            None => {
                assert(spans_syllables(d, line, lang, Seq::<(usize, usize)>::empty(), 0) == 0);
            },
        }
    }
}

/// The syllables of two texts joined by a line break are the syllables of
/// the lines of the first text followed by those of the second.
pub proof fn lemma_syllables_of_joined_text(d: Seq<EntryView>, a: Seq<char>, b: Seq<char>, lang: Seq<char>)
    ensures
        line_syllable_counts(d, a + seq!['\n'] + b, lang) == line_syllable_counts(d, a, lang)
            + line_syllable_counts(d, b, lang),
{
    lemma_lines_of_joined_text(a, b);
    assert(line_syllable_counts(d, a + seq!['\n'] + b, lang) =~= line_syllable_counts(d, a, lang)
        + line_syllable_counts(d, b, lang));
}

/// Sums, with wrap-around, the syllables of the words of `line` whose byte
/// ranges are `spans` (the matches of the word pattern), each counted as
/// `count_syllables_word` does.
pub fn words_syllables(dict: &Dictionary, line: &str, lang: &str, spans: &Vec<(usize, usize)>) -> (res: usize)
    requires
        spans_well_formed(line@, spans@),
    ensures
        res == spans_syllables(dict@, line@, lang@, spans@, spans@.len() as int),
{
    let line_idx = TextIndex::new(line);
    let ghost ls = line@;
    let mut sum: usize = 0;
    let mut k: usize = 0;
    while k < spans.len()
        invariant
            line_idx.describes(ls),
            ls == line@,
            spans_well_formed(ls, spans@),
            k <= spans.len(),
            sum == spans_syllables(dict@, ls, lang@, spans@, k as int),
        decreases spans.len() - k,
    {
        let span = spans[k];
        proof {
            assert(spans_well_formed(ls, seq![span])) by {
                assert(seq![span][0] == spans@[k as int]);
            }
        }
        let (a, b) = span_chars(&line_idx, span);
        let word = string_from_chars(&line_idx.chars, a, b);
        let n = count_syllables_word(dict, word.as_str(), lang);
        sum = sum.wrapping_add(n);
        k = k + 1;
    }
    sum
}

/// Counts the syllables of every line of `text` (the pieces between line
/// breaks, one more than there are breaks): each line sums the syllables of
/// its words, the runs of letters in it, counted as `count_syllables_word`
/// does.
pub fn calculate_syllables(dict: &Dictionary, text: &str, lang: &str) -> (res: Vec<usize>)
    ensures
        res@ == line_syllable_counts(dict@, text@, lang@),
        res@.len() == line_ranges(text@).len(),
        res@.len() == newline_count(text@) + 1,
        forall|k: int|
            0 <= k < res@.len() ==> #[trigger] res@[k] == line_syllables(
                dict@,
                text@.subrange(line_ranges(text@)[k].0, line_ranges(text@)[k].1),
                lang@,
            ),
{
    let idx = TextIndex::new(text);
    let ranges = line_ranges_of(&idx.chars);
    let ghost s = text@;
    let mut results: Vec<usize> = Vec::new();
    let mut l: usize = 0;
    while l < ranges.len()
        invariant
            idx.describes(s),
            s == text@,
            utf8_len(s) <= usize::MAX,
            ranges@.len() == line_ranges(s).len(),
            forall|k: int|
                0 <= k < ranges@.len() ==> (#[trigger] ranges@[k]).0 == line_ranges(s)[k].0 && ranges@[k].1
                    == line_ranges(s)[k].1 && ranges@[k].0 <= ranges@[k].1 <= s.len(),
            l <= ranges.len(),
            results@.len() == l,
            forall|k: int|
                0 <= k < l ==> #[trigger] results@[k] == line_syllables(
                    dict@,
                    s.subrange(line_ranges(s)[k].0, line_ranges(s)[k].1),
                    lang@,
                ),
        decreases ranges.len() - l,
    {
        let (from, to) = ranges[l];
        let line = string_from_chars(&idx.chars, from, to);
        proof {
            lemma_utf8_len_subrange(s, from as int, to as int);
        }
        let sum = match find_match_spans("[\\p{L}]+", line.as_str()) {
            Some(spans) => words_syllables(dict, line.as_str(), lang, &spans),
            None => 0,
        };
        results.push(sum);
        l = l + 1;
    }
    proof {
        lemma_line_count(s);
        assert(results@ =~= line_syllable_counts(dict@, s, lang@));
    }
    results
}


/// One highlighted word of a text: the word, its character range, the
/// colour of its strongest match (`moss-green`, `yellow` or `purple`) and
/// the number of the matching pair it was highlighted by.
pub struct HighlightMatch {
    pub word: String,
    pub start: usize,
    pub end: usize,
    pub match_type: String,
    pub group_id: usize,
}

impl View for HighlightMatch {
    type V = SpecHighlight;

    open spec fn view(&self) -> SpecHighlight {
        SpecHighlight {
            word: self.word@,
            start: self.start,
            end: self.end,
            match_type: self.match_type@,
            group_id: self.group_id,
        }
    }
}

/// The highlights of a text, ordered by start.
pub struct RhymeAnalysisResult {
    pub matches: Vec<HighlightMatch>,
}

/// A word found as a rhyme, with its (upper-case) language.
pub struct RhymeWord {
    pub word: String,
    pub lang: String,
}

/// The rhymes that have one syllable count.
pub struct RhymeResultGrouped {
    pub syllables: usize,
    pub words: Vec<RhymeWord>,
}

/// The most words that one syllable group lists.
pub const GROUP_LIMIT: usize = 50;

/// The model of a group: its syllable count and its (word, language)
/// pairs.
pub open spec fn group_view(g: RhymeResultGrouped) -> (usize, Seq<(Seq<char>, Seq<char>)>) {
    (g.syllables, g.words@.map_values(|w: RhymeWord| (w.word@, w.lang@)))
}

/// The syllable count of every found rhyme, counted in language `lang`.
pub open spec fn rhyme_syllables(d: Seq<EntryView>, rhymes: Seq<(Seq<char>, Seq<char>)>, lang: Seq<char>) -> Seq<usize> {
    rhymes.map_values(|r: (Seq<char>, Seq<char>)| syllable_count(d, r.0, lang))
}

/// The rhymes among the first `n` whose syllable count is `key`, in order.
pub open spec fn group_members(
    rhymes: Seq<(Seq<char>, Seq<char>)>,
    counts: Seq<usize>,
    key: usize,
    n: int,
) -> Seq<(Seq<char>, Seq<char>)>
    decreases n,
{
    if n <= 0 {
        Seq::empty()
    } else {
        let p = group_members(rhymes, counts, key, n - 1);
        if counts[n - 1] == key {
            p.push(rhymes[n - 1])
        } else {
            p
        }
    }
}

/// The first `n` elements of `m`, or all of them where there are fewer.
pub open spec fn at_most<A>(m: Seq<A>, n: int) -> Seq<A> {
    if m.len() > n {
        m.take(n)
    } else {
        m
    }
}

/// The syllable counts of a list of groups.
pub open spec fn group_keys(groups: Seq<(usize, Seq<(Seq<char>, Seq<char>)>)>) -> Seq<usize> {
    groups.map_values(|g: (usize, Seq<(Seq<char>, Seq<char>)>)| g.0)
}

/// `groups` groups `rhymes` by syllable count: one group per count that
/// occurs, in ascending order of count, each with the first `GROUP_LIMIT`
/// rhymes of that count in search order.
pub open spec fn is_grouping(
    rhymes: Seq<(Seq<char>, Seq<char>)>,
    counts: Seq<usize>,
    groups: Seq<(usize, Seq<(Seq<char>, Seq<char>)>)>,
) -> bool {
    &&& forall|a: int, b: int| 0 <= a < b < groups.len() ==> (#[trigger] groups[a]).0 < (#[trigger] groups[b]).0
    &&& forall|g: int| 0 <= g < groups.len() ==> #[trigger] counts.contains(groups[g].0)
    &&& forall|k: int| 0 <= k < counts.len() ==> #[trigger] group_keys(groups).contains(counts[k])
    &&& forall|g: int|
        0 <= g < groups.len() ==> (#[trigger] groups[g]).1 == at_most(
            group_members(rhymes, counts, groups[g].0, rhymes.len() as int),
            GROUP_LIMIT as int,
        )
}

/// A rhyme with syllable count `key` among the first `n` is a member of
/// that count's group.
proof fn lemma_group_member(rhymes: Seq<(Seq<char>, Seq<char>)>, counts: Seq<usize>, key: usize, n: int, k: int)
    requires
        0 <= k < n,
        counts[k] == key,
    ensures
        group_members(rhymes, counts, key, n).contains(rhymes[k]),
    decreases n,
{
    let p = group_members(rhymes, counts, key, n - 1);
    if k < n - 1 {
        lemma_group_member(rhymes, counts, key, n - 1, k);
        let i = choose|i: int| 0 <= i < p.len() && p[i] == rhymes[k];
        if counts[n - 1] == key {
            assert(p.push(rhymes[n - 1])[i] == rhymes[k]);
        }
    } else {
        assert(p.push(rhymes[k])[p.len() as int] == rhymes[k]);
    }
}

/// Every found rhyme is listed in the group of its syllable count, unless
/// that group is already full.
pub proof fn lemma_every_rhyme_is_grouped(
    rhymes: Seq<(Seq<char>, Seq<char>)>,
    counts: Seq<usize>,
    groups: Seq<(usize, Seq<(Seq<char>, Seq<char>)>)>,
    k: int,
)
    requires
        is_grouping(rhymes, counts, groups),
        counts.len() == rhymes.len(),
        0 <= k < rhymes.len(),
    ensures
        exists|g: int|
            0 <= g < groups.len() && (#[trigger] groups[g]).0 == counts[k] && (groups[g].1.contains(rhymes[k])
                || groups[g].1.len() == GROUP_LIMIT),
{
    assert(group_keys(groups).contains(counts[k]));
    let g = choose|g: int| 0 <= g < group_keys(groups).len() && group_keys(groups)[g] == counts[k];
    assert(groups[g].0 == counts[k]);
    lemma_group_member(rhymes, counts, counts[k], rhymes.len() as int, k);
    let m = group_members(rhymes, counts, counts[k], rhymes.len() as int);
    if m.len() <= GROUP_LIMIT {
        assert(groups[g].1 == m);
    } else {
        assert(groups[g].1 == m.take(GROUP_LIMIT as int));
    }
}

/// The distinct values of `counts`, ascending.
fn distinct_ascending(counts: &Vec<usize>) -> (keys: Vec<usize>)
    ensures
        forall|a: int, b: int| 0 <= a < b < keys@.len() ==> (#[trigger] keys@[a]) < (#[trigger] keys@[b]),
        forall|g: int| 0 <= g < keys@.len() ==> #[trigger] counts@.contains(keys@[g]),
        forall|k: int| 0 <= k < counts@.len() ==> #[trigger] keys@.contains(counts@[k]),
{
    let mut keys: Vec<usize> = Vec::new();
    loop
        invariant
            forall|a: int, b: int| 0 <= a < b < keys@.len() ==> (#[trigger] keys@[a]) < (#[trigger] keys@[b]),
            forall|g: int| 0 <= g < keys@.len() ==> #[trigger] counts@.contains(keys@[g]),
            forall|k: int|
                0 <= k < counts@.len() && !keys@.contains(#[trigger] counts@[k]) && keys@.len() > 0 ==> counts@[k]
                    > keys@.last(),
            keys@.len() <= counts@.len(),
        decreases counts@.len() - keys@.len(),
    {
        let mut best: Option<usize> = None;
        let mut i: usize = 0;
        while i < counts.len()
            invariant
                i <= counts.len(),
                best matches Some(b) ==> counts@.contains(b) && (keys@.len() > 0 ==> b > keys@.last()),
                forall|q: int|
                    0 <= q < i && (keys@.len() > 0 ==> counts@[q] > keys@.last()) ==> (best matches Some(b)
                        && b <= #[trigger] counts@[q]),
            decreases counts.len() - i,
        {
            let c = counts[i];
            let after = keys.len() == 0 || c > keys[keys.len() - 1];
            if after {
                match best {
                    None => {
                        best = Some(c);
                    },
                    Some(b) => {
                        if c < b {
                            best = Some(c);
                        }
                    },
                }
            }
            i = i + 1;
        }
        match best {
            None => {
                assert forall|k: int| 0 <= k < counts@.len() implies #[trigger] keys@.contains(counts@[k]) by {
                    if !keys@.contains(counts@[k]) {
                        if keys@.len() > 0 {
                            assert(counts@[k] > keys@.last());
                        }
                    }
                }
                return keys;
            },
            Some(b) => {
                let ghost old_keys = keys@;
                proof {
                    assert(!old_keys.contains(b)) by {
                        if old_keys.contains(b) {
                            let j = choose|j: int| 0 <= j < old_keys.len() && old_keys[j] == b;
                            if j < old_keys.len() - 1 {
                                assert(old_keys[j] < old_keys[old_keys.len() - 1]);
                            }
                        }
                    }
                    lemma_distinct_bound(counts@, old_keys, b);
                }
                keys.push(b);
                proof {
                    assert forall|k: int|
                        0 <= k < counts@.len() && !keys@.contains(#[trigger] counts@[k]) && keys@.len() > 0
                        implies counts@[k] > keys@.last() by {
                        assert(keys@[keys@.len() - 1] == b);
                        assert(!old_keys.contains(counts@[k])) by {
                            if old_keys.contains(counts@[k]) {
                                let j = choose|j: int| 0 <= j < old_keys.len() && old_keys[j] == counts@[k];
                                assert(keys@[j] == counts@[k]);
                            }
                        }
                    }
                    assert forall|g: int| 0 <= g < keys@.len() implies #[trigger] counts@.contains(keys@[g]) by {
                        if g < old_keys.len() {
                            assert(keys@[g] == old_keys[g]);
                        }
                    }
                }
            },
        }
    }
}

/// Distinct values drawn from `counts`, together with one more value of
/// `counts`, are no more than `counts` has elements.
proof fn lemma_distinct_bound(counts: Seq<usize>, keys: Seq<usize>, b: usize)
    requires
        forall|a: int, c: int| 0 <= a < c < keys.len() ==> (#[trigger] keys[a]) < (#[trigger] keys[c]),
        forall|g: int| 0 <= g < keys.len() ==> #[trigger] counts.contains(keys[g]),
        counts.contains(b),
        !keys.contains(b),
    ensures
        keys.len() + 1 <= counts.len(),
{
    let all = keys.push(b);
    assert forall|a: int, c: int| 0 <= a < c < all.len() implies all[a] != all[c] by {
        if c == all.len() - 1 {
            assert(all[c] == b);
            assert(keys.contains(all[a]) ==> all[a] != b);
            assert(keys[a] == all[a]);
        } else {
            assert(keys[a] < keys[c]);
        }
    }
    assert(all.no_duplicates());
    assert forall|x: usize| all.to_set().contains(x) implies counts.to_set().contains(x) by {
        let j = choose|j: int| 0 <= j < all.len() && all[j] == x;
        if j < keys.len() {
            assert(keys[j] == x);
            assert(counts.contains(keys[j]));
        }
    }
    all.unique_seq_to_set();
    counts.lemma_cardinality_of_set();
    vstd::set_lib::lemma_len_subset(all.to_set(), counts.to_set());
}

/// Groups the rhymes `rhymes` by their syllable count in `lang`.
fn group_rhymes(dict: &Dictionary, rhymes: &Vec<(String, String)>, lang: &str) -> (res: Vec<RhymeResultGrouped>)
    ensures
        is_grouping(
            pairs_view(rhymes@),
            rhyme_syllables(dict@, pairs_view(rhymes@), lang@),
            res@.map_values(|g: RhymeResultGrouped| group_view(g)),
        ),
{
    let ghost rv = pairs_view(rhymes@);
    let mut counts: Vec<usize> = Vec::new();
    let mut i: usize = 0;
    while i < rhymes.len()
        invariant
            rv == pairs_view(rhymes@),
            i <= rhymes.len(),
            counts@.len() == i,
            forall|k: int| 0 <= k < i ==> #[trigger] counts@[k] == syllable_count(dict@, rv[k].0, lang@),
        decreases rhymes.len() - i,
    {
        assert(rv[i as int].0 == rhymes@[i as int].0@);
        let n = count_syllables_word(dict, rhymes[i].0.as_str(), lang);
        counts.push(n);
        i = i + 1;
    }
    let ghost cv = rhyme_syllables(dict@, rv, lang@);
    assert(counts@ =~= cv);
    let keys = distinct_ascending(&counts);
    let mut groups: Vec<RhymeResultGrouped> = Vec::new();
    let mut g: usize = 0;
    while g < keys.len()
        invariant
            rv == pairs_view(rhymes@),
            counts@ == cv,
            cv.len() == rv.len(),
            rhymes@.len() == rv.len(),
            g <= keys.len(),
            groups@.len() == g,
            forall|a: int| 0 <= a < g ==> (#[trigger] groups@[a]).syllables == keys@[a],
            forall|a: int|
                0 <= a < g ==> #[trigger] group_view(groups@[a]).1 == at_most(
                    group_members(rv, cv, keys@[a], rv.len() as int),
                    GROUP_LIMIT as int,
                ),
        decreases keys.len() - g,
    {
        let key = keys[g];
        let mut words: Vec<RhymeWord> = Vec::new();
        let mut k: usize = 0;
        while k < rhymes.len()
            invariant
                rv == pairs_view(rhymes@),
                counts@ == cv,
                cv.len() == rv.len(),
                rhymes@.len() == rv.len(),
                k <= rhymes.len(),
                words@.map_values(|w: RhymeWord| (w.word@, w.lang@)) == at_most(
                    group_members(rv, cv, key, k as int),
                    GROUP_LIMIT as int,
                ),
            decreases rhymes.len() - k,
        {
            let ghost before = words@.map_values(|w: RhymeWord| (w.word@, w.lang@));
            let ghost m = group_members(rv, cv, key, k as int);
            if counts[k] == key {
                if words.len() < GROUP_LIMIT {
                    let w = RhymeWord { word: rhymes[k].0.clone(), lang: rhymes[k].1.clone() };
                    words.push(w);
                    proof {
                        assert(rv[k as int] == (rhymes@[k as int].0@, rhymes@[k as int].1@));
                        assert(words@.map_values(|w: RhymeWord| (w.word@, w.lang@)) =~= before.push(rv[k as int]));
                        assert(m.len() <= GROUP_LIMIT);
                        assert(at_most(m.push(rv[k as int]), GROUP_LIMIT as int) =~= m.push(rv[k as int]));
                    }
                } else {
                    proof {
                        assert(m.len() >= GROUP_LIMIT);
                        assert(m.push(rv[k as int]).take(GROUP_LIMIT as int) =~= m.take(GROUP_LIMIT as int));
                    }
                }
            }
            k = k + 1;
        }
        let ghost wv = words@.map_values(|w: RhymeWord| (w.word@, w.lang@));
        let ghost old_groups = groups@;
        groups.push(RhymeResultGrouped { syllables: key, words });
        proof {
            assert(group_view(groups@[g as int]).1 == wv);
            assert forall|a: int|
                0 <= a < g + 1 implies #[trigger] group_view(groups@[a]).1 == at_most(
                group_members(rv, cv, keys@[a], rv.len() as int),
                GROUP_LIMIT as int,
            ) by {
                if a < g {
                    assert(groups@[a] == old_groups[a]);
                }
            }
        }
        g = g + 1;
    }
    proof {
        let gv = groups@.map_values(|x: RhymeResultGrouped| group_view(x));
        assert forall|k: int| 0 <= k < cv.len() implies #[trigger] group_keys(gv).contains(cv[k]) by {
            assert(keys@.contains(counts@[k]));
            let q = choose|q: int| 0 <= q < keys@.len() && keys@[q] == counts@[k];
            assert(gv[q].0 == keys@[q]);
            assert(group_keys(gv)[q] == cv[k]);
        }
        assert forall|a: int, b: int| 0 <= a < b < gv.len() implies (#[trigger] gv[a]).0 < (#[trigger] gv[b]).0 by {
            assert(gv[a].0 == keys@[a] && gv[b].0 == keys@[b]);
        }
        assert forall|q: int| 0 <= q < gv.len() implies #[trigger] cv.contains(gv[q].0) by {
            assert(gv[q].0 == keys@[q]);
            assert(counts@.contains(keys@[q]));
        }
        assert forall|q: int| 0 <= q < gv.len() implies (#[trigger] gv[q]).1 == at_most(
            group_members(rv, cv, gv[q].0, rv.len() as int),
            GROUP_LIMIT as int,
        ) by {
            assert(gv[q] == group_view(groups@[q]));
        }
        assert(is_grouping(rv, cv, gv));
    }
    groups
}

/// Finds rhymes for `word` as `get_all_rhymes` does (with `lang` as the
/// language filter) and groups them by their syllable count in `lang`:
/// one group per count that occurs, in ascending order of count, each
/// holding at most `GROUP_LIMIT` words in the order of the search. Every
/// row the search returns must have a language.
pub fn find_rhymes_for_word(dict: &Dictionary, word: &str, mode: &str, lang: &str) -> (res: Vec<RhymeResultGrouped>)
    requires
        rhyme_languages_present(dict@, word@, mode@, lang@),
    ensures
        exists|rhymes: Seq<(Seq<char>, Seq<char>)>|
            #[trigger] is_rhyme_search_result(dict@, word@, mode@, lang@, rhymes) && is_grouping(
                rhymes,
                rhyme_syllables(dict@, rhymes, lang@),
                res@.map_values(|g: RhymeResultGrouped| group_view(g)),
            ),
{
    let rhymes = get_all_rhymes(dict, word, mode, lang);
    group_rhymes(dict, &rhymes, lang)
}

/// `find_rhymes_for_word` where every row the search returns has a
/// language; `None` where one of them has none.
pub fn try_find_rhymes_for_word(dict: &Dictionary, word: &str, mode: &str, lang: &str) -> (res: Option<Vec<RhymeResultGrouped>>)
    ensures
        match res {
            Some(groups) => rhyme_languages_present(dict@, word@, mode@, lang@) && exists|rhymes: Seq<(Seq<char>, Seq<char>)>|
                #[trigger] is_rhyme_search_result(dict@, word@, mode@, lang@, rhymes) && is_grouping(
                    rhymes,
                    rhyme_syllables(dict@, rhymes, lang@),
                    groups@.map_values(|g: RhymeResultGrouped| group_view(g)),
                ),
            None => !rhyme_languages_present(dict@, word@, mode@, lang@),
        },
{
    match try_get_all_rhymes(dict, word, mode, lang) {
        Some(rhymes) => Some(group_rhymes(dict, &rhymes, lang)),
        None => None,
    }
}


/// The models of a list of highlights.
pub open spec fn highlights_view(v: Seq<HighlightMatch>) -> Seq<SpecHighlight> {
    v.map_values(|h: HighlightMatch| h@)
}

/// The starts of a list of highlights.
pub open spec fn highlight_starts(v: Seq<SpecHighlight>) -> Seq<usize> {
    v.map_values(|h: SpecHighlight| h.start)
}

/// `matches` is the highlighting of `s`: for every word start that some
/// matching pair offered a highlight for, the first highlight of the
/// highest priority offered, listed in ascending order of start.
pub open spec fn is_highlighting(d: Seq<EntryView>, s: Seq<char>, lang: Seq<char>, matches: Seq<SpecHighlight>) -> bool {
    is_highlighting_in(d, s, text_segmentation(s), lang, matches)
}

/// `matches` is the highlighting of `s` split into words as `g` says: for
/// every word start that some matching pair offered a highlight for, the
/// first highlight of the highest priority offered, listed in ascending
/// order of start.
pub open spec fn is_highlighting_in(
    d: Seq<EntryView>,
    s: Seq<char>,
    g: Segmentation,
    lang: Seq<char>,
    matches: Seq<SpecHighlight>,
) -> bool {
    let m = best_highlights(d, s, g, lang);
    &&& forall|a: int, b: int| 0 <= a < b < matches.len() ==> (#[trigger] matches[a]).start < (#[trigger] matches[b]).start
    &&& forall|a: int|
        0 <= a < matches.len() ==> m.dom().contains((#[trigger] matches[a]).start) && m[matches[a].start].1
            == matches[a]
    &&& forall|key: usize| #[trigger] m.dom().contains(key) ==> highlight_starts(matches).contains(key)
}

/// Two strictly ascending sequences with the same elements are equal.
proof fn lemma_ascending_unique(a: Seq<usize>, b: Seq<usize>)
    requires
        forall|i: int, j: int| 0 <= i < j < a.len() ==> (#[trigger] a[i]) < (#[trigger] a[j]),
        forall|i: int, j: int| 0 <= i < j < b.len() ==> (#[trigger] b[i]) < (#[trigger] b[j]),
        forall|x: usize| a.contains(x) <==> b.contains(x),
    ensures
        a == b,
    decreases a.len(),
{
    if a.len() == 0 {
        if b.len() > 0 {
            assert(b.contains(b[0]));
        }
        assert(a =~= b);
    } else if b.len() == 0 {
        assert(a.contains(a[0]));
    } else {
        assert(a.contains(a[0]));
        assert(b.contains(b[0]));
        let p = choose|p: int| 0 <= p < b.len() && b[p] == a[0];
        let q = choose|q: int| 0 <= q < a.len() && a[q] == b[0];
        if p > 0 {
            assert(b[0] < b[p]);
        }
        if q > 0 {
            assert(a[0] < a[q]);
        }
        assert(a[0] == b[0]);
        let a2 = a.drop_first();
        let b2 = b.drop_first();
        assert forall|x: usize| a2.contains(x) <==> b2.contains(x) by {
            if a2.contains(x) {
                let i = choose|i: int| 0 <= i < a2.len() && a2[i] == x;
                assert(a[0] < a[i + 1]);
                assert(a.contains(a[i + 1]));
                let j = choose|j: int| 0 <= j < b.len() && b[j] == x;
                assert(j != 0);
                assert(b2[j - 1] == x);
            }
            if b2.contains(x) {
                let i = choose|i: int| 0 <= i < b2.len() && b2[i] == x;
                assert(b[0] < b[i + 1]);
                assert(b.contains(b[i + 1]));
                let j = choose|j: int| 0 <= j < a.len() && a[j] == x;
                assert(j != 0);
                assert(a2[j - 1] == x);
            }
        }
        lemma_ascending_unique(a2, b2);
        assert(a =~= b) by {
            assert forall|i: int| 0 <= i < a.len() implies a[i] == b[i] by {
                if i > 0 {
                    assert(a[i] == a2[i - 1]);
                    assert(b[i] == b2[i - 1]);
                }
            }
        }
    }
}

/// Highlighting is a function of the dictionary, the text and the
/// language: two highlightings of the same text are the same list.
pub proof fn lemma_highlighting_unique(
    d: Seq<EntryView>,
    s: Seq<char>,
    lang: Seq<char>,
    m1: Seq<SpecHighlight>,
    m2: Seq<SpecHighlight>,
)
    requires
        is_highlighting(d, s, lang, m1),
        is_highlighting(d, s, lang, m2),
    ensures
        m1 == m2,
{
    let m = best_highlights(d, s, text_segmentation(s), lang);
    let a = highlight_starts(m1);
    let b = highlight_starts(m2);
    assert forall|i: int, j: int| 0 <= i < j < a.len() implies (#[trigger] a[i]) < (#[trigger] a[j]) by {
        assert(m1[i].start < m1[j].start);
    }
    assert forall|i: int, j: int| 0 <= i < j < b.len() implies (#[trigger] b[i]) < (#[trigger] b[j]) by {
        assert(m2[i].start < m2[j].start);
    }
    assert forall|x: usize| a.contains(x) <==> b.contains(x) by {
        if a.contains(x) {
            let i = choose|i: int| 0 <= i < a.len() && a[i] == x;
            assert(m.dom().contains(m1[i].start));
        }
        if b.contains(x) {
            let i = choose|i: int| 0 <= i < b.len() && b[i] == x;
            assert(m.dom().contains(m2[i].start));
        }
    }
    lemma_ascending_unique(a, b);
    assert forall|i: int| 0 <= i < m1.len() implies m1[i] == m2[i] by {
        assert(a[i] == m1[i].start);
        assert(b[i] == m2[i].start);
        assert(m.dom().contains(m1[i].start));
        assert(m.dom().contains(m2[i].start));
    }
    assert(m1.len() == a.len() && m2.len() == b.len());
    assert(m1 =~= m2);
}

/// Finds rhymes, assonances and shared vowel sounds between the words (runs
/// of letters) of `text` and reports, for every word that takes part in
/// one, its strongest match. Two words are compared when they lie at most
/// four lines apart (line numbers compared as 32-bit integers with
/// wrap-around, as `lines_far_apart` says) and the dictionary (in `lang`) knows both with a rhyme
/// part. A pure rhyme (same rhyme part) is moss green when either word ends
/// its line and purple, as an inner rhyme, otherwise, and counts for stop words only when
/// both end their lines; without stop words, an assonance (same vowels,
/// other rhyme part) is yellow and a shared sound of two or more vowels is
/// purple. An inner rhyme still outranks an assonance, which outranks a
/// vowel sound. Every matching pair gets the next group number, counted from 1;
/// a word keeps the first of its matches of highest priority. Positions are
/// character indices; the matches come ordered by start.
pub fn analyze_rhymes(dict: &Dictionary, text: &str, lang: &str) -> (res: RhymeAnalysisResult)
    ensures
        is_highlighting(dict@, text@, lang@, highlights_view(res.matches@)),
{
    let idx = TextIndex::new(text);
    let spans = match find_match_spans("[\\p{L}]+", text) {
        Some(v) => v,
        None => {
            let v: Vec<(usize, usize)> = Vec::new();
            assert(spans_well_formed(text@, v@));
            v
        },
    };
    let ranges = line_ranges_of(&idx.chars);
    let ghost s = text@;
    let mut line_words: Vec<Vec<(usize, usize)>> = Vec::new();
    let mut l: usize = 0;
    while l < ranges.len()
        invariant
            s == text@,
            idx.describes(s),
            ranges@.len() == line_ranges(s).len(),
            forall|k: int|
                0 <= k < ranges@.len() ==> (#[trigger] ranges@[k]).0 == line_ranges(s)[k].0 && ranges@[k].1
                    == line_ranges(s)[k].1 && ranges@[k].0 <= ranges@[k].1 <= s.len(),
            l <= ranges.len(),
            line_words@.len() == l,
            forall|k: int|
                0 <= k < l ==> (#[trigger] line_words@[k])@ == word_matches(
                    s.subrange(line_ranges(s)[k].0, line_ranges(s)[k].1),
                ) && spans_well_formed(s.subrange(line_ranges(s)[k].0, line_ranges(s)[k].1), line_words@[k]@),
        decreases ranges.len() - l,
    {
        let (a, b) = ranges[l];
        let line = string_from_chars(&idx.chars, a, b);
        let found = match find_match_spans("[\\p{L}]+", line.as_str()) {
            Some(v) => v,
            None => {
                let v: Vec<(usize, usize)> = Vec::new();
                assert(spans_well_formed(line@, v@));
                v
            },
        };
        line_words.push(found);
        l = l + 1;
    }
    proof {
        let g = segmentation_of(spans@, line_words@);
        assert(g.line_words =~= text_segmentation(s).line_words);
        assert(g == text_segmentation(s));
        assert forall|k: int| 0 <= k < g.line_words.len() implies spans_well_formed(
            s.subrange(line_ranges(s)[k].0, line_ranges(s)[k].1),
            #[trigger] g.line_words[k],
        ) by {
            assert(g.line_words[k] == line_words@[k]@);
        }
    }
    analyze_rhymes_in(dict, text, lang, &spans, &line_words)
}

/// Highlights the rhymes of `text` as `analyze_rhymes` does, with the text
/// split into words as `spans` (the words of the whole text) and
/// `line_words` (the words of every line, each relative to its line) say.
pub fn analyze_rhymes_in(
    dict: &Dictionary,
    text: &str,
    lang: &str,
    spans: &Vec<(usize, usize)>,
    line_words: &Vec<Vec<(usize, usize)>>,
) -> (res: RhymeAnalysisResult)
    requires
        is_segmentation(text@, segmentation_of(spans@, line_words@)),
    ensures
        is_highlighting_in(dict@, text@, segmentation_of(spans@, line_words@), lang@, highlights_view(res.matches@)),
{
    let ghost g = segmentation_of(spans@, line_words@);
    let idx = TextIndex::new(text);
    let ranges = line_ranges_of(&idx.chars);
    let flags = line_end_flags(text, &idx, &ranges, spans, line_words);
    let words = words_of(dict, text, lang, &idx, spans, &flags, Ghost(g));
    let best = best_highlights_exec(&words, Ghost(dict@), Ghost(text@), Ghost(g), Ghost(lang@));
    let ghost m = best_highlights(dict@, text@, g, lang@);
    let mut matches: Vec<HighlightMatch> = Vec::new();
    let mut k: usize = 0;
    while k < best.len()
        invariant
            represents(best@, m),
            k <= best.len(),
            matches@.len() == k,
            forall|a: int| 0 <= a < k ==> (#[trigger] matches@[a])@ == best@[a].2@,
        decreases best.len() - k,
    {
        matches.push(copy_highlight(&best[k].2));
        k = k + 1;
    }
    proof {
        let hv = highlights_view(matches@);
        assert forall|a: int| 0 <= a < hv.len() implies #[trigger] hv[a] == best@[a].2@ && hv[a].start == best@[a].0 by {
            assert(m.dom().contains(best@[a].0) && m[best@[a].0] == (best@[a].1, best@[a].2@));
            assert(m[best@[a].0].1.start == best@[a].0) by {
                lemma_best_keys_are_starts(dict@, text@, g, lang@, best@[a].0);
            }
        }
        assert forall|a: int, b: int| 0 <= a < b < hv.len() implies (#[trigger] hv[a]).start < (#[trigger] hv[b]).start by {
            assert(hv[a].start == best@[a].0 && hv[b].start == best@[b].0);
        }
        assert forall|key: usize| #[trigger] m.dom().contains(key) implies highlight_starts(hv).contains(key) by {
            assert(kept_keys(best@).contains(key));
            let a = choose|a: int| 0 <= a < kept_keys(best@).len() && kept_keys(best@)[a] == key;
            assert(highlight_starts(hv)[a] == hv[a].start);
        }
    }
    RhymeAnalysisResult { matches }
}

} // verus!
