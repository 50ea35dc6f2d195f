//! The model of rhyme highlighting: the words of a text, what is known of
//! each, which pairs of words match, and the best match kept per word.

use vstd::prelude::*;
use crate::dictionary::{Dictionary, EntryView};
use crate::layout::{
    char_index_of, lemma_byte_offset_bounded, lemma_utf8_len_subrange, line_ranges, newline_count, TextIndex,
};
use crate::pattern::{regex_matches, spans_well_formed};
use crate::phonetics::{
    classify, classify_profiles, is_stop_word, kind_name, kind_priority, phonetic_profile, profile_of, profile_view, stop_words,
    MatchKind, PhoneticProfile, Profile,
};
use crate::text::{byte_offset, lower_form, str_chars, string_from_chars, to_lowercase, utf8_len};
use crate::linguistics::{span_chars, span_text, word_pattern, HighlightMatch};
use vstd::string::StringExecFns;

verus! {

/// How a text splits into words: the byte ranges of its words (the
/// matches of the word pattern in the whole text), and for every line the
/// byte ranges of the words within that line.
pub struct Segmentation {
    pub words: Seq<(usize, usize)>,
    pub line_words: Seq<Seq<(usize, usize)>>,
}

/// The matches of the word pattern in `s`; none where the pattern does not
/// compile.
pub open spec fn word_matches(s: Seq<char>) -> Seq<(usize, usize)> {
    match regex_matches(word_pattern(), s) {
        Some(v) => v,
        None => Seq::empty(),
    }
}

/// The segmentation of `s` that the word pattern gives: its matches in the
/// whole text and in every line.
pub open spec fn text_segmentation(s: Seq<char>) -> Segmentation {
    Segmentation {
        words: word_matches(s),
        line_words: Seq::new(
            line_ranges(s).len(),
            |l: int| word_matches(s.subrange(line_ranges(s)[l].0, line_ranges(s)[l].1)),
        ),
    }
}

/// `g` is a segmentation of `s`: one list of words per line, and every list
/// made of ordered, non-overlapping ranges on character boundaries of the
/// text or line it belongs to.
pub open spec fn is_segmentation(s: Seq<char>, g: Segmentation) -> bool {
    &&& spans_well_formed(s, g.words)
    &&& g.line_words.len() == line_ranges(s).len()
    &&& forall|l: int|
        0 <= l < g.line_words.len() ==> spans_well_formed(
            s.subrange(line_ranges(s)[l].0, line_ranges(s)[l].1),
            #[trigger] g.line_words[l],
        )
}

/// The character index at which a byte offset falls, 0 where it falls
/// inside a character.
pub open spec fn char_index_or_zero(s: Seq<char>, b: int) -> int {
    match char_index_of(s, b) {
        Some(k) => k,
        None => 0,
    }
}

/// The byte offset at which the last word of line `l` starts, where the
/// line has a word.
pub open spec fn line_last_word_start(s: Seq<char>, g: Segmentation, l: int) -> Option<int> {
    let r = line_ranges(s)[l];
    let ls = g.line_words[l];
    if ls.len() > 0 {
        Some(byte_offset(s, r.0) + ls.last().0)
    } else {
        None
    }
}

/// The index of the first of the first `n` spans that starts at byte `b`.
pub open spec fn first_span_at(spans: Seq<(usize, usize)>, b: int, n: int) -> Option<int>
    decreases n,
{
    if n <= 0 {
        None
    } else {
        match first_span_at(spans, b, n - 1) {
            Some(k) => Some(k),
            None => if spans[n - 1].0 == b {
                Some(n - 1)
            } else {
                None
            },
        }
    }
}

/// Word `k` of `s` is the last word of one of the first `lines` lines.
pub open spec fn ends_a_line_before(s: Seq<char>, g: Segmentation, k: int, lines: int) -> bool {
    exists|l: int|
        0 <= l < lines && match #[trigger] line_last_word_start(s, g, l) {
            Some(b) => first_span_at(g.words, b, g.words.len() as int) == Some(k),
            None => false,
        }
}

/// Word `k` of `s` is the last word of its line.
pub open spec fn ends_a_line(s: Seq<char>, g: Segmentation, k: int) -> bool {
    ends_a_line_before(s, g, k, line_ranges(s).len() as int)
}

/// What the highlighting knows of one word.
pub struct WordInfo {
    pub start: int,
    pub end: int,
    pub chars: Seq<char>,
    pub line: int,
    pub stop: bool,
    pub line_end: bool,
    pub profile: Option<PhoneticProfile>,
}

/// What the highlighting knows of word `k` of `s`: its character range and
/// text, its line (the line breaks before it), whether its lower-case form
/// is a stop word, whether it ends its line, and its phonetic profile.
#[verifier::opaque]
pub open spec fn word_info(d: Seq<EntryView>, s: Seq<char>, g: Segmentation, lang: Seq<char>, k: int) -> WordInfo {
    let span = g.words[k];
    let start = char_index_or_zero(s, span.0 as int);
    let chars = span_text(s, span);
    WordInfo {
        start,
        end: char_index_or_zero(s, span.1 as int),
        chars,
        line: newline_count(s.take(start)) as int,
        stop: stop_words().contains(lower_form(chars)),
        line_end: ends_a_line(s, g, k),
        profile: phonetic_profile(d, chars, lang),
    }
}

/// Lines `li` and `lj` lie more than four lines apart, with the line
/// numbers taken as `i32` values (truncated) and their difference and its
/// absolute value computed in 32 bits with wrap-around: a difference of
/// `i32::MIN` has itself as absolute value and so counts as near.
pub open spec fn lines_far_apart(li: int, lj: int) -> bool {
    let diff = vstd::wrapping::i32_specs::wrapping_sub(lj as i32, li as i32);
    diff > 4 || (diff < -4 && diff != i32::MIN)
}

/// Far apart means more than four lines apart wherever both line numbers
/// fit an `i32`.
pub proof fn lemma_lines_far_apart_small(li: int, lj: int)
    requires
        0 <= li <= i32::MAX,
        0 <= lj <= i32::MAX,
    ensures
        lines_far_apart(li, lj) <==> (lj - li > 4 || li - lj > 4),
{
}

/// How words `i` and `j` of `s` match: not at all when their lines lie
/// far apart or when either has no profile, else as `classify` says.
#[verifier::opaque]
pub open spec fn pair_outcome(d: Seq<EntryView>, s: Seq<char>, g: Segmentation, lang: Seq<char>, i: int, j: int) -> Option<MatchKind> {
    let a = word_info(d, s, g, lang, i);
    let b = word_info(d, s, g, lang, j);
    if lines_far_apart(a.line, b.line) {
        None
    } else {
        match (a.profile, b.profile) {
            (Some(pa), Some(pb)) => classify(pa, pb, a.stop || b.stop, a.line_end, b.line_end),
            _ => None,
        }
    }
}

/// The matching pairs `(i, j)`, `i < j < n`, that come before `(row, col)`
/// in the order rows first, then columns.
pub open spec fn found_pairs(d: Seq<EntryView>, s: Seq<char>, g: Segmentation, lang: Seq<char>, n: int, row: int, col: int) -> Seq<(int, int)>
    decreases row, col,
{
    if col > 0 {
        let p = found_pairs(d, s, g, lang, n, row, col - 1);
        if 0 <= row < col - 1 && col - 1 < n && pair_outcome(d, s, g, lang, row, col - 1) is Some {
            p.push((row, col - 1))
        } else {
            p
        }
    } else if row > 0 {
        found_pairs(d, s, g, lang, n, row - 1, n)
    } else {
        Seq::empty()
    }
}

/// All matching pairs of the words of `s`, in order.
pub open spec fn all_found_pairs(d: Seq<EntryView>, s: Seq<char>, g: Segmentation, lang: Seq<char>) -> Seq<(int, int)> {
    let n = g.words.len() as int;
    found_pairs(d, s, g, lang, n, n, 0)
}

/// The group number of the `k`-th matching pair: counted from 1, with
/// wrap-around.
pub open spec fn group_id(k: nat) -> usize
    decreases k,
{
    if k == 0 {
        1
    } else {
        vstd::wrapping::usize_specs::wrapping_add(group_id((k - 1) as nat), 1)
    }
}

/// The model of a highlight: word, start, end, colour name, group.
pub struct SpecHighlight {
    pub word: Seq<char>,
    pub start: usize,
    pub end: usize,
    pub match_type: Seq<char>,
    pub group_id: usize,
}

/// The highlight of word `k` in a match of `kind` and group `gid`.
pub open spec fn highlight_of(d: Seq<EntryView>, s: Seq<char>, g: Segmentation, lang: Seq<char>, k: int, kind: MatchKind, gid: usize) -> SpecHighlight {
    let w = word_info(d, s, g, lang, k);
    SpecHighlight {
        word: w.chars,
        start: w.start as usize,
        end: w.end as usize,
        match_type: kind_name(kind),
        group_id: gid,
    }
}

/// The priority that `m` holds for `key`, 0 where it holds none.
pub open spec fn held_priority(m: Map<usize, (u8, SpecHighlight)>, key: usize) -> u8 {
    if m.dom().contains(key) {
        m[key].0
    } else {
        0
    }
}

/// Offers a highlight for `key`: it replaces what `m` holds for `key` only
/// when its priority is strictly higher.
pub open spec fn offer(m: Map<usize, (u8, SpecHighlight)>, key: usize, prio: u8, h: SpecHighlight) -> Map<usize, (u8, SpecHighlight)> {
    if prio > held_priority(m, key) {
        m.insert(key, (prio, h))
    } else {
        m
    }
}

/// The best highlights after the matching pairs `pairs` have been offered
/// in order, each offering the first word's highlight, then the second's.
pub open spec fn best_after(d: Seq<EntryView>, s: Seq<char>, g: Segmentation, lang: Seq<char>, pairs: Seq<(int, int)>) -> Map<usize, (u8, SpecHighlight)>
    decreases pairs.len(),
{
    if pairs.len() == 0 {
        Map::empty()
    } else {
        let m = best_after(d, s, g, lang, pairs.drop_last());
        let (i, j) = pairs.last();
        let kind = pair_outcome(d, s, g, lang, i, j)->0;
        let gid = group_id((pairs.len() - 1) as nat);
        let prio = kind_priority(kind);
        let m1 = offer(m, word_info(d, s, g, lang, i).start as usize, prio, highlight_of(d, s, g, lang, i, kind, gid));
        offer(m1, word_info(d, s, g, lang, j).start as usize, prio, highlight_of(d, s, g, lang, j, kind, gid))
    }
}

/// The best highlight of every highlighted word of `s`, keyed by the
/// word's start.
pub open spec fn best_highlights(d: Seq<EntryView>, s: Seq<char>, g: Segmentation, lang: Seq<char>) -> Map<usize, (u8, SpecHighlight)> {
    best_after(d, s, g, lang, all_found_pairs(d, s, g, lang))
}


/// The index of the first span that starts at byte `b`.
fn first_span_at_exec(spans: &Vec<(usize, usize)>, b: usize) -> (res: Option<usize>)
    ensures
        match res {
            Some(k) => first_span_at(spans@, b as int, spans@.len() as int) == Some(k as int) && k < spans@.len(),
            None => first_span_at(spans@, b as int, spans@.len() as int) is None,
        },
{
    let mut i: usize = 0;
    while i < spans.len()
        invariant
            i <= spans.len(),
            first_span_at(spans@, b as int, i as int) is None,
        decreases spans.len() - i,
    {
        if spans[i].0 == b {
            proof {
                lemma_first_span_prefix(spans@, b as int, (i + 1) as int);
            }
            return Some(i);
        }
        i = i + 1;
    }
    None
}

/// A first match among a prefix of the spans is the first match of all.
proof fn lemma_first_span_prefix(spans: Seq<(usize, usize)>, b: int, n: int)
    requires
        0 <= n <= spans.len(),
        first_span_at(spans, b, n) is Some,
    ensures
        first_span_at(spans, b, spans.len() as int) == first_span_at(spans, b, n),
    decreases spans.len() - n,
{
    if n < spans.len() {
        lemma_first_span_prefix(spans, b, n + 1);
    }
}

/// The segmentation that lists of byte ranges describe.
pub open spec fn segmentation_of(words: Seq<(usize, usize)>, line_words: Seq<Vec<(usize, usize)>>) -> Segmentation {
    Segmentation { words, line_words: line_words.map_values(|v: Vec<(usize, usize)>| v@) }
}

/// For every word of `text`, whether it is the last word of its line.
pub(crate) fn line_end_flags(
    text: &str,
    idx: &TextIndex,
    ranges: &Vec<(usize, usize)>,
    spans: &Vec<(usize, usize)>,
    line_words: &Vec<Vec<(usize, usize)>>,
) -> (flags: Vec<bool>)
    requires
        idx.describes(text@),
        utf8_len(text@) <= usize::MAX,
        ranges@.len() == line_ranges(text@).len(),
        forall|k: int|
            0 <= k < ranges@.len() ==> (#[trigger] ranges@[k]).0 == line_ranges(text@)[k].0 && ranges@[k].1
                == line_ranges(text@)[k].1 && ranges@[k].0 <= ranges@[k].1 <= text@.len(),
        is_segmentation(text@, segmentation_of(spans@, line_words@)),
    ensures
        flags@.len() == spans@.len(),
        forall|k: int|
            0 <= k < flags@.len() ==> #[trigger] flags@[k] == ends_a_line(text@, segmentation_of(spans@, line_words@), k),
{
    let ghost s = text@;
    let ghost g = segmentation_of(spans@, line_words@);
    let mut flags: Vec<bool> = Vec::new();
    let mut k: usize = 0;
    while k < spans.len()
        invariant
            k <= spans.len(),
            flags@.len() == k,
            forall|q: int| 0 <= q < k ==> !(#[trigger] flags@[q]),
        decreases spans.len() - k,
    {
        flags.push(false);
        k = k + 1;
    }
    let mut l: usize = 0;
    while l < ranges.len()
        invariant
            s == text@,
            g == segmentation_of(spans@, line_words@),
            idx.describes(s),
            utf8_len(s) <= usize::MAX,
            ranges@.len() == line_ranges(s).len(),
            forall|k: int|
                0 <= k < ranges@.len() ==> (#[trigger] ranges@[k]).0 == line_ranges(s)[k].0 && ranges@[k].1
                    == line_ranges(s)[k].1 && ranges@[k].0 <= ranges@[k].1 <= s.len(),
            is_segmentation(s, g),
            l <= ranges.len(),
            flags@.len() == spans@.len(),
            forall|q: int| 0 <= q < flags@.len() ==> #[trigger] flags@[q] == ends_a_line_before(s, g, q, l as int),
        decreases ranges.len() - l,
    {
        let (a, b) = ranges[l];
        let ghost ls = s.subrange(a as int, b as int);
        let found = &line_words[l];
        assert(g.line_words[l as int] == found@);
        assert(spans_well_formed(ls, found@));
        let mut hit: Option<usize> = None;
        if found.len() > 0 {
            let last = found[found.len() - 1].0;
            proof {
                let n = found@.len() - 1;
                assert(crate::pattern::is_char_boundary_at(ls, found@[n].0 as int));
                let c = choose|c: int| 0 <= c <= ls.len() && #[trigger] byte_offset(ls, c) == found@[n].0 as int;
                lemma_byte_offset_bounded(ls, c);
                lemma_utf8_len_subrange(s, a as int, b as int);
                lemma_byte_offset_bounded(s, b as int);
                assert(idx.offsets@[a as int] == byte_offset(s, a as int));
            }
            let abs = idx.offsets[a] + last;
            hit = first_span_at_exec(spans, abs);
            proof {
                assert(line_last_word_start(s, g, l as int) == Some(abs as int));
            }
        } else {
            assert(line_last_word_start(s, g, l as int) is None);
        }
        let ghost old_flags = flags@;
        match hit {
            Some(k) => {
                flags.set(k, true);
            },
            None => {},
        }
        proof {
            assert forall|q: int| 0 <= q < flags@.len() implies #[trigger] flags@[q] == ends_a_line_before(s, g, q, l + 1) by {
                if flags@[q] {
                    if !old_flags[q] {
                        assert(hit == Some(q as usize));
                    } else {
                        assert(ends_a_line_before(s, g, q, l as int));
                        let w = choose|w: int|
                            0 <= w < l && match #[trigger] line_last_word_start(s, g, w) {
                                Some(b) => first_span_at(g.words, b, g.words.len() as int) == Some(q),
                                None => false,
                            };
                    }
                } else {
                    if ends_a_line_before(s, g, q, l + 1) {
                        let w = choose|w: int|
                            0 <= w < l + 1 && match #[trigger] line_last_word_start(s, g, w) {
                                Some(b) => first_span_at(g.words, b, g.words.len() as int) == Some(q),
                                None => false,
                            };
                        if w < l {
                            assert(ends_a_line_before(s, g, q, l as int));
                        }
                    }
                }
            }
        }
        l = l + 1;
    }
    flags
}

/// What the highlighting computes of one word.
pub struct WordData {
    pub start: usize,
    pub end: usize,
    pub text: String,
    pub line: usize,
    pub stop: bool,
    pub line_end: bool,
    pub profile: Option<Profile>,
}

/// `w` holds what the model says of word `k`.
pub open spec fn describes_word(w: WordData, d: Seq<EntryView>, s: Seq<char>, g: Segmentation, lang: Seq<char>, k: int) -> bool {
    let info = word_info(d, s, g, lang, k);
    &&& w.start == info.start
    &&& w.end == info.end
    &&& w.text@ == info.chars
    &&& w.line == info.line
    &&& w.stop == info.stop
    &&& w.line_end == info.line_end
    &&& profile_view(w.profile) == info.profile
}

/// What the highlighting needs of every word of `text`.
pub(crate) fn words_of(
    dict: &Dictionary,
    text: &str,
    lang: &str,
    idx: &TextIndex,
    spans: &Vec<(usize, usize)>,
    flags: &Vec<bool>,
    Ghost(g): Ghost<Segmentation>,
) -> (words: Vec<WordData>)
    requires
        idx.describes(text@),
        spans@ == g.words,
        spans_well_formed(text@, spans@),
        flags@.len() == spans@.len(),
        forall|k: int| 0 <= k < flags@.len() ==> #[trigger] flags@[k] == ends_a_line(text@, g, k),
    ensures
        words@.len() == spans@.len(),
        forall|k: int| 0 <= k < words@.len() ==> describes_word(#[trigger] words@[k], dict@, text@, g, lang@, k),
{
    let ghost s = text@;
    let mut words: Vec<WordData> = Vec::new();
    let mut k: usize = 0;
    while k < spans.len()
        invariant
            s == text@,
            idx.describes(s),
            spans@ == g.words,
            spans_well_formed(s, spans@),
            flags@.len() == spans@.len(),
            forall|q: int| 0 <= q < flags@.len() ==> #[trigger] flags@[q] == ends_a_line(s, g, q),
            k <= spans.len(),
            words@.len() == k,
            forall|q: int| 0 <= q < k ==> describes_word(#[trigger] words@[q], dict@, s, g, lang@, q),
        decreases spans.len() - k,
    {
        let span = spans[k];
        proof {
            assert(spans_well_formed(s, seq![span])) by {
                assert(seq![span][0] == spans@[k as int]);
            }
        }
        let (a, b) = span_chars(idx, span);
        let word = string_from_chars(&idx.chars, a, b);
        let lower = to_lowercase(word.as_str());
        let lower_chars = str_chars(lower.as_str());
        let stop = is_stop_word(&lower_chars);
        let profile = profile_of(dict, word.as_str(), lang);
        let line = idx.newlines[a];
        let w = WordData { start: a, end: b, text: word, line, stop, line_end: flags[k], profile };
        proof {
            reveal(word_info);
            assert(idx.offsets@[a as int] == byte_offset(s, a as int));
            assert(idx.newlines@[a as int] == newline_count(s.take(a as int)));
            assert(describes_word(w, dict@, s, g, lang@, k as int));
        }
        words.push(w);
        k = k + 1;
    }
    words
}


/// The starts of a list of kept highlights.
pub open spec fn kept_keys(v: Seq<(usize, u8, HighlightMatch)>) -> Seq<usize> {
    v.map_values(|e: (usize, u8, HighlightMatch)| e.0)
}

/// `v`, ascending by start, holds exactly what `m` holds.
pub open spec fn represents(v: Seq<(usize, u8, HighlightMatch)>, m: Map<usize, (u8, SpecHighlight)>) -> bool {
    &&& forall|a: int, b: int| 0 <= a < b < v.len() ==> (#[trigger] v[a]).0 < (#[trigger] v[b]).0
    &&& forall|a: int|
        0 <= a < v.len() ==> m.dom().contains((#[trigger] v[a]).0) && m[v[a].0] == (v[a].1, v[a].2@)
    &&& forall|key: usize| #[trigger] m.dom().contains(key) ==> kept_keys(v).contains(key)
}

/// Offers highlight `h` for `key` with priority `prio`.
fn offer_exec(
    best: &mut Vec<(usize, u8, HighlightMatch)>,
    key: usize,
    prio: u8,
    h: HighlightMatch,
    Ghost(m): Ghost<Map<usize, (u8, SpecHighlight)>>,
)
    requires
        represents(old(best)@, m),
    ensures
        represents(final(best)@, offer(m, key, prio, h@)),
{
    let ghost v = best@;
    let mut p: usize = 0;
    while p < best.len() && best[p].0 < key
        invariant
            best@ == v,
            p <= best.len(),
            forall|a: int| 0 <= a < p ==> (#[trigger] v[a]).0 < key,
        decreases best.len() - p,
    {
        p = p + 1;
    }
    if p < best.len() && best[p].0 == key {
        proof {
            assert(m.dom().contains(key));
            assert(held_priority(m, key) == v[p as int].1);
        }
        if prio > best[p].1 {
            let ghost hv = h@;
            best.set(p, (key, prio, h));
            proof {
                let m2 = m.insert(key, (prio, hv));
                assert forall|a: int, b: int| 0 <= a < b < best@.len() implies (#[trigger] best@[a]).0 < (#[trigger] best@[b]).0 by {
                    assert(best@[a].0 == v[a].0 && best@[b].0 == v[b].0);
                }
                assert forall|a: int| 0 <= a < best@.len() implies m2.dom().contains((#[trigger] best@[a]).0) && m2[best@[a].0] == (
                    best@[a].1,
                    best@[a].2@,
                ) by {
                    if a != p {
                        assert(best@[a] == v[a]);
                        assert(v[a].0 != key) by {
                            if a < p {
                            } else {
                                assert(v[p as int].0 < v[a].0);
                            }
                        }
                    }
                }
                assert forall|k2: usize| #[trigger] m2.dom().contains(k2) implies kept_keys(best@).contains(k2) by {
                    if k2 == key {
                        assert(kept_keys(best@)[p as int] == key);
                    } else {
                        assert(kept_keys(v).contains(k2));
                        let a = choose|a: int| 0 <= a < kept_keys(v).len() && kept_keys(v)[a] == k2;
                        assert(kept_keys(best@)[a] == k2);
                    }
                }
            }
        }
    } else {
        proof {
            assert(!m.dom().contains(key)) by {
                if m.dom().contains(key) {
                    assert(kept_keys(v).contains(key));
                    let a = choose|a: int| 0 <= a < kept_keys(v).len() && kept_keys(v)[a] == key;
                    assert(v[a].0 == key);
                    if a >= p {
                        if a > p {
                            assert(v[p as int].0 < v[a].0);
                        }
                    }
                }
            }
        }
        if prio > 0 {
            let ghost hv = h@;
            best.insert(p, (key, prio, h));
            proof {
                let m2 = m.insert(key, (prio, hv));
                assert(best@ == v.insert(p as int, (key, prio, h)));
                assert forall|a: int, b: int| 0 <= a < b < best@.len() implies (#[trigger] best@[a]).0 < (#[trigger] best@[b]).0 by {
                    if b < p {
                        assert(best@[a] == v[a] && best@[b] == v[b]);
                    } else if b == p {
                        assert(best@[a] == v[a]);
                    } else if a < p {
                        assert(best@[a] == v[a] && best@[b] == v[b - 1]);
                        assert(v[b - 1].0 > key) by {
                            if b - 1 > p {
                                assert(v[p as int].0 < v[b - 1].0);
                            }
                        }
                    } else if a == p {
                        assert(best@[b] == v[b - 1]);
                        assert(v[b - 1].0 > key) by {
                            if b - 1 > p {
                                assert(v[p as int].0 < v[b - 1].0);
                            }
                        }
                    } else {
                        assert(best@[a] == v[a - 1] && best@[b] == v[b - 1]);
                    }
                }
                assert forall|a: int| 0 <= a < best@.len() implies m2.dom().contains((#[trigger] best@[a]).0) && m2[best@[a].0] == (
                    best@[a].1,
                    best@[a].2@,
                ) by {
                    if a < p {
                        assert(best@[a] == v[a]);
                    } else if a > p {
                        assert(best@[a] == v[a - 1]);
                    }
                }
                assert forall|k2: usize| #[trigger] m2.dom().contains(k2) implies kept_keys(best@).contains(k2) by {
                    if k2 == key {
                        assert(kept_keys(best@)[p as int] == key);
                    } else {
                        assert(kept_keys(v).contains(k2));
                        let a = choose|a: int| 0 <= a < kept_keys(v).len() && kept_keys(v)[a] == k2;
                        if a < p {
                            assert(kept_keys(best@)[a] == k2);
                        } else {
                            assert(kept_keys(best@)[a + 1] == k2);
                        }
                    }
                }
            }
        }
    }
}


/// Before the diagonal a row adds no pairs.
proof fn lemma_found_pairs_row_start(d: Seq<EntryView>, s: Seq<char>, g: Segmentation, lang: Seq<char>, n: int, row: int, col: int)
    requires
        0 <= col <= row + 1,
    ensures
        found_pairs(d, s, g, lang, n, row, col) == found_pairs(d, s, g, lang, n, row, 0),
    decreases col,
{
    if col > 0 {
        lemma_found_pairs_row_start(d, s, g, lang, n, row, col - 1);
    }
}

/// The priority of a match kind.
fn priority_of(k: MatchKind) -> (res: u8)
    ensures
        res == kind_priority(k),
{
    match k {
        MatchKind::MossGreen => 4,
        MatchKind::InnerRhyme => 3,
        MatchKind::Yellow => 2,
        MatchKind::VowelSound => 1,
    }
}

/// The colour name of a match kind.
fn name_of(k: MatchKind) -> (res: String)
    ensures
        res@ == kind_name(k),
{
    match k {
        MatchKind::MossGreen => String::from_str("moss-green"),
        MatchKind::InnerRhyme => String::from_str("purple"),
        MatchKind::Yellow => String::from_str("yellow"),
        MatchKind::VowelSound => String::from_str("purple"),
    }
}

/// How words `i` and `j` match.
fn pair_outcome_exec(words: &Vec<WordData>, i: usize, j: usize, Ghost(d): Ghost<Seq<EntryView>>, Ghost(s): Ghost<Seq<char>>, Ghost(g): Ghost<Segmentation>, Ghost(lang): Ghost<Seq<char>>) -> (res: Option<MatchKind>)
    requires
        i < words@.len(),
        j < words@.len(),
        describes_word(words@[i as int], d, s, g, lang, i as int),
        describes_word(words@[j as int], d, s, g, lang, j as int),
    ensures
        res == pair_outcome(d, s, g, lang, i as int, j as int),
{
    proof {
        reveal(pair_outcome);
    }
    let a = &words[i];
    let b = &words[j];
    let line_a = a.line as i32;
    let line_b = b.line as i32;
    let diff = line_b.wrapping_sub(line_a);
    if diff > 4 || (diff < -4 && diff != i32::MIN) {
        return None;
    }
    match (&a.profile, &b.profile) {
        (Some(pa), Some(pb)) => classify_profiles(pa, pb, a.stop || b.stop, a.line_end, b.line_end),
        _ => None,
    }
}

/// A copy of a highlight.
pub(crate) fn copy_highlight(h: &HighlightMatch) -> (res: HighlightMatch)
    ensures
        res@ == h@,
{
    HighlightMatch {
        word: h.word.clone(),
        start: h.start,
        end: h.end,
        match_type: h.match_type.clone(),
        group_id: h.group_id,
    }
}

/// Compares every pair of words, nearer pairs first in row order, and keeps
/// for every word start the highlight of highest priority offered.
pub(crate) fn best_highlights_exec(words: &Vec<WordData>, Ghost(d): Ghost<Seq<EntryView>>, Ghost(s): Ghost<Seq<char>>, Ghost(g): Ghost<Segmentation>, Ghost(lang): Ghost<Seq<char>>) -> (best: Vec<(usize, u8, HighlightMatch)>)
    requires
        words@.len() == g.words.len(),
        forall|k: int| 0 <= k < words@.len() ==> describes_word(#[trigger] words@[k], d, s, g, lang, k),
    ensures
        represents(best@, best_highlights(d, s, g, lang)),
{
    let n = words.len();
    let ghost nn = n as int;
    let mut best: Vec<(usize, u8, HighlightMatch)> = Vec::new();
    let mut gid: usize = 1;
    let mut i: usize = 0;
    while i < n
        invariant
            n == words@.len(),
            nn == n as int,
            n == g.words.len(),
            forall|k: int| 0 <= k < words@.len() ==> describes_word(#[trigger] words@[k], d, s, g, lang, k),
            i <= n,
            represents(best@, best_after(d, s, g, lang, found_pairs(d, s, g, lang, nn, i as int, 0))),
            gid == group_id(found_pairs(d, s, g, lang, nn, i as int, 0).len()),
        decreases n - i,
    {
        proof {
            lemma_found_pairs_row_start(d, s, g, lang, nn, i as int, i + 1);
        }
        let mut j: usize = i + 1;
        while j < n
            invariant
                n == words@.len(),
                nn == n as int,
                forall|k: int| 0 <= k < words@.len() ==> describes_word(#[trigger] words@[k], d, s, g, lang, k),
                i < n,
                i + 1 <= j <= n,
                represents(best@, best_after(d, s, g, lang, found_pairs(d, s, g, lang, nn, i as int, j as int))),
                gid == group_id(found_pairs(d, s, g, lang, nn, i as int, j as int).len()),
            decreases n - j,
        {
            let ghost pairs = found_pairs(d, s, g, lang, nn, i as int, j as int);
            let outcome = pair_outcome_exec(words, i, j, Ghost(d), Ghost(s), Ghost(g), Ghost(lang));
            match outcome {
                Some(kind) => {
                    let prio = priority_of(kind);
                    let a = &words[i];
                    let b = &words[j];
                    let h1 = HighlightMatch { word: a.text.clone(), start: a.start, end: a.end, match_type: name_of(kind), group_id: gid };
                    let h2 = HighlightMatch { word: b.text.clone(), start: b.start, end: b.end, match_type: name_of(kind), group_id: gid };
                    let ghost m0 = best_after(d, s, g, lang, pairs);
                    let ghost m1 = offer(m0, a.start, prio, h1@);
                    proof {
                        assert(h1@ == highlight_of(d, s, g, lang, i as int, kind, gid));
                        assert(h2@ == highlight_of(d, s, g, lang, j as int, kind, gid));
                    }
                    offer_exec(&mut best, a.start, prio, h1, Ghost(m0));
                    offer_exec(&mut best, b.start, prio, h2, Ghost(m1));
                    proof {
                        let next = found_pairs(d, s, g, lang, nn, i as int, j + 1);
                        assert(next == pairs.push((i as int, j as int)));
                        assert(next.drop_last() =~= pairs);
                        assert(next.last() == (i as int, j as int));
                    }
                    gid = gid.wrapping_add(1);
                },
                None => {
                    proof {
                        assert(found_pairs(d, s, g, lang, nn, i as int, j + 1) == found_pairs(d, s, g, lang, nn, i as int, j as int));
                    }
                },
            }
            j = j + 1;
        }
        i = i + 1;
    }
    best
}


/// The start of word `k`, the key its highlight is kept under.
pub open spec fn start_key(d: Seq<EntryView>, s: Seq<char>, g: Segmentation, lang: Seq<char>, k: int) -> usize {
    word_info(d, s, g, lang, k).start as usize
}

/// The kind of match of a pair.
pub open spec fn pair_kind(d: Seq<EntryView>, s: Seq<char>, g: Segmentation, lang: Seq<char>, pair: (int, int)) -> MatchKind {
    pair_outcome(d, s, g, lang, pair.0, pair.1)->0
}

/// The highlight that pair number `p` of `pairs` offers for its word `k`.
pub open spec fn offered(d: Seq<EntryView>, s: Seq<char>, g: Segmentation, lang: Seq<char>, pairs: Seq<(int, int)>, p: int, k: int) -> (u8, SpecHighlight) {
    let kind = pair_kind(d, s, g, lang, pairs[p]);
    (kind_priority(kind), highlight_of(d, s, g, lang, k, kind, group_id(p as nat)))
}

/// After the pairs `pairs` have been offered, every start of a word of a
/// pair is highlighted with at least that pair's priority, and every kept
/// highlight is one that a pair offered for that start.
pub open spec fn strongest_kept(d: Seq<EntryView>, s: Seq<char>, g: Segmentation, lang: Seq<char>, pairs: Seq<(int, int)>) -> bool {
    let m = best_after(d, s, g, lang, pairs);
    &&& forall|p: int|
        0 <= p < pairs.len() ==> {
            let k1 = start_key(d, s, g, lang, (#[trigger] pairs[p]).0);
            let k2 = start_key(d, s, g, lang, pairs[p].1);
            let pr = kind_priority(pair_kind(d, s, g, lang, pairs[p]));
            &&& m.dom().contains(k1) && m[k1].0 >= pr
            &&& m.dom().contains(k2) && m[k2].0 >= pr
        }
    &&& forall|key: usize|
        #[trigger] m.dom().contains(key) ==> exists|p: int|
            0 <= p < pairs.len() && ((start_key(d, s, g, lang, (#[trigger] pairs[p]).0) == key && m[key] == offered(
                d,
                s,
                g,
                lang,
                pairs,
                p,
                pairs[p].0,
            )) || (start_key(d, s, g, lang, pairs[p].1) == key && m[key] == offered(d, s, g, lang, pairs, p, pairs[p].1)))
}

/// Offering never lowers what is held, and leaves every other start alone.
proof fn lemma_offer(m: Map<usize, (u8, SpecHighlight)>, key: usize, prio: u8, h: SpecHighlight, other: usize)
    ensures
        held_priority(offer(m, key, prio, h), other) >= held_priority(m, other),
        m.dom().contains(other) ==> offer(m, key, prio, h).dom().contains(other),
        held_priority(offer(m, key, prio, h), key) >= prio,
        prio > 0 ==> offer(m, key, prio, h).dom().contains(key),
        offer(m, key, prio, h).dom().contains(other) ==> (m.dom().contains(other) && offer(m, key, prio, h)[other] == m[other])
            || (other == key && offer(m, key, prio, h)[other] == (prio, h)),
{
}

/// `strongest_kept` holds after any sequence of offered pairs.
#[verifier::spinoff_prover]
#[verifier::rlimit(100)]
proof fn lemma_strongest_kept(d: Seq<EntryView>, s: Seq<char>, g: Segmentation, lang: Seq<char>, pairs: Seq<(int, int)>)
    ensures
        strongest_kept(d, s, g, lang, pairs),
    decreases pairs.len(),
{
    if pairs.len() > 0 {
        let prev = pairs.drop_last();
        lemma_strongest_kept(d, s, g, lang, prev);
        let n = pairs.len() - 1;
        let m0 = best_after(d, s, g, lang, prev);
        let (i, j) = pairs.last();
        let kind = pair_kind(d, s, g, lang, pairs[n]);
        let gid = group_id(n as nat);
        let pr = kind_priority(kind);
        let k1 = start_key(d, s, g, lang, i);
        let k2 = start_key(d, s, g, lang, j);
        let h1 = highlight_of(d, s, g, lang, i, kind, gid);
        let h2 = highlight_of(d, s, g, lang, j, kind, gid);
        let m1 = offer(m0, k1, pr, h1);
        let m2 = offer(m1, k2, pr, h2);
        assert(best_after(d, s, g, lang, pairs) == m2);
        assert forall|p: int| 0 <= p < pairs.len() implies {
            let a = start_key(d, s, g, lang, (#[trigger] pairs[p]).0);
            let b = start_key(d, s, g, lang, pairs[p].1);
            let q = kind_priority(pair_kind(d, s, g, lang, pairs[p]));
            &&& m2.dom().contains(a) && m2[a].0 >= q
            &&& m2.dom().contains(b) && m2[b].0 >= q
        } by {
            let a = start_key(d, s, g, lang, pairs[p].0);
            let b = start_key(d, s, g, lang, pairs[p].1);
            lemma_offer(m0, k1, pr, h1, a);
            lemma_offer(m1, k2, pr, h2, a);
            lemma_offer(m0, k1, pr, h1, b);
            lemma_offer(m1, k2, pr, h2, b);
            lemma_offer(m1, k2, pr, h2, k1);
            if p < n {
                assert(pairs[p] == prev[p]);
            }
        }
        assert forall|key: usize| #[trigger] m2.dom().contains(key) implies exists|p: int|
            0 <= p < pairs.len() && ((start_key(d, s, g, lang, (#[trigger] pairs[p]).0) == key && m2[key] == offered(
                d,
                s,
                g,
                lang,
                pairs,
                p,
                pairs[p].0,
            )) || (start_key(d, s, g, lang, pairs[p].1) == key && m2[key] == offered(d, s, g, lang, pairs, p, pairs[p].1))) by {
            lemma_offer(m0, k1, pr, h1, key);
            lemma_offer(m1, k2, pr, h2, key);
            assert(offered(d, s, g, lang, pairs, n, i) == (pr, h1));
            assert(offered(d, s, g, lang, pairs, n, j) == (pr, h2));
            if m0.dom().contains(key) && m2[key] == m0[key] {
                let p = choose|p: int|
                    0 <= p < prev.len() && ((start_key(d, s, g, lang, (#[trigger] prev[p]).0) == key && m0[key] == offered(
                        d,
                        s,
                        g,
                        lang,
                        prev,
                        p,
                        prev[p].0,
                    )) || (start_key(d, s, g, lang, prev[p].1) == key && m0[key] == offered(d, s, g, lang, prev, p, prev[p].1)));
                assert(pairs[p] == prev[p]);
                assert(offered(d, s, g, lang, pairs, p, prev[p].0) == offered(d, s, g, lang, prev, p, prev[p].0));
                assert(offered(d, s, g, lang, pairs, p, prev[p].1) == offered(d, s, g, lang, prev, p, prev[p].1));
            } else {
                assert(pairs[n] == (i, j));
            }
        }
    }
}

/// A highlighted word carries the strongest match it takes part in: every
/// word of a matching pair is highlighted with at least that pair's
/// priority, and every highlight is the one some matching pair offered for
/// that word, colour and group number included.
pub proof fn lemma_highlight_is_strongest(d: Seq<EntryView>, s: Seq<char>, g: Segmentation, lang: Seq<char>)
    ensures
        strongest_kept(d, s, g, lang, all_found_pairs(d, s, g, lang)),
{
    lemma_strongest_kept(d, s, g, lang, all_found_pairs(d, s, g, lang));
}

/// Every kept highlight sits under its own start.
pub proof fn lemma_best_keys_are_starts(d: Seq<EntryView>, s: Seq<char>, g: Segmentation, lang: Seq<char>, key: usize)
    ensures
        best_highlights(d, s, g, lang).dom().contains(key) ==> best_highlights(d, s, g, lang)[key].1.start == key,
{
    lemma_best_after_keys(d, s, g, lang, all_found_pairs(d, s, g, lang), key);
}

/// Every highlight kept after some offers sits under its own start.
proof fn lemma_best_after_keys(d: Seq<EntryView>, s: Seq<char>, g: Segmentation, lang: Seq<char>, pairs: Seq<(int, int)>, key: usize)
    ensures
        best_after(d, s, g, lang, pairs).dom().contains(key) ==> best_after(d, s, g, lang, pairs)[key].1.start == key,
    decreases pairs.len(),
{
    if pairs.len() > 0 {
        lemma_best_after_keys(d, s, g, lang, pairs.drop_last(), key);
    }
}

} // verus!
