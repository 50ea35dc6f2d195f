//! The pronunciation dictionary: the rows of its `words` table, the lookup
//! of one word's attributes and the search for rhymes.

use vstd::prelude::*;
use crate::text::{
    ascii_lower, ascii_lower_char, ascii_lowercase, ascii_uppercase, chars_eq, chars_less, chars_lt,
    eq_ignore_ascii_case, is_ascii_text, lemma_chars_lt_irreflexive, lemma_chars_lt_proper_prefix, lemma_chars_lt_total,
    lemma_chars_lt_transitive, lower_form, normalize_vowels, normalize_vowels_of, str_chars, str_eq,
    str_eq_ignore_ascii_case, to_lowercase, to_uppercase, upper_form,
};

verus! {

/// One row of the `words` table; a column that holds NULL is `None`.
pub struct WordEntry {
    pub word: Option<String>,
    pub lang: Option<String>,
    pub ipa: Option<String>,
    pub syllables: Option<i64>,
    pub rhyme_part: Option<String>,
    pub vowels: Option<String>,
}

/// The mathematical model of a row.
pub struct EntryView {
    pub word: Option<Seq<char>>,
    pub lang: Option<Seq<char>>,
    pub ipa: Option<Seq<char>>,
    pub syllables: Option<i64>,
    pub rhyme_part: Option<Seq<char>>,
    pub vowels: Option<Seq<char>>,
}

/// The characters of an optional string.
pub open spec fn opt_view(o: Option<String>) -> Option<Seq<char>> {
    match o {
        Some(s) => Some(s@),
        None => None,
    }
}

impl View for WordEntry {
    type V = EntryView;

    open spec fn view(&self) -> EntryView {
        EntryView {
            word: opt_view(self.word),
            lang: opt_view(self.lang),
            ipa: opt_view(self.ipa),
            syllables: self.syllables,
            rhyme_part: opt_view(self.rhyme_part),
            vowels: opt_view(self.vowels),
        }
    }
}

/// The `words` table of the dictionary, its rows in storage order.
pub struct Dictionary {
    pub entries: Vec<WordEntry>,
}

impl View for Dictionary {
    type V = Seq<EntryView>;

    open spec fn view(&self) -> Seq<EntryView> {
        self.entries@.map_values(|e: WordEntry| e@)
    }
}

/// What the dictionary records of one word.
pub struct WordAttributes {
    pub ipa: String,
    pub syllables: usize,
    pub rhyme_part: String,
    pub vowels: String,
}

/// The mathematical model of `WordAttributes`.
pub struct AttributesView {
    pub ipa: Seq<char>,
    pub syllables: usize,
    pub rhyme_part: Seq<char>,
    pub vowels: Seq<char>,
}

impl View for WordAttributes {
    type V = AttributesView;

    open spec fn view(&self) -> AttributesView {
        AttributesView {
            ipa: self.ipa@,
            syllables: self.syllables,
            rhyme_part: self.rhyme_part@,
            vowels: self.vowels@,
        }
    }
}

/// The text of a column, the empty string where it is NULL.
pub open spec fn text_or_empty(o: Option<Seq<char>>) -> Seq<char> {
    match o {
        Some(s) => s,
        None => Seq::empty(),
    }
}

/// The syllable column read as an `i32` and widened to `usize`; 1 where it
/// is NULL or does not fit an `i32`.
pub open spec fn syllables_of(o: Option<i64>) -> usize {
    match o {
        Some(x) => if i32::MIN <= x <= i32::MAX {
            ((x as i32) as usize)
        } else {
            1
        },
        None => 1,
    }
}

/// The attributes that a row yields.
pub open spec fn attributes_of(e: EntryView) -> AttributesView {
    AttributesView {
        ipa: text_or_empty(e.ipa),
        syllables: syllables_of(e.syllables),
        rhyme_part: text_or_empty(e.rhyme_part),
        vowels: text_or_empty(e.vowels),
    }
}

/// A language argument restricts a search to rows of that language when it
/// is `de` or `en` in any ASCII case.
pub open spec fn is_known_language(lang: Seq<char>) -> bool {
    eq_ignore_ascii_case(lang, "de"@) || eq_ignore_ascii_case(lang, "en"@)
}

/// The language that a search is restricted to, if any.
pub open spec fn language_filter(lang: Seq<char>) -> Option<Seq<char>> {
    if is_known_language(lang) {
        Some(lower_form(lang))
    } else {
        None
    }
}

/// A row passes an optional language restriction.
pub open spec fn passes_language(e: EntryView, filter: Option<Seq<char>>) -> bool {
    match filter {
        Some(l) => e.lang == Some(l),
        None => true,
    }
}

/// A row answers the lookup of `word_lower` under `filter`.
pub open spec fn lookup_matches(e: EntryView, word_lower: Seq<char>, filter: Option<Seq<char>>) -> bool {
    e.word == Some(word_lower) && passes_language(e, filter)
}

/// The index of the first row of `d` that answers the lookup.
pub open spec fn first_lookup_index(d: Seq<EntryView>, word_lower: Seq<char>, filter: Option<Seq<char>>) -> Option<int>
    decreases d.len(),
{
    if d.len() == 0 {
        None
    } else {
        match first_lookup_index(d.drop_last(), word_lower, filter) {
            Some(i) => Some(i),
            None => if lookup_matches(d.last(), word_lower, filter) {
                Some(d.len() - 1)
            } else {
                None
            },
        }
    }
}

/// The attributes of `word` in language `lang`: those of the first row
/// whose word is the lower-case form of `word` and, where `lang` is a known
/// language, whose language is the lower-case form of `lang`.
pub open spec fn word_lookup(d: Seq<EntryView>, word: Seq<char>, lang: Seq<char>) -> Option<AttributesView> {
    match first_lookup_index(d, lower_form(word), language_filter(lang)) {
        Some(i) => Some(attributes_of(d[i])),
        None => None,
    }
}

/// Equality of an optional column with a string.
fn opt_eq(o: &Option<String>, s: &String) -> (res: bool)
    ensures
        res == (opt_view(*o) == Some(s@)),
{
    match o {
        Some(x) => *x == *s,
        None => false,
    }
}

/// A copy of an optional text column, the empty string where it is NULL.
fn text_or_empty_exec(o: &Option<String>) -> (res: String)
    ensures
        res@ == text_or_empty(opt_view(*o)),
{
    match o {
        Some(x) => x.clone(),
        None => String::new(),
    }
}

/// The attributes that a row yields.
fn attributes_of_entry(e: &WordEntry) -> (res: WordAttributes)
    ensures
        res@ == attributes_of(e@),
{
    let syllables: usize = match e.syllables {
        Some(x) => if i32::MIN as i64 <= x && x <= i32::MAX as i64 {
            (x as i32) as usize
        } else {
            1
        },
        None => 1,
    };
    WordAttributes {
        ipa: text_or_empty_exec(&e.ipa),
        syllables,
        rhyme_part: text_or_empty_exec(&e.rhyme_part),
        vowels: text_or_empty_exec(&e.vowels),
    }
}

/// The lower-case language that a search in `lang` is restricted to.
pub(crate) fn language_filter_of(lang: &str) -> (res: Option<String>)
    ensures
        opt_view(res) == language_filter(lang@),
{
    if str_eq_ignore_ascii_case(lang, "de") || str_eq_ignore_ascii_case(lang, "en") {
        Some(to_lowercase(lang))
    } else {
        None
    }
}

/// A row passes an optional language restriction.
pub(crate) fn passes_language_exec(e: &WordEntry, filter: &Option<String>) -> (res: bool)
    ensures
        res == passes_language(e@, opt_view(*filter)),
{
    match filter {
        Some(l) => opt_eq(&e.lang, l),
        None => true,
    }
}

/// Looks up what the dictionary records of `word` (compared in lower case)
/// in language `lang` (`de` or `en` in any ASCII case restricts the lookup
/// to rows of that language; any other value searches all rows). The first
/// matching row answers; NULL text columns read as empty and a NULL or
/// out-of-range syllable count as 1.
pub fn get_word_attributes(dict: &Dictionary, word: &str, lang: &str) -> (res: Option<WordAttributes>)
    ensures
        match res {
            Some(a) => word_lookup(dict@, word@, lang@) == Some(a@),
            None => word_lookup(dict@, word@, lang@) is None,
        },
{
    let word_lower = to_lowercase(word);
    let filter = language_filter_of(lang);
    let ghost d = dict@;
    let ghost f = opt_view(filter);
    let mut i: usize = 0;
    while i < dict.entries.len()
        invariant
            d == dict@,
            f == opt_view(filter),
            word_lower@ == lower_form(word@),
            f == language_filter(lang@),
            i <= dict.entries.len(),
            first_lookup_index(d.take(i as int), word_lower@, f) is None,
        decreases dict.entries.len() - i,
    {
        let e = &dict.entries[i];
        assert(d.take(i + 1).drop_last() =~= d.take(i as int));
        assert(d[i as int] == e@);
        if opt_eq(&e.word, &word_lower) && passes_language_exec(e, &filter) {
            let attrs = attributes_of_entry(e);
            proof {
                lemma_first_index_prefix(d, word_lower@, f, (i + 1) as int);
            }
            return Some(attrs);
        }
        i = i + 1;
    }
    proof {
        assert(d.take(i as int) =~= d);
    }
    None
}

/// A lookup is answered by the first row that matches it, and by none
/// when no row matches.
pub proof fn lemma_lookup_first_row(d: Seq<EntryView>, word: Seq<char>, lang: Seq<char>)
    ensures
        word_lookup(d, word, lang) is None <==> forall|i: int|
            0 <= i < d.len() ==> !lookup_matches(#[trigger] d[i], lower_form(word), language_filter(lang)),
        word_lookup(d, word, lang) is Some ==> exists|i: int|
            0 <= i < d.len() && lookup_matches(#[trigger] d[i], lower_form(word), language_filter(lang))
                && (forall|j: int| 0 <= j < i ==> !lookup_matches(#[trigger] d[j], lower_form(word), language_filter(lang)))
                && word_lookup(d, word, lang) == Some(attributes_of(d[i])),
{
    lemma_first_index_spec(d, lower_form(word), language_filter(lang));
}

/// `first_lookup_index` names the first matching row.
proof fn lemma_first_index_spec(d: Seq<EntryView>, w: Seq<char>, f: Option<Seq<char>>)
    ensures
        match first_lookup_index(d, w, f) {
            Some(i) => 0 <= i < d.len() && lookup_matches(d[i], w, f) && forall|j: int|
                0 <= j < i ==> !lookup_matches(#[trigger] d[j], w, f),
            None => forall|j: int| 0 <= j < d.len() ==> !lookup_matches(#[trigger] d[j], w, f),
        },
    decreases d.len(),
{
    if d.len() > 0 {
        lemma_first_index_spec(d.drop_last(), w, f);
        assert forall|j: int| 0 <= j < d.len() - 1 implies d.drop_last()[j] == d[j] by {}
    }
}

/// A first match within a prefix is the first match of the whole table.
proof fn lemma_first_index_prefix(d: Seq<EntryView>, w: Seq<char>, f: Option<Seq<char>>, n: int)
    requires
        0 <= n <= d.len(),
        first_lookup_index(d.take(n), w, f) is Some,
    ensures
        first_lookup_index(d, w, f) == first_lookup_index(d.take(n), w, f),
    decreases d.len() - n,
{
    if n < d.len() {
        assert(d.take(n + 1).drop_last() =~= d.take(n));
        lemma_first_index_prefix(d, w, f, n + 1);
    } else {
        assert(d.take(n) =~= d);
    }
}


/// The most rows that a rhyme search returns.
pub const RHYME_LIMIT: usize = 250;

/// The three kinds of rhyme search.
#[derive(Clone, Copy, Debug, PartialEq, Eq)]
pub enum RhymeMode {
    /// `rein`: same rhyme part.
    Pure,
    /// `assonanz`: same vowels, different rhyme part.
    Assonance,
    /// `vokalklang`: same vowels.
    VowelSound,
}

/// The search mode that a mode name selects.
pub open spec fn rhyme_mode(mode: Seq<char>) -> Option<RhymeMode> {
    if mode == "rein"@ {
        Some(RhymeMode::Pure)
    } else if mode == "assonanz"@ {
        Some(RhymeMode::Assonance)
    } else if mode == "vokalklang"@ {
        Some(RhymeMode::VowelSound)
    } else {
        None
    }
}

/// A row's vowels equal `key` once blanks and stress marks are removed
/// (NULL vowels never do).
pub open spec fn vowels_match(e: EntryView, key: Seq<char>) -> bool {
    match e.vowels {
        Some(v) => normalize_vowels(v) == key,
        None => false,
    }
}

/// A row is returned by a search of `mode` for the word whose lower-case
/// form is `word_lower` and whose attributes are `target`: its word is not
/// NULL and differs from `word_lower`, it passes the language restriction,
/// and it relates to the target as the mode asks. A NULL column never
/// compares equal or unequal to anything.
pub open spec fn is_rhyme_candidate(
    e: EntryView,
    mode: RhymeMode,
    target: AttributesView,
    word_lower: Seq<char>,
    filter: Option<Seq<char>>,
) -> bool {
    &&& e.word is Some
    &&& e.word->0 != word_lower
    &&& passes_language(e, filter)
    &&& match mode {
        RhymeMode::Pure => e.rhyme_part == Some(target.rhyme_part),
        RhymeMode::Assonance => {
            &&& vowels_match(e, normalize_vowels(target.vowels))
            &&& e.rhyme_part is Some
            &&& e.rhyme_part->0 != target.rhyme_part
        },
        RhymeMode::VowelSound => vowels_match(e, normalize_vowels(target.vowels)),
    }
}

/// `ORDER BY syllables ASC` on the syllable column: NULL first, then by
/// value.
pub open spec fn syllables_lt(a: Option<i64>, b: Option<i64>) -> bool {
    match (a, b) {
        (None, Some(_)) => true,
        (Some(x), Some(y)) => x < y,
        _ => false,
    }
}

/// Row `i` is listed before row `j`: by syllables, then by word, and rows
/// that agree on both in storage order.
pub open spec fn ranks_before(d: Seq<EntryView>, i: int, j: int) -> bool {
    let a = d[i];
    let b = d[j];
    ||| syllables_lt(a.syllables, b.syllables)
    ||| a.syllables == b.syllables && chars_lt(text_or_empty(a.word), text_or_empty(b.word))
    ||| a.syllables == b.syllables && text_or_empty(a.word) == text_or_empty(b.word) && i < j
}

/// The rows of a search come by syllables, a row without a syllable count
/// first, then by word: among rows of equal syllables a word comes before
/// the longer words it begins.
pub proof fn lemma_rank_order(d: Seq<EntryView>, i: int, j: int)
    requires
        0 <= i < d.len(),
        0 <= j < d.len(),
    ensures
        d[i].syllables is None && d[j].syllables is Some ==> ranks_before(d, i, j) && !ranks_before(d, j, i),
        (d[i].syllables is Some && d[j].syllables is Some && d[i].syllables->0 < d[j].syllables->0) ==> ranks_before(
            d,
            i,
            j,
        ) && !ranks_before(d, j, i),
        (d[i].syllables == d[j].syllables && d[i].word is Some && d[j].word is Some && d[j].word->0.len()
            > d[i].word->0.len() && d[j].word->0.subrange(0, d[i].word->0.len() as int) == d[i].word->0) ==> ranks_before(
            d,
            i,
            j,
        ) && !ranks_before(d, j, i),
{
    if d[i].syllables == d[j].syllables && d[i].word is Some && d[j].word is Some {
        let w = d[i].word->0;
        let v = d[j].word->0;
        if v.len() > w.len() && v.subrange(0, w.len() as int) == w {
            let t = v.subrange(w.len() as int, v.len() as int);
            assert(v =~= w + t);
            lemma_chars_lt_proper_prefix(w, t);
        }
    }
}

/// `chosen` lists, in rank order, the first rows of `pool` (at most
/// `limit`): they come from `pool`, ascend in rank, and every row of `pool`
/// left out ranks after all of them, which happens only when `limit` rows
/// were listed.
pub open spec fn is_ranked_prefix(d: Seq<EntryView>, pool: Set<int>, chosen: Seq<usize>, limit: int) -> bool {
    &&& chosen.len() <= limit
    &&& forall|k: int| 0 <= k < chosen.len() ==> #[trigger] pool.contains(chosen[k] as int)
    &&& forall|a: int, b: int|
        0 <= a < b < chosen.len() ==> ranks_before(d, #[trigger] chosen[a] as int, #[trigger] chosen[b] as int)
    &&& forall|i: int|
        #[trigger] pool.contains(i) && !chosen.contains(i as usize) ==> chosen.len() == limit
            && ranks_before(d, chosen.last() as int, i)
}

/// The rows that a rhyme search selects, before ordering.
pub open spec fn rhyme_pool(
    d: Seq<EntryView>,
    mode: RhymeMode,
    target: AttributesView,
    word_lower: Seq<char>,
    filter: Option<Seq<char>>,
) -> Set<int> {
    Set::new(|i: int| 0 <= i < d.len() && is_rhyme_candidate(d[i], mode, target, word_lower, filter))
}

/// `res` is what a rhyme search of `word` in `mode` under `filter_lang`
/// returns: nothing where the word is not in the dictionary (looked up in
/// all languages) or the mode is unknown; otherwise the word and the
/// upper-case language of the first `RHYME_LIMIT` rows of the pool, in rank
/// order.
pub open spec fn is_rhyme_search_result(
    d: Seq<EntryView>,
    word: Seq<char>,
    mode: Seq<char>,
    filter_lang: Seq<char>,
    res: Seq<(Seq<char>, Seq<char>)>,
) -> bool {
    match (word_lookup(d, word, "auto"@), rhyme_mode(mode)) {
        (Some(target), Some(m)) => exists|chosen: Seq<usize>|
            {
                &&& is_ranked_prefix(
                    d,
                    rhyme_pool(d, m, target, lower_form(word), language_filter(filter_lang)),
                    chosen,
                    RHYME_LIMIT as int,
                )
                &&& res.len() == chosen.len()
                &&& forall|k: int|
                    0 <= k < chosen.len() ==> #[trigger] res[k] == (
                        text_or_empty(d[chosen[k] as int].word),
                        upper_form(text_or_empty(d[chosen[k] as int].lang)),
                    )
            },
        _ => res.len() == 0,
    }
}

/// No row ranks before itself.
pub proof fn lemma_rank_irreflexive(d: Seq<EntryView>, i: int)
    ensures
        !ranks_before(d, i, i),
{
    lemma_chars_lt_irreflexive(text_or_empty(d[i].word));
}

/// Of two different rows exactly one ranks before the other.
pub proof fn lemma_rank_total(d: Seq<EntryView>, i: int, j: int)
    ensures
        i != j ==> ranks_before(d, i, j) || ranks_before(d, j, i),
        !(ranks_before(d, i, j) && ranks_before(d, j, i)),
{
    lemma_chars_lt_total(text_or_empty(d[i].word), text_or_empty(d[j].word));
    lemma_chars_lt_irreflexive(text_or_empty(d[i].word));
}

/// Ranking is transitive.
pub proof fn lemma_rank_transitive(d: Seq<EntryView>, i: int, j: int, k: int)
    requires
        ranks_before(d, i, j),
        ranks_before(d, j, k),
    ensures
        ranks_before(d, i, k),
{
    let (wi, wj, wk) = (text_or_empty(d[i].word), text_or_empty(d[j].word), text_or_empty(d[k].word));
    lemma_chars_lt_irreflexive(wi);
    lemma_chars_lt_irreflexive(wj);
    if chars_lt(wi, wj) && chars_lt(wj, wk) {
        lemma_chars_lt_transitive(wi, wj, wk);
    }
}

/// Where two ranked prefixes of one pool agree before position `p`, the
/// first one's row at `p` does not rank before the second one's.
proof fn lemma_ranked_step(d: Seq<EntryView>, pool: Set<int>, c1: Seq<usize>, c2: Seq<usize>, limit: int, p: int)
    requires
        is_ranked_prefix(d, pool, c1, limit),
        is_ranked_prefix(d, pool, c2, limit),
        0 <= p < c1.len(),
        p < c2.len(),
        forall|j: int| 0 <= j < p ==> c1[j] == c2[j],
    ensures
        !ranks_before(d, c1[p] as int, c2[p] as int),
{
    if ranks_before(d, c1[p] as int, c2[p] as int) {
        let x = c1[p];
        let y = c2[p];
        assert(pool.contains(x as int));
        if c2.contains(x) {
            let m = choose|m: int| 0 <= m < c2.len() && c2[m] == x;
            if m < p {
                assert(c1[m] == x);
                assert(ranks_before(d, c1[m] as int, c1[p] as int));
                lemma_rank_irreflexive(d, x as int);
            } else if m == p {
                lemma_rank_irreflexive(d, x as int);
            } else {
                assert(ranks_before(d, c2[p] as int, c2[m] as int));
                lemma_rank_total(d, x as int, y as int);
            }
        } else {
            assert(ranks_before(d, c2.last() as int, x as int));
            let last = c2.len() - 1;
            if last == p {
                lemma_rank_total(d, x as int, y as int);
            } else {
                assert(ranks_before(d, c2[p] as int, c2[last] as int));
                lemma_rank_transitive(d, y as int, c2[last] as int, x as int);
                lemma_rank_total(d, x as int, y as int);
            }
        }
    }
}

/// Two ranked prefixes of one pool agree before position `k`.
proof fn lemma_ranked_agree(d: Seq<EntryView>, pool: Set<int>, c1: Seq<usize>, c2: Seq<usize>, limit: int, k: int)
    requires
        is_ranked_prefix(d, pool, c1, limit),
        is_ranked_prefix(d, pool, c2, limit),
        0 <= k <= c1.len(),
        k <= c2.len(),
    ensures
        forall|j: int| 0 <= j < k ==> c1[j] == c2[j],
    decreases k,
{
    if k > 0 {
        lemma_ranked_agree(d, pool, c1, c2, limit, k - 1);
        let p = k - 1;
        if c1[p] != c2[p] {
            lemma_rank_total(d, c1[p] as int, c2[p] as int);
            if ranks_before(d, c1[p] as int, c2[p] as int) {
                lemma_ranked_step(d, pool, c1, c2, limit, p);
            } else {
                lemma_ranked_step(d, pool, c2, c1, limit, p);
            }
        }
    }
}

/// The first rows of a pool in rank order are determined by the pool.
pub proof fn lemma_ranked_prefix_unique(d: Seq<EntryView>, pool: Set<int>, c1: Seq<usize>, c2: Seq<usize>, limit: int)
    requires
        is_ranked_prefix(d, pool, c1, limit),
        is_ranked_prefix(d, pool, c2, limit),
    ensures
        c1 == c2,
{
    if c1.len() < c2.len() {
        lemma_ranked_agree(d, pool, c1, c2, limit, c1.len() as int);
        let y = c2[c1.len() as int];
        assert(pool.contains(y as int));
        if c1.contains(y) {
            let m = choose|m: int| 0 <= m < c1.len() && c1[m] == y;
            assert(c2[m] == y);
            assert(ranks_before(d, c2[m] as int, c2[c1.len() as int] as int));
            lemma_rank_irreflexive(d, y as int);
        }
    } else if c2.len() < c1.len() {
        lemma_ranked_agree(d, pool, c2, c1, limit, c2.len() as int);
        let y = c1[c2.len() as int];
        assert(pool.contains(y as int));
        if c2.contains(y) {
            let m = choose|m: int| 0 <= m < c2.len() && c2[m] == y;
            assert(c1[m] == y);
            assert(ranks_before(d, c1[m] as int, c1[c2.len() as int] as int));
            lemma_rank_irreflexive(d, y as int);
        }
    } else {
        lemma_ranked_agree(d, pool, c1, c2, limit, c1.len() as int);
        assert(c1 =~= c2);
    }
}

/// A rhyme search has exactly one result.
pub proof fn lemma_rhyme_search_deterministic(
    d: Seq<EntryView>,
    word: Seq<char>,
    mode: Seq<char>,
    filter_lang: Seq<char>,
    r1: Seq<(Seq<char>, Seq<char>)>,
    r2: Seq<(Seq<char>, Seq<char>)>,
)
    requires
        is_rhyme_search_result(d, word, mode, filter_lang, r1),
        is_rhyme_search_result(d, word, mode, filter_lang, r2),
    ensures
        r1 == r2,
{
    match (word_lookup(d, word, "auto"@), rhyme_mode(mode)) {
        (Some(target), Some(m)) => {
            let pool = rhyme_pool(d, m, target, lower_form(word), language_filter(filter_lang));
            let c1 = choose|c: Seq<usize>| {
                &&& is_ranked_prefix(d, pool, c, RHYME_LIMIT as int)
                &&& r1.len() == c.len()
                &&& forall|k: int|
                    0 <= k < c.len() ==> #[trigger] r1[k] == (
                        text_or_empty(d[c[k] as int].word),
                        upper_form(text_or_empty(d[c[k] as int].lang)),
                    )
            };
            let c2 = choose|c: Seq<usize>| {
                &&& is_ranked_prefix(d, pool, c, RHYME_LIMIT as int)
                &&& r2.len() == c.len()
                &&& forall|k: int|
                    0 <= k < c.len() ==> #[trigger] r2[k] == (
                        text_or_empty(d[c[k] as int].word),
                        upper_form(text_or_empty(d[c[k] as int].lang)),
                    )
            };
            lemma_ranked_prefix_unique(d, pool, c1, c2, RHYME_LIMIT as int);
            assert(r1 =~= r2);
        },
        _ => {
            assert(r1 =~= r2);
        },
    }
}

/// Every assonance is a shared vowel sound, no row is both a pure rhyme
/// and an assonance of the same word, and the assonances are exactly the
/// shared vowel sounds whose rhyme part is recorded and differs from the
/// word's.
pub proof fn lemma_rhyme_modes(d: Seq<EntryView>, target: AttributesView, word_lower: Seq<char>, filter: Option<Seq<char>>)
    ensures
        rhyme_pool(d, RhymeMode::Assonance, target, word_lower, filter).subset_of(
            rhyme_pool(d, RhymeMode::VowelSound, target, word_lower, filter),
        ),
        rhyme_pool(d, RhymeMode::Pure, target, word_lower, filter).disjoint(
            rhyme_pool(d, RhymeMode::Assonance, target, word_lower, filter),
        ),
        rhyme_pool(d, RhymeMode::Assonance, target, word_lower, filter) == rhyme_pool(
            d,
            RhymeMode::VowelSound,
            target,
            word_lower,
            filter,
        ).filter(|i: int| d[i].rhyme_part is Some && d[i].rhyme_part != Some(target.rhyme_part)),
{
    assert(rhyme_pool(d, RhymeMode::Assonance, target, word_lower, filter) =~= rhyme_pool(
        d,
        RhymeMode::VowelSound,
        target,
        word_lower,
        filter,
    ).filter(|i: int| d[i].rhyme_part is Some && d[i].rhyme_part != Some(target.rhyme_part)));
}

/// A rhyme search never lists the searched word and lists at most
/// `RHYME_LIMIT` rows.
pub proof fn lemma_search_excludes_word(
    d: Seq<EntryView>,
    word: Seq<char>,
    mode: Seq<char>,
    filter_lang: Seq<char>,
    res: Seq<(Seq<char>, Seq<char>)>,
)
    requires
        is_rhyme_search_result(d, word, mode, filter_lang, res),
    ensures
        res.len() <= RHYME_LIMIT,
        forall|k: int| 0 <= k < res.len() ==> (#[trigger] res[k]).0 != lower_form(word),
{
    match (word_lookup(d, word, "auto"@), rhyme_mode(mode)) {
        (Some(target), Some(m)) => {
            let pool = rhyme_pool(d, m, target, lower_form(word), language_filter(filter_lang));
            let c = choose|c: Seq<usize>| {
                &&& is_ranked_prefix(d, pool, c, RHYME_LIMIT as int)
                &&& res.len() == c.len()
                &&& forall|k: int|
                    0 <= k < c.len() ==> #[trigger] res[k] == (
                        text_or_empty(d[c[k] as int].word),
                        upper_form(text_or_empty(d[c[k] as int].lang)),
                    )
            };
            assert forall|k: int| 0 <= k < res.len() implies (#[trigger] res[k]).0 != lower_form(word) by {
                assert(pool.contains(c[k] as int));
            }
        },
        _ => {},
    }
}

/// Every assonance that a search returns is also returned by the
/// vowel-sound search of the same word under the same language filter,
/// where that search returns fewer than `RHYME_LIMIT` rows (and so all of
/// its pool).
pub proof fn lemma_assonances_are_vowel_sounds(
    d: Seq<EntryView>,
    word: Seq<char>,
    filter_lang: Seq<char>,
    vowel_sounds: Seq<(Seq<char>, Seq<char>)>,
    assonances: Seq<(Seq<char>, Seq<char>)>,
)
    requires
        is_rhyme_search_result(d, word, "vokalklang"@, filter_lang, vowel_sounds),
        is_rhyme_search_result(d, word, "assonanz"@, filter_lang, assonances),
        vowel_sounds.len() < RHYME_LIMIT,
    ensures
        forall|k: int| 0 <= k < assonances.len() ==> vowel_sounds.contains(#[trigger] assonances[k]),
{
    reveal_strlit("vokalklang");
    reveal_strlit("assonanz");
    reveal_strlit("rein");
    assert("vokalklang"@.len() == 10 && "assonanz"@.len() == 8 && "rein"@.len() == 4);
    assert("vokalklang"@[0] == 'v' && "assonanz"@[0] == 'a');
    assert(rhyme_mode("vokalklang"@) == Some(RhymeMode::VowelSound));
    assert(rhyme_mode("assonanz"@) == Some(RhymeMode::Assonance));
    match word_lookup(d, word, "auto"@) {
        Some(target) => {
            let f = language_filter(filter_lang);
            let wl = lower_form(word);
            let pv = rhyme_pool(d, RhymeMode::VowelSound, target, wl, f);
            let pa = rhyme_pool(d, RhymeMode::Assonance, target, wl, f);
            let cv = choose|c: Seq<usize>| {
                &&& is_ranked_prefix(d, pv, c, RHYME_LIMIT as int)
                &&& vowel_sounds.len() == c.len()
                &&& forall|k: int|
                    0 <= k < c.len() ==> #[trigger] vowel_sounds[k] == (
                        text_or_empty(d[c[k] as int].word),
                        upper_form(text_or_empty(d[c[k] as int].lang)),
                    )
            };
            let ca = choose|c: Seq<usize>| {
                &&& is_ranked_prefix(d, pa, c, RHYME_LIMIT as int)
                &&& assonances.len() == c.len()
                &&& forall|k: int|
                    0 <= k < c.len() ==> #[trigger] assonances[k] == (
                        text_or_empty(d[c[k] as int].word),
                        upper_form(text_or_empty(d[c[k] as int].lang)),
                    )
            };
            lemma_rhyme_modes(d, target, wl, f);
            assert forall|k: int| 0 <= k < assonances.len() implies vowel_sounds.contains(#[trigger] assonances[k]) by {
                let row = ca[k];
                assert(pa.contains(row as int));
                assert(pv.contains(row as int));
                assert(cv.contains(row));
                let p = choose|p: int| 0 <= p < cv.len() && cv[p] == row;
                assert(vowel_sounds[p] == assonances[k]);
            }
        },
        None => {},
    }
}

/// Two language arguments select the same rows when neither is a known
/// language, or when they agree up to ASCII case.
pub open spec fn same_language_argument(l1: Seq<char>, l2: Seq<char>) -> bool {
    ||| !is_known_language(l1) && !is_known_language(l2)
    ||| eq_ignore_ascii_case(l1, l2)
}

/// Text that agrees up to ASCII case with ASCII text is ASCII text, with
/// the same lower-case form.
proof fn lemma_ascii_case_agreement(a: Seq<char>, b: Seq<char>)
    requires
        eq_ignore_ascii_case(a, b),
        is_ascii_text(b),
    ensures
        is_ascii_text(a),
        lower_form(a) == lower_form(b),
{
    assert forall|i: int| 0 <= i < a.len() implies (#[trigger] a[i] as u32) < 128 by {
        assert(ascii_lower(a[i]) == ascii_lower(b[i]));
        assert((b[i] as u32) < 128);
    }
    assert forall|i: int| 0 <= i < a.len() implies #[trigger] ascii_lowercase(a)[i] == ascii_lowercase(b)[i] by {
        assert(ascii_lower(a[i]) == ascii_lower(b[i]));
        assert(ascii_lower_char(a[i]) as u32 == ascii_lower(a[i]));
        assert(ascii_lower_char(b[i]) as u32 == ascii_lower(b[i]));
    }
    assert(ascii_lowercase(a) =~= ascii_lowercase(b));
}

/// Agreement up to ASCII case is transitive.
proof fn lemma_ascii_case_transitive(a: Seq<char>, b: Seq<char>, c: Seq<char>)
    requires
        eq_ignore_ascii_case(a, b),
        eq_ignore_ascii_case(b, c),
    ensures
        eq_ignore_ascii_case(a, c),
{
    assert forall|i: int| 0 <= i < a.len() implies #[trigger] ascii_lower(a[i]) == ascii_lower(c[i]) by {
        assert(ascii_lower(a[i]) == ascii_lower(b[i]));
        assert(ascii_lower(b[i]) == ascii_lower(c[i]));
    }
}

/// The two known languages are written in ASCII.
proof fn lemma_known_languages_ascii()
    ensures
        is_ascii_text("de"@),
        is_ascii_text("en"@),
        eq_ignore_ascii_case("de"@, "de"@),
        eq_ignore_ascii_case("en"@, "en"@),
{
    reveal_strlit("de");
    reveal_strlit("en");
}

/// Agreement up to ASCII case is symmetric.
proof fn lemma_ascii_case_symmetric(a: Seq<char>, b: Seq<char>)
    requires
        eq_ignore_ascii_case(a, b),
    ensures
        eq_ignore_ascii_case(b, a),
{
}

/// Language arguments that `same_language_argument` relates restrict a
/// search alike.
proof fn lemma_same_language_filter(l1: Seq<char>, l2: Seq<char>)
    requires
        same_language_argument(l1, l2),
    ensures
        language_filter(l1) == language_filter(l2),
{
    if eq_ignore_ascii_case(l1, l2) {
        lemma_ascii_case_symmetric(l1, l2);
        lemma_known_languages_ascii();
        if eq_ignore_ascii_case(l1, "de"@) {
            lemma_ascii_case_transitive(l2, l1, "de"@);
        }
        if eq_ignore_ascii_case(l2, "de"@) {
            lemma_ascii_case_transitive(l1, l2, "de"@);
        }
        if eq_ignore_ascii_case(l1, "en"@) {
            lemma_ascii_case_transitive(l2, l1, "en"@);
        }
        if eq_ignore_ascii_case(l2, "en"@) {
            lemma_ascii_case_transitive(l1, l2, "en"@);
        }
        if is_known_language(l1) {
            if eq_ignore_ascii_case(l1, "de"@) {
                lemma_ascii_case_agreement(l1, "de"@);
                lemma_ascii_case_agreement(l2, "de"@);
            } else {
                lemma_ascii_case_agreement(l1, "en"@);
                lemma_ascii_case_agreement(l2, "en"@);
            }
        }
    }
}

/// The lower-case form of ASCII text is its own lower-case form.
pub proof fn lemma_lower_form_ascii(s: Seq<char>)
    requires
        is_ascii_text(s),
    ensures
        is_ascii_text(lower_form(s)),
        lower_form(lower_form(s)) == lower_form(s),
{
    let l = ascii_lowercase(s);
    assert forall|i: int| 0 <= i < l.len() implies (#[trigger] l[i] as u32) < 128 by {
        assert((s[i] as u32) < 128);
    }
    assert forall|i: int| 0 <= i < l.len() implies #[trigger] ascii_lowercase(l)[i] == l[i] by {
        assert((s[i] as u32) < 128);
    }
    assert(ascii_lowercase(l) =~= l);
}

/// A lookup ignores the case of the word and of the language: looking up
/// the lower-case form of `word` under `l2` gives what looking up `word`
/// under `l1` gives, where the language arguments agree up to ASCII case
/// (or neither is a known language), for every ASCII word and every other
/// word whose lower-case form is its own lower-case form.
pub proof fn lemma_lookup_ignores_case(d: Seq<EntryView>, word: Seq<char>, l1: Seq<char>, l2: Seq<char>)
    requires
        is_ascii_text(word) || lower_form(lower_form(word)) == lower_form(word),
        same_language_argument(l1, l2),
    ensures
        word_lookup(d, lower_form(word), l2) == word_lookup(d, word, l1),
{
    if is_ascii_text(word) {
        lemma_lower_form_ascii(word);
    }
    lemma_same_language_filter(l1, l2);
}

/// A rhyme search ignores the case of the word and of the language filter:
/// searching the lower-case form of `word` under `f2` has the results that
/// searching `word` under `f1` has, where the filters agree up to ASCII case
/// (or neither is a known language), for every ASCII word and every other
/// word whose lower-case form is its own lower-case form.
pub proof fn lemma_rhyme_search_ignores_case(
    d: Seq<EntryView>,
    word: Seq<char>,
    mode: Seq<char>,
    f1: Seq<char>,
    f2: Seq<char>,
    res: Seq<(Seq<char>, Seq<char>)>,
)
    requires
        is_ascii_text(word) || lower_form(lower_form(word)) == lower_form(word),
        same_language_argument(f1, f2),
    ensures
        is_rhyme_search_result(d, lower_form(word), mode, f2, res) == is_rhyme_search_result(d, word, mode, f1, res),
{
    if is_ascii_text(word) {
        lemma_lower_form_ascii(word);
    }
    lemma_same_language_filter(f1, f2);
    reveal_strlit("auto");
    assert(eq_ignore_ascii_case("auto"@, "auto"@));
    lemma_lookup_ignores_case(d, word, "auto"@, "auto"@);
}

/// Under a language filter (`de` or `en` in any ASCII case) every row a
/// search returns carries the upper-case form of the filter as its
/// language.
pub proof fn lemma_filtered_languages(
    d: Seq<EntryView>,
    word: Seq<char>,
    mode: Seq<char>,
    filter_lang: Seq<char>,
    res: Seq<(Seq<char>, Seq<char>)>,
)
    requires
        is_rhyme_search_result(d, word, mode, filter_lang, res),
        is_known_language(filter_lang),
    ensures
        forall|k: int| 0 <= k < res.len() ==> (#[trigger] res[k]).1 == upper_form(filter_lang),
{
    lemma_known_languages_ascii();
    if eq_ignore_ascii_case(filter_lang, "de"@) {
        lemma_ascii_case_agreement(filter_lang, "de"@);
    } else {
        lemma_ascii_case_agreement(filter_lang, "en"@);
    }
    let l = ascii_lowercase(filter_lang);
    assert(language_filter(filter_lang) == Some(l));
    assert(is_ascii_text(l)) by {
        lemma_lower_form_ascii(filter_lang);
    }
    assert(upper_form(l) == upper_form(filter_lang)) by {
        assert forall|i: int| 0 <= i < l.len() implies #[trigger] ascii_uppercase(l)[i] == ascii_uppercase(filter_lang)[i] by {
            assert((filter_lang[i] as u32) < 128);
        }
        assert(ascii_uppercase(l) =~= ascii_uppercase(filter_lang));
    }
    match (word_lookup(d, word, "auto"@), rhyme_mode(mode)) {
        (Some(target), Some(m)) => {
            let pool = rhyme_pool(d, m, target, lower_form(word), language_filter(filter_lang));
            let c = choose|c: Seq<usize>| {
                &&& is_ranked_prefix(d, pool, c, RHYME_LIMIT as int)
                &&& res.len() == c.len()
                &&& forall|k: int|
                    0 <= k < c.len() ==> #[trigger] res[k] == (
                        text_or_empty(d[c[k] as int].word),
                        upper_form(text_or_empty(d[c[k] as int].lang)),
                    )
            };
            assert forall|k: int| 0 <= k < res.len() implies (#[trigger] res[k]).1 == upper_form(filter_lang) by {
                assert(pool.contains(c[k] as int));
                assert(d[c[k] as int].lang == Some(l));
            }
        },
        _ => {},
    }
}

/// Every language a search returns is its own upper-case form where the
/// row's language is ASCII text.
pub proof fn lemma_returned_languages_upper_case(
    d: Seq<EntryView>,
    word: Seq<char>,
    mode: Seq<char>,
    filter_lang: Seq<char>,
    res: Seq<(Seq<char>, Seq<char>)>,
)
    requires
        is_rhyme_search_result(d, word, mode, filter_lang, res),
        forall|i: int| 0 <= i < d.len() ==> is_ascii_text(text_or_empty(#[trigger] d[i].lang)),
    ensures
        forall|k: int| 0 <= k < res.len() ==> upper_form((#[trigger] res[k]).1) == res[k].1,
{
    match (word_lookup(d, word, "auto"@), rhyme_mode(mode)) {
        (Some(target), Some(m)) => {
            let pool = rhyme_pool(d, m, target, lower_form(word), language_filter(filter_lang));
            let c = choose|c: Seq<usize>| {
                &&& is_ranked_prefix(d, pool, c, RHYME_LIMIT as int)
                &&& res.len() == c.len()
                &&& forall|k: int|
                    0 <= k < c.len() ==> #[trigger] res[k] == (
                        text_or_empty(d[c[k] as int].word),
                        upper_form(text_or_empty(d[c[k] as int].lang)),
                    )
            };
            assert forall|k: int| 0 <= k < res.len() implies upper_form((#[trigger] res[k]).1) == res[k].1 by {
                assert(pool.contains(c[k] as int));
                let t = text_or_empty(d[c[k] as int].lang);
                assert(is_ascii_text(t));
                let u = ascii_uppercase(t);
                assert forall|i: int| 0 <= i < u.len() implies (#[trigger] u[i] as u32) < 128 by {
                    assert((t[i] as u32) < 128);
                }
                assert forall|i: int| 0 <= i < u.len() implies #[trigger] ascii_uppercase(u)[i] == u[i] by {
                    assert((t[i] as u32) < 128);
                }
                assert(ascii_uppercase(u) =~= u);
            }
        },
        _ => {},
    }
}

/// Row `cand[p]` ranks before row `cand[q]`.
fn rank_less(dict: &Dictionary, cand: &Vec<usize>, words: &Vec<Vec<char>>, p: usize, q: usize) -> (res: bool)
    requires
        p < cand.len(),
        q < cand.len(),
        cand.len() == words.len(),
        forall|r: int|
            0 <= r < cand.len() ==> (#[trigger] cand@[r]) < dict@.len() && words@[r]@ == text_or_empty(
                dict@[cand@[r] as int].word,
            ),
    ensures
        res == ranks_before(dict@, cand@[p as int] as int, cand@[q as int] as int),
{
    let i = cand[p];
    let j = cand[q];
    let a = &dict.entries[i];
    let b = &dict.entries[j];
    assert(dict@[i as int] == a@ && dict@[j as int] == b@);
    let syll_less = match (a.syllables, b.syllables) {
        (None, Some(_)) => true,
        (Some(x), Some(y)) => x < y,
        _ => false,
    };
    if syll_less {
        return true;
    }
    let same_syll = match (a.syllables, b.syllables) {
        (None, None) => true,
        (Some(x), Some(y)) => x == y,
        _ => false,
    };
    if !same_syll {
        return false;
    }
    if chars_less(&words[p], &words[q]) {
        return true;
    }
    chars_eq(&words[p], &words[q]) && i < j
}

/// The first `limit` rows of `cand`, in rank order.
fn select_ranked(dict: &Dictionary, cand: &Vec<usize>, words: &Vec<Vec<char>>, limit: usize) -> (chosen: Vec<usize>)
    requires
        limit > 0,
        cand.len() == words.len(),
        forall|r: int|
            0 <= r < cand.len() ==> (#[trigger] cand@[r]) < dict@.len() && words@[r]@ == text_or_empty(
                dict@[cand@[r] as int].word,
            ),
    ensures
        is_ranked_prefix(dict@, Set::new(|i: int| 0 <= i <= usize::MAX && cand@.contains(i as usize)), chosen@, limit as int),
{
    let ghost d = dict@;
    let ghost pool = Set::new(|i: int| 0 <= i <= usize::MAX && cand@.contains(i as usize));
    let mut chosen: Vec<usize> = Vec::new();
    let mut last: Option<usize> = None;
    while chosen.len() < limit
        invariant
            d == dict@,
            pool == Set::new(|i: int| 0 <= i <= usize::MAX && cand@.contains(i as usize)),
            cand.len() == words.len(),
            forall|r: int|
                0 <= r < cand.len() ==> (#[trigger] cand@[r]) < dict@.len() && words@[r]@ == text_or_empty(
                    dict@[cand@[r] as int].word,
                ),
            limit > 0,
            chosen.len() <= limit,
            last is None <==> chosen.len() == 0,
            last matches Some(l) ==> l < cand.len() && chosen@.last() == cand@[l as int],
            forall|k: int| 0 <= k < chosen.len() ==> #[trigger] pool.contains(chosen@[k] as int),
            forall|a: int, b: int|
                0 <= a < b < chosen.len() ==> ranks_before(d, #[trigger] chosen@[a] as int, #[trigger] chosen@[b] as int),
            forall|i: int|
                #[trigger] pool.contains(i) && !chosen@.contains(i as usize) && chosen.len() > 0 ==> ranks_before(
                    d,
                    chosen@.last() as int,
                    i,
                ),
        decreases limit - chosen.len(),
    {
        let mut best: Option<usize> = None;
        let mut p: usize = 0;
        while p < cand.len()
            invariant
                d == dict@,
                cand.len() == words.len(),
                forall|r: int|
                    0 <= r < cand.len() ==> (#[trigger] cand@[r]) < dict@.len() && words@[r]@ == text_or_empty(
                        dict@[cand@[r] as int].word,
                    ),
                last matches Some(l) ==> l < cand.len(),
                p <= cand.len(),
                best matches Some(b) ==> b < p && (last matches Some(l) ==> ranks_before(
                    d,
                    cand@[l as int] as int,
                    cand@[b as int] as int,
                )),
                forall|q: int|
                    0 <= q < p && (last matches Some(l) ==> ranks_before(d, cand@[l as int] as int, #[trigger] cand@[q] as int))
                        ==> (best matches Some(b) && (cand@[b as int] == cand@[q] || ranks_before(
                        d,
                        cand@[b as int] as int,
                        cand@[q] as int,
                    ))),
            decreases cand.len() - p,
        {
            let after_last = match last {
                None => true,
                Some(l) => rank_less(dict, cand, words, l, p),
            };
            if after_last {
                let better = match best {
                    None => true,
                    Some(b) => rank_less(dict, cand, words, p, b),
                };
                if better {
                    proof {
                        if let Some(b) = best {
                            assert forall|q: int|
                                0 <= q < p && (last matches Some(l) ==> ranks_before(
                                    d,
                                    cand@[l as int] as int,
                                    #[trigger] cand@[q] as int,
                                )) implies (cand@[p as int] == cand@[q] || ranks_before(
                                d,
                                cand@[p as int] as int,
                                cand@[q] as int,
                            )) by {
                                if cand@[b as int] != cand@[q] {
                                    lemma_rank_transitive(d, cand@[p as int] as int, cand@[b as int] as int, cand@[q] as int);
                                }
                            }
                        }
                    }
                    best = Some(p);
                } else {
                    proof {
                        let b = best->0;
                        lemma_rank_total(d, cand@[p as int] as int, cand@[b as int] as int);
                    }
                }
            }
            p = p + 1;
        }
        match best {
            None => {
                proof {
                    assert forall|i: int| #[trigger] pool.contains(i) implies chosen@.contains(i as usize) by {
                        let q = choose|q: int| 0 <= q < cand.len() && cand@[q] == i as usize;
                        assert(cand@[q] as int == i);
                        if !chosen@.contains(i as usize) {
                            if chosen.len() == 0 {
                                assert(false);
                            } else {
                                assert(ranks_before(d, chosen@.last() as int, i));
                                assert(false);
                            }
                        }
                    }
                }
                return chosen;
            },
            Some(b) => {
                let x = cand[b];
                let ghost old_chosen = chosen@;
                proof {
                    assert(pool.contains(x as int)) by {
                        assert(cand@[b as int] == x);
                    }
                    assert(!old_chosen.contains(x)) by {
                        if old_chosen.contains(x) {
                            let k = choose|k: int| 0 <= k < old_chosen.len() && old_chosen[k] == x;
                            if k < old_chosen.len() - 1 {
                                lemma_rank_transitive(d, x as int, old_chosen.last() as int, x as int);
                            }
                            lemma_rank_irreflexive(d, x as int);
                            lemma_rank_total(d, x as int, old_chosen.last() as int);
                        }
                    }
                }
                chosen.push(x);
                last = Some(b);
                proof {
                    assert forall|a: int, c: int|
                        0 <= a < c < chosen.len() implies ranks_before(d, #[trigger] chosen@[a] as int, #[trigger] chosen@[c] as int) by {
                        if c == chosen.len() - 1 && a < c - 1 {
                            lemma_rank_transitive(d, chosen@[a] as int, old_chosen.last() as int, x as int);
                        }
                    }
                    assert forall|i: int|
                        #[trigger] pool.contains(i) && !chosen@.contains(i as usize) && chosen.len() > 0 implies ranks_before(
                        d,
                        chosen@.last() as int,
                        i,
                    ) by {
                        let q = choose|q: int| 0 <= q < cand.len() && cand@[q] == i as usize;
                        assert(cand@[q] as int == i);
                        assert(!old_chosen.contains(i as usize)) by {
                            if old_chosen.contains(i as usize) {
                                let k = choose|k: int| 0 <= k < old_chosen.len() && old_chosen[k] == i as usize;
                                assert(chosen@[k] == i as usize);
                            }
                        }
                        assert(chosen@[chosen@.len() - 1] == x);
                        assert(i as usize != x);
                        lemma_rank_total(d, x as int, i);
                    }
                }
            },
        }
    }
    chosen
}


/// Every row that a rhyme search of `word` in `mode` under `filter_lang`
/// returns has a language (its `lang` column is not NULL); the search reads
/// the language of each row it returns.
pub open spec fn rhyme_languages_present(d: Seq<EntryView>, word: Seq<char>, mode: Seq<char>, filter_lang: Seq<char>) -> bool {
    match (word_lookup(d, word, "auto"@), rhyme_mode(mode)) {
        (Some(target), Some(m)) => forall|chosen: Seq<usize>|
            #[trigger] is_ranked_prefix(
                d,
                rhyme_pool(d, m, target, lower_form(word), language_filter(filter_lang)),
                chosen,
                RHYME_LIMIT as int,
            ) ==> forall|k: int| 0 <= k < chosen.len() ==> (#[trigger] d[chosen[k] as int]).lang is Some,
        _ => true,
    }
}

/// The model of a search result.
pub open spec fn pairs_view(v: Seq<(String, String)>) -> Seq<(Seq<char>, Seq<char>)> {
    v.map_values(|p: (String, String)| (p.0@, p.1@))
}

/// A row's vowels, normalised, equal `key`.
fn vowels_match_exec(e: &WordEntry, key: &Vec<char>) -> (res: bool)
    ensures
        res == vowels_match(e@, key@),
{
    match &e.vowels {
        Some(v) => {
            let n = normalize_vowels_of(v.as_str());
            chars_eq(&n, key)
        },
        None => false,
    }
}

/// Executable `is_rhyme_candidate`.
fn is_rhyme_candidate_exec(
    e: &WordEntry,
    mode: RhymeMode,
    target: &WordAttributes,
    target_key: &Vec<char>,
    word_lower: &String,
    filter: &Option<String>,
) -> (res: bool)
    requires
        target_key@ == normalize_vowels(target.vowels@),
    ensures
        res == is_rhyme_candidate(e@, mode, target@, word_lower@, opt_view(*filter)),
{
    let word_ok = match &e.word {
        Some(w) => !(*w == *word_lower),
        None => false,
    };
    if !word_ok {
        return false;
    }
    if !passes_language_exec(e, filter) {
        return false;
    }
    match mode {
        RhymeMode::Pure => opt_eq(&e.rhyme_part, &target.rhyme_part),
        RhymeMode::Assonance => {
            if !vowels_match_exec(e, target_key) {
                return false;
            }
            match &e.rhyme_part {
                Some(r) => !(*r == target.rhyme_part),
                None => false,
            }
        },
        RhymeMode::VowelSound => vowels_match_exec(e, target_key),
    }
}

/// The mode that a mode name selects.
fn rhyme_mode_of(mode: &str) -> (res: Option<RhymeMode>)
    ensures
        res == rhyme_mode(mode@),
{
    if str_eq(mode, "rein") {
        Some(RhymeMode::Pure)
    } else if str_eq(mode, "assonanz") {
        Some(RhymeMode::Assonance)
    } else if str_eq(mode, "vokalklang") {
        Some(RhymeMode::VowelSound)
    } else {
        None
    }
}

/// The rows that a search of `mode` returns for a word whose lower-case
/// form is `word_lower` and whose attributes are `target`, under the
/// language restriction `filter`: the first `RHYME_LIMIT` rows of the pool,
/// in rank order.
pub fn rhyme_rows(
    dict: &Dictionary,
    target: &WordAttributes,
    word_lower: &String,
    m: RhymeMode,
    filter: &Option<String>,
) -> (chosen: Vec<usize>)
    ensures
        is_ranked_prefix(dict@, rhyme_pool(dict@, m, target@, word_lower@, opt_view(*filter)), chosen@, RHYME_LIMIT as int),
{
    let target_key = normalize_vowels_of(target.vowels.as_str());
    let ghost d = dict@;
    let ghost f = opt_view(*filter);
    let ghost pool = rhyme_pool(d, m, target@, word_lower@, f);
    let mut cand: Vec<usize> = Vec::new();
    let mut words: Vec<Vec<char>> = Vec::new();
    let n = dict.entries.len();
    let mut i: usize = 0;
    while i < n
        invariant
            d == dict@,
            n == dict.entries.len(),
            i <= n,
            target_key@ == normalize_vowels(target.vowels@),
            f == opt_view(*filter),
            cand.len() == words.len(),
            forall|r: int|
                0 <= r < cand.len() ==> (#[trigger] cand@[r]) < i && words@[r]@ == text_or_empty(
                    d[cand@[r] as int].word,
                ) && is_rhyme_candidate(d[cand@[r] as int], m, target@, word_lower@, f),
            forall|j: int|
                0 <= j < i && is_rhyme_candidate(#[trigger] d[j], m, target@, word_lower@, f) ==> cand@.contains(
                    j as usize,
                ),
        decreases n - i,
    {
        let e = &dict.entries[i];
        assert(d[i as int] == e@);
        if is_rhyme_candidate_exec(e, m, target, &target_key, word_lower, filter) {
            let w = match &e.word {
                Some(w) => str_chars(w.as_str()),
                None => Vec::new(),
            };
            let ghost old_cand = cand@;
            cand.push(i);
            words.push(w);
            proof {
                assert forall|j: int|
                    0 <= j < i + 1 && is_rhyme_candidate(#[trigger] d[j], m, target@, word_lower@, f) implies cand@.contains(
                    j as usize,
                ) by {
                    if j < i {
                        let k = choose|k: int| 0 <= k < old_cand.len() && old_cand[k] == j as usize;
                        assert(cand@[k] == j as usize);
                    } else {
                        assert(cand@[cand@.len() - 1] == i);
                    }
                }
            }
        }
        i = i + 1;
    }
    let chosen = select_ranked(dict, &cand, &words, RHYME_LIMIT);
    proof {
        assert(pool =~= Set::new(|i: int| 0 <= i <= usize::MAX && cand@.contains(i as usize))) by {
            assert forall|j: int| pool.contains(j) implies 0 <= j <= usize::MAX && cand@.contains(j as usize) by {
                assert(is_rhyme_candidate(d[j], m, target@, word_lower@, f));
            }
            assert forall|j: int| 0 <= j <= usize::MAX && cand@.contains(j as usize) implies pool.contains(j) by {
                let k = choose|k: int| 0 <= k < cand@.len() && cand@[k] == j as usize;
                assert(cand@[k] as int == j);
            }
        }
    }
    chosen
}

/// The word and upper-case language of each row of `chosen`, or `None`
/// where one of them has no language.
fn rows_with_languages(dict: &Dictionary, chosen: &Vec<usize>) -> (res: Option<Vec<(String, String)>>)
    requires
        forall|r: int| 0 <= r < chosen.len() ==> (#[trigger] chosen@[r]) < dict@.len(),
    ensures
        match res {
            Some(v) => {
                &&& forall|r: int| 0 <= r < chosen.len() ==> (#[trigger] dict@[chosen@[r] as int]).lang is Some
                &&& pairs_view(v@).len() == chosen.len()
                &&& forall|r: int|
                    0 <= r < chosen.len() ==> #[trigger] pairs_view(v@)[r] == (
                        text_or_empty(dict@[chosen@[r] as int].word),
                        upper_form(text_or_empty(dict@[chosen@[r] as int].lang)),
                    )
            },
            None => exists|r: int| 0 <= r < chosen.len() && (#[trigger] dict@[chosen@[r] as int]).lang is None,
        },
{
    let ghost d = dict@;
    let mut res: Vec<(String, String)> = Vec::new();
    let mut k: usize = 0;
    while k < chosen.len()
        invariant
            d == dict@,
            k <= chosen.len(),
            forall|r: int| 0 <= r < chosen.len() ==> (#[trigger] chosen@[r]) < d.len(),
            forall|r: int| 0 <= r < k ==> (#[trigger] d[chosen@[r] as int]).lang is Some,
            res.len() == k,
            forall|r: int|
                0 <= r < k ==> (#[trigger] res@[r]).0@ == text_or_empty(d[chosen@[r] as int].word)
                    && res@[r].1@ == upper_form(text_or_empty(d[chosen@[r] as int].lang)),
        decreases chosen.len() - k,
    {
        let e = &dict.entries[chosen[k]];
        assert(d[chosen@[k as int] as int] == e@);
        let l = match &e.lang {
            Some(l) => to_uppercase(l.as_str()),
            None => {
                assert(d[chosen@[k as int] as int].lang is None);
                return None;
            },
        };
        let w = text_or_empty_exec(&e.word);
        res.push((w, l));
        k = k + 1;
    }
    proof {
        assert forall|r: int| 0 <= r < chosen.len() implies #[trigger] pairs_view(res@)[r] == (
            text_or_empty(d[chosen@[r] as int].word),
            upper_form(text_or_empty(d[chosen@[r] as int].lang)),
        ) by {
            assert(pairs_view(res@)[r] == (res@[r].0@, res@[r].1@));
        }
    }
    Some(res)
}

/// Finds rhymes for `word` in the dictionary, as `get_all_rhymes` does,
/// where every row it returns has a language; `None` where one of them has
/// none, on which `get_all_rhymes` has no result.
pub fn try_get_all_rhymes(dict: &Dictionary, word: &str, mode: &str, filter_lang: &str) -> (res: Option<Vec<(String, String)>>)
    ensures
        match res {
            Some(v) => rhyme_languages_present(dict@, word@, mode@, filter_lang@)
                && is_rhyme_search_result(dict@, word@, mode@, filter_lang@, pairs_view(v@)),
            None => !rhyme_languages_present(dict@, word@, mode@, filter_lang@),
        },
{
    let ghost d = dict@;
    let target = match get_word_attributes(dict, word, "auto") {
        Some(t) => t,
        None => {
            let empty: Vec<(String, String)> = Vec::new();
            assert(pairs_view(empty@) =~= Seq::empty());
            return Some(empty);
        },
    };
    let word_lower = to_lowercase(word);
    let m = match rhyme_mode_of(mode) {
        Some(m) => m,
        None => {
            let empty: Vec<(String, String)> = Vec::new();
            assert(pairs_view(empty@) =~= Seq::empty());
            return Some(empty);
        },
    };
    let filter = language_filter_of(filter_lang);
    let chosen = rhyme_rows(dict, &target, &word_lower, m, &filter);
    let ghost pool = rhyme_pool(d, m, target@, word_lower@, opt_view(filter));
    proof {
        assert(is_ranked_prefix(d, pool, chosen@, RHYME_LIMIT as int));
        assert forall|r: int| 0 <= r < chosen.len() implies (#[trigger] chosen@[r]) < d.len() by {
            assert(pool.contains(chosen@[r] as int));
        }
    }
    match rows_with_languages(dict, &chosen) {
        Some(res) => {
            proof {
                assert forall|c: Seq<usize>| #[trigger] is_ranked_prefix(d, pool, c, RHYME_LIMIT as int) implies forall|k: int|
                    0 <= k < c.len() ==> (#[trigger] d[c[k] as int]).lang is Some by {
                    lemma_ranked_prefix_unique(d, pool, c, chosen@, RHYME_LIMIT as int);
                }
                assert(pairs_view(res@).len() == chosen@.len());
            }
            Some(res)
        },
        None => {
            proof {
                let r = choose|r: int| 0 <= r < chosen.len() && (#[trigger] d[chosen@[r] as int]).lang is None;
                assert(is_ranked_prefix(d, pool, chosen@, RHYME_LIMIT as int));
                assert(d[chosen@[r] as int].lang is None);
            }
            None
        },
    }
}

/// Finds rhymes for `word` in the dictionary. The word is looked up in all
/// languages; `mode` is `rein` (rows with the same rhyme part),
/// `assonanz` (same vowels ignoring blanks and stress marks, different
/// rhyme part) or `vokalklang` (same vowels); the word itself is left out,
/// and `filter_lang` of `de` or `en` (any ASCII case) keeps only rows of
/// that language. The rows come ordered by syllables (NULL first), then by
/// word, at most `RHYME_LIMIT` of them, each as its word and upper-case
/// language. An unknown word or mode gives no rows. Every row returned must
/// have a language.
pub fn get_all_rhymes(dict: &Dictionary, word: &str, mode: &str, filter_lang: &str) -> (res: Vec<(String, String)>)
    requires
        rhyme_languages_present(dict@, word@, mode@, filter_lang@),
    ensures
        is_rhyme_search_result(dict@, word@, mode@, filter_lang@, pairs_view(res@)),
{
    match try_get_all_rhymes(dict, word, mode, filter_lang) {
        Some(res) => res,
        None => {
            proof {
                assert(false);
            }
            Vec::new()
        },
    }
}

} // verus!
