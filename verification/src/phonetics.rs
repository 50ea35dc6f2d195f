//! What the analysis reads from a word's dictionary entry: its phonemes,
//! how many of them carry a stress mark, its rhyme part and its vowels.

use vstd::prelude::*;
use crate::dictionary::{get_word_attributes, word_lookup, Dictionary, EntryView};
use crate::text::{chars_eq, str_chars};

verus! {

/// A stress mark closes a vowel phoneme: `0`, `1` or `2`.
pub open spec fn is_stress_mark(c: char) -> bool {
    c == '0' || c == '1' || c == '2'
}

/// Index `i` of a transcription holds the last character of a phoneme;
/// phonemes are separated by blanks.
pub open spec fn is_phoneme_end(s: Seq<char>, i: int) -> bool {
    s[i] != ' ' && (i + 1 == s.len() || s[i + 1] == ' ')
}

/// Number of phonemes of `s` that end before index `n`; with `stressed`
/// only those whose last character is a stress mark.
pub open spec fn phonemes_before(s: Seq<char>, n: int, stressed: bool) -> nat
    decreases n,
{
    if n <= 0 {
        0
    } else {
        phonemes_before(s, n - 1, stressed) + if is_phoneme_end(s, n - 1) && (!stressed
            || is_stress_mark(s[n - 1])) {
            1nat
        } else {
            0nat
        }
    }
}

/// Number of phonemes of a transcription that end in a stress mark: its
/// vowels, so its syllables.
pub open spec fn stressed_phoneme_count(s: Seq<char>) -> nat {
    phonemes_before(s, s.len() as int, true)
}

/// Counts the phonemes of `s` (with `stressed`, only the stressed ones).
pub fn count_phonemes(s: &str, stressed: bool) -> (res: usize)
    ensures
        res == phonemes_before(s@, s@.len() as int, stressed),
{
    let cs = str_chars(s);
    let mut count: usize = 0;
    let mut i: usize = 0;
    while i < cs.len()
        invariant
            cs@ == s@,
            i <= cs.len(),
            count <= i,
            count == phonemes_before(s@, i as int, stressed),
        decreases cs.len() - i,
    {
        let c = cs[i];
        let ends = c != ' ' && (i + 1 == cs.len() || cs[i + 1] == ' ');
        if ends && (!stressed || c == '0' || c == '1' || c == '2') {
            count = count + 1;
        }
        i = i + 1;
    }
    count
}

/// The pieces of a transcription between blanks, as `split(' ')` yields
/// them.
pub open spec fn split_blank(s: Seq<char>) -> Seq<Seq<char>>
    decreases s.len(),
{
    if s.len() == 0 {
        seq![Seq::empty()]
    } else {
        let p = split_blank(s.drop_last());
        if s.last() == ' ' {
            p.push(Seq::empty())
        } else {
            p.update(p.len() - 1, p.last().push(s.last()))
        }
    }
}

/// The vowel phonemes among `pieces` (those ending in a stress mark), with
/// the stress mark removed.
pub open spec fn stressed_vowels(pieces: Seq<Seq<char>>) -> Seq<Seq<char>>
    decreases pieces.len(),
{
    if pieces.len() == 0 {
        Seq::empty()
    } else {
        let p = stressed_vowels(pieces.drop_last());
        let t = pieces.last();
        if t.len() > 0 && is_stress_mark(t.last()) {
            p.push(t.drop_last())
        } else {
            p
        }
    }
}

/// The vowels of a rhyme part, without stress marks.
pub open spec fn rhyme_vowels(r: Seq<char>) -> Seq<Seq<char>> {
    stressed_vowels(split_blank(r))
}

/// The vowels of a word's transcription, in order, without stress marks.
pub open spec fn word_vowels(v: Seq<char>) -> Seq<Seq<char>> {
    stressed_vowels(split_blank(v))
}

/// The models of a list of phonemes.
pub open spec fn phonemes_view(v: Seq<Vec<char>>) -> Seq<Seq<char>> {
    v.map_values(|t: Vec<char>| t@)
}

/// The vowel phonemes of a transcription (those ending in a stress mark),
/// in order, without stress marks.
pub fn vowel_phonemes_of(r: &Vec<char>) -> (res: Vec<Vec<char>>)
    ensures
        phonemes_view(res@) == stressed_vowels(split_blank(r@)),
{
    let ghost s = r@;
    let mut done: Vec<Vec<char>> = Vec::new();
    let mut cur: Vec<char> = Vec::new();
    let mut i: usize = 0;
    assert(s.take(0) =~= Seq::<char>::empty());
    assert(split_blank(s.take(0)) =~= seq![Seq::<char>::empty()]);
    assert(phonemes_view(done@).push(cur@) =~= seq![Seq::<char>::empty()]);
    while i < r.len()
        invariant
            s == r@,
            i <= r.len(),
            split_blank(s.take(i as int)) == phonemes_view(done@).push(cur@),
        decreases r.len() - i,
    {
        let c = r[i];
        assert(s.take(i + 1).drop_last() =~= s.take(i as int));
        assert(s.take(i + 1).last() == c);
        if c == ' ' {
            let finished = cur;
            done.push(finished);
            cur = Vec::new();
            assert(phonemes_view(done@) =~= phonemes_view(done@.drop_last()).push(finished@));
            assert(phonemes_view(done@).push(cur@) =~= split_blank(s.take(i + 1)));
        } else {
            let ghost before = cur@;
            cur.push(c);
            assert(phonemes_view(done@).push(cur@) =~= phonemes_view(done@).push(before).update(
                phonemes_view(done@).len() as int,
                before.push(c),
            ));
        }
        i = i + 1;
    }
    assert(s.take(i as int) =~= s);
    done.push(cur);
    let ghost pieces = phonemes_view(done@);
    assert(pieces == split_blank(s));
    let mut out: Vec<Vec<char>> = Vec::new();
    let mut k: usize = 0;
    while k < done.len()
        invariant
            pieces == phonemes_view(done@),
            k <= done.len(),
            phonemes_view(out@) == stressed_vowels(pieces.take(k as int)),
        decreases done.len() - k,
    {
        assert(pieces.take(k + 1).drop_last() =~= pieces.take(k as int));
        assert(pieces.take(k + 1).last() == done@[k as int]@);
        let t = &done[k];
        if t.len() > 0 && (t[t.len() - 1] == '0' || t[t.len() - 1] == '1' || t[t.len() - 1] == '2') {
            let mut v: Vec<char> = Vec::new();
            let mut q: usize = 0;
            while q + 1 < t.len()
                invariant
                    q + 1 <= t.len(),
                    v@ == t@.take(q as int),
                decreases t.len() - q,
            {
                v.push(t[q]);
                assert(t@.take(q + 1) =~= t@.take(q as int).push(t@[q as int]));
                q = q + 1;
            }
            assert(v@ =~= t@.drop_last());
            let ghost before = phonemes_view(out@);
            out.push(v);
            assert(phonemes_view(out@) =~= before.push(t@.drop_last()));
        }
        k = k + 1;
    }
    assert(pieces.take(done.len() as int) =~= pieces);
    out
}

/// Equality of two lists of phonemes.
fn phonemes_eq(a: &Vec<Vec<char>>, b: &Vec<Vec<char>>) -> (res: bool)
    ensures
        res == (phonemes_view(a@) == phonemes_view(b@)),
{
    if a.len() != b.len() {
        return false;
    }
    let mut i: usize = 0;
    while i < a.len()
        invariant
            a.len() == b.len(),
            i <= a.len(),
            forall|k: int| 0 <= k < i ==> a@[k]@ == b@[k]@,
        decreases a.len() - i,
    {
        if !chars_eq(&a[i], &b[i]) {
            assert(phonemes_view(a@)[i as int] != phonemes_view(b@)[i as int]);
            return false;
        }
        i = i + 1;
    }
    assert(phonemes_view(a@) =~= phonemes_view(b@));
    true
}

/// The phonetic facts that rhyme detection compares.
pub struct PhoneticProfile {
    pub rhyme_part: Seq<char>,
    pub rhyme_vowels: Seq<Seq<char>>,
    pub vowels: Seq<Seq<char>>,
}

/// The profile of `word` in language `lang`: there is none where the
/// dictionary lacks the word or records no rhyme part for it.
pub open spec fn phonetic_profile(d: Seq<EntryView>, word: Seq<char>, lang: Seq<char>) -> Option<PhoneticProfile> {
    match word_lookup(d, word, lang) {
        Some(a) => if a.rhyme_part.len() > 0 {
            Some(
                PhoneticProfile {
                    rhyme_part: a.rhyme_part,
                    rhyme_vowels: rhyme_vowels(a.rhyme_part),
                    vowels: word_vowels(a.vowels),
                },
            )
        } else {
            None
        },
        None => None,
    }
}

/// Executable phonetic profile.
pub struct Profile {
    pub rhyme_part: Vec<char>,
    pub rhyme_vowels: Vec<Vec<char>>,
    pub vowels: Vec<Vec<char>>,
}

/// The model of a profile.
pub open spec fn profile_view(p: Option<Profile>) -> Option<PhoneticProfile> {
    match p {
        Some(p) => Some(
            PhoneticProfile {
                rhyme_part: p.rhyme_part@,
                rhyme_vowels: phonemes_view(p.rhyme_vowels@),
                vowels: phonemes_view(p.vowels@),
            },
        ),
        None => None,
    }
}

/// Looks up the profile of `word` in language `lang`.
pub fn profile_of(dict: &Dictionary, word: &str, lang: &str) -> (res: Option<Profile>)
    ensures
        profile_view(res) == phonetic_profile(dict@, word@, lang@),
{
    match get_word_attributes(dict, word, lang) {
        Some(a) => {
            let rhyme = str_chars(a.rhyme_part.as_str());
            if rhyme.len() > 0 {
                let rv = vowel_phonemes_of(&rhyme);
                let wv = vowel_phonemes_of(&str_chars(a.vowels.as_str()));
                Some(Profile { rhyme_part: rhyme, rhyme_vowels: rv, vowels: wv })
            } else {
                None
            }
        },
        None => None,
    }
}

/// The strength of the sound match between two words, from strongest to
/// weakest.
#[derive(Clone, Copy, Debug, PartialEq, Eq)]
pub enum MatchKind {
    /// A pure rhyme that ends a line.
    MossGreen,
    /// A pure rhyme of two words inside their lines (shown purple).
    InnerRhyme,
    /// An assonance.
    Yellow,
    /// A shared vowel sound (shown purple).
    VowelSound,
}

/// The priority of a match kind: 4 for the strongest, 1 for the weakest.
pub open spec fn kind_priority(k: MatchKind) -> u8 {
    match k {
        MatchKind::MossGreen => 4,
        MatchKind::InnerRhyme => 3,
        MatchKind::Yellow => 2,
        MatchKind::VowelSound => 1,
    }
}

/// The colour name that the editor shows for a match kind: green for pure
/// end rhymes, yellow for assonances, purple for inner rhymes and vowel
/// sounds.
pub open spec fn kind_name(k: MatchKind) -> Seq<char> {
    match k {
        MatchKind::MossGreen => "moss-green"@,
        MatchKind::InnerRhyme => "purple"@,
        MatchKind::Yellow => "yellow"@,
        MatchKind::VowelSound => "purple"@,
    }
}

/// How two words with profiles `a` and `b` match: a pure rhyme (same rhyme
/// part) counts unless a stop word takes part, where it still counts when
/// both words end their lines, and it is moss green when either word ends
/// its line and an inner rhyme, shown purple, otherwise; otherwise, without stop words, an assonance (rhyme parts with
/// the same vowels but not the same phonemes) is yellow and a shared vowel
/// sound (the same vowel phonemes, stress marks removed, in the same order
/// over both whole words, at least two of them) is
/// purple.
pub open spec fn classify(
    a: PhoneticProfile,
    b: PhoneticProfile,
    stop: bool,
    end_a: bool,
    end_b: bool,
) -> Option<MatchKind> {
    let pure = a.rhyme_part == b.rhyme_part;
    let assonance = a.rhyme_vowels == b.rhyme_vowels && a.rhyme_part != b.rhyme_part;
    let vocal = a.vowels.len() >= 2 && a.vowels == b.vowels;
    if pure && (!stop || (end_a && end_b)) {
        if end_a || end_b {
            Some(MatchKind::MossGreen)
        } else {
            Some(MatchKind::InnerRhyme)
        }
    } else if assonance && !stop {
        Some(MatchKind::Yellow)
    } else if vocal && !stop {
        Some(MatchKind::VowelSound)
    } else {
        None
    }
}

/// A stop word takes part only in a pure rhyme of two line ends, which is
/// moss green.
pub proof fn lemma_stop_words_only_in_end_rhymes(a: PhoneticProfile, b: PhoneticProfile, end_a: bool, end_b: bool)
    ensures
        classify(a, b, true, end_a, end_b) is Some ==> classify(a, b, true, end_a, end_b) == Some(MatchKind::MossGreen)
            && end_a && end_b && a.rhyme_part == b.rhyme_part,
{
}

/// A pure rhyme at a line end is moss green unless a stop word inside a
/// line takes part.
pub proof fn lemma_end_rhymes_are_moss_green(a: PhoneticProfile, b: PhoneticProfile, stop: bool, end_a: bool, end_b: bool)
    requires
        a.rhyme_part == b.rhyme_part,
        end_a || end_b,
        !stop || (end_a && end_b),
    ensures
        classify(a, b, stop, end_a, end_b) == Some(MatchKind::MossGreen),
{
}

/// What each colour means: green pairs share their rhyme part, yellow
/// pairs share the vowels of their rhyme parts but not the rhyme parts, and
/// purple pairs have the same list of at least two vowels over the whole
/// word, or are pure rhymes inside their lines.
pub proof fn lemma_colours(a: PhoneticProfile, b: PhoneticProfile, stop: bool, end_a: bool, end_b: bool)
    ensures
        classify(a, b, stop, end_a, end_b) == Some(MatchKind::MossGreen) ==> a.rhyme_part == b.rhyme_part && (end_a
            || end_b),
        classify(a, b, stop, end_a, end_b) == Some(MatchKind::InnerRhyme) ==> a.rhyme_part == b.rhyme_part && !end_a
            && !end_b && !stop,
        classify(a, b, stop, end_a, end_b) == Some(MatchKind::Yellow) ==> a.rhyme_vowels == b.rhyme_vowels
            && a.rhyme_part != b.rhyme_part && !stop,
        classify(a, b, stop, end_a, end_b) == Some(MatchKind::VowelSound) ==> a.vowels == b.vowels && a.vowels.len()
            >= 2 && !stop,
{
}

/// How two words match does not depend on their order.
pub proof fn lemma_classify_symmetric(a: PhoneticProfile, b: PhoneticProfile, stop: bool, end_a: bool, end_b: bool)
    ensures
        classify(a, b, stop, end_a, end_b) == classify(b, a, stop, end_b, end_a),
{
}

/// A shared vowel sound (the same list of at least two vowels over the
/// whole words) of two words that neither rhyme purely nor form an
/// assonance is purple whether or not the words end their lines, unless a
/// stop word takes part.
pub proof fn lemma_vowel_sound_ignores_line_ends(a: PhoneticProfile, b: PhoneticProfile, stop: bool, end_a: bool, end_b: bool)
    requires
        a.rhyme_part != b.rhyme_part,
        a.rhyme_vowels != b.rhyme_vowels,
        a.vowels.len() >= 2,
        a.vowels == b.vowels,
        !stop,
    ensures
        classify(a, b, stop, end_a, end_b) == Some(MatchKind::VowelSound),
        kind_name(MatchKind::VowelSound) == "purple"@,
{
}

/// An assonance (rhyme parts with the same vowels, not the same phonemes)
/// without stop words is yellow whether or not the words end their lines.
pub proof fn lemma_assonance_ignores_line_ends(a: PhoneticProfile, b: PhoneticProfile, end_a: bool, end_b: bool)
    requires
        a.rhyme_part != b.rhyme_part,
        a.rhyme_vowels == b.rhyme_vowels,
    ensures
        classify(a, b, false, end_a, end_b) == Some(MatchKind::Yellow),
{
}

/// A pure rhyme of two words inside their lines, without stop words, is an
/// inner rhyme, shown purple, and outranks an assonance and a vowel sound.
pub proof fn lemma_inner_rhyme(a: PhoneticProfile, b: PhoneticProfile)
    requires
        a.rhyme_part == b.rhyme_part,
    ensures
        classify(a, b, false, false, false) == Some(MatchKind::InnerRhyme),
        kind_name(MatchKind::InnerRhyme) == "purple"@,
        kind_priority(MatchKind::InnerRhyme) > kind_priority(MatchKind::Yellow),
        kind_priority(MatchKind::Yellow) > kind_priority(MatchKind::VowelSound),
{
}

/// Two words with neither the same rhyme part, nor rhyme parts with the
/// same vowels, nor the same list of at least two vowels do not match.
pub proof fn lemma_no_shared_sound_no_match(a: PhoneticProfile, b: PhoneticProfile, stop: bool, end_a: bool, end_b: bool)
    requires
        a.rhyme_part != b.rhyme_part,
        a.rhyme_vowels != b.rhyme_vowels,
        !(a.vowels.len() >= 2 && a.vowels == b.vowels),
    ensures
        classify(a, b, stop, end_a, end_b) is None,
{
}

/// Executable `classify`.
pub fn classify_profiles(a: &Profile, b: &Profile, stop: bool, end_a: bool, end_b: bool) -> (res: Option<MatchKind>)
    ensures
        res == classify(profile_view(Some(*a))->0, profile_view(Some(*b))->0, stop, end_a, end_b),
{
    let pure = chars_eq(&a.rhyme_part, &b.rhyme_part);
    let same_vowels = phonemes_eq(&a.vowels, &b.vowels);
    let assonance = phonemes_eq(&a.rhyme_vowels, &b.rhyme_vowels) && !pure;
    let vocal = a.vowels.len() >= 2 && same_vowels;
    if pure && (!stop || (end_a && end_b)) {
        if end_a || end_b {
            Some(MatchKind::MossGreen)
        } else {
            Some(MatchKind::InnerRhyme)
        }
    } else if assonance && !stop {
        Some(MatchKind::Yellow)
    } else if vocal && !stop {
        Some(MatchKind::VowelSound)
    } else {
        None
    }
}

/// The words that count as a rhyme only in a pure rhyme at two line ends.
pub open spec fn stop_words() -> Seq<Seq<char>> {
    seq![
        "der"@, "die"@, "das"@, "ein"@, "eine"@, "in"@, "im"@, "den"@, "dem"@, "mich"@, "und"@,
        "oder"@, "ist"@, "sind"@, "ich"@, "du"@, "er"@, "sie"@, "es"@, "wir"@, "ihr"@,
    ]
}

/// `w` is one of the stop words.
pub fn is_stop_word(w: &Vec<char>) -> (res: bool)
    ensures
        res == stop_words().contains(w@),
{
    let list: [&str; 21] = [
        "der", "die", "das", "ein", "eine", "in", "im", "den", "dem", "mich", "und",
        "oder", "ist", "sind", "ich", "du", "er", "sie", "es", "wir", "ihr",
    ];
    assert(list@.map_values(|x: &str| x@) =~= stop_words());
    let mut i: usize = 0;
    while i < 21
        invariant
            i <= 21,
            list@.map_values(|x: &str| x@) == stop_words(),
            forall|k: int| 0 <= k < i ==> stop_words()[k] != w@,
        decreases 21 - i,
    {
        let cs = str_chars(list[i]);
        assert(list@.map_values(|x: &str| x@)[i as int] == list@[i as int]@);
        if chars_eq(&cs, w) {
            assert(stop_words()[i as int] == w@);
            return true;
        }
        i = i + 1;
    }
    false
}

} // verus!
