//! Hyphenation of single words, delegated to the `hyphenation` crate.

use vstd::prelude::*;
use hyphenation::Hyphenator;
use hyphenation::Load;
use crate::text::lowercase;

verus! {

/// The embedded hyphenation dictionaries that syllable counting uses.
#[derive(Clone, Copy, Debug, PartialEq, Eq)]
pub enum HyphenationLanguage {
    EnglishUS,
    German1996,
}

/// The number of segments into which the embedded `hyphenation` dictionary
/// for `lang` splits `word`, or `None` where that dictionary cannot be
/// loaded.
pub uninterp spec fn hyphenation_segments(lang: HyphenationLanguage, word: Seq<char>) -> Option<usize>;

/// Loads the embedded `hyphenation::Standard` dictionary for `lang`
/// (`Load::from_embedded`), hyphenates `word` (`Hyphenator::hyphenate`) and
/// counts the segments. Trusted: the result is `hyphenation_segments` of the
/// arguments, and a count is at least 1, since `Segments` yields one segment
/// more than there are breaks; which breaks the patterns give is not stated.
/// `hyphenate` lower-cases a word that holds an upper-case letter and applies
/// the break offsets found there to the word as given, which panics where
/// lower-casing changes the width of a character; so the word must already
/// be its own lower-case form, and then the breaks fall on its character
/// boundaries.
#[verifier::external_body]
pub(crate) fn hyphenated_segment_count(lang: HyphenationLanguage, word: &str) -> (res: Option<usize>)
    requires
        lowercase(word@) == word@,
    ensures
        res == hyphenation_segments(lang, word@),
        res matches Some(n) ==> n >= 1,
{
    let language = match lang {
        HyphenationLanguage::EnglishUS => hyphenation::Language::EnglishUS,
        HyphenationLanguage::German1996 => hyphenation::Language::German1996,
    };
    match hyphenation::Standard::from_embedded(language) {
        Ok(dict) => Some(dict.hyphenate(word).into_iter().segments().count()),
        Err(_) => None,
    }
}

} // verus!
