use lyricforge::dictionary::{
    get_all_rhymes, get_word_attributes, rhyme_rows, try_get_all_rhymes, Dictionary, RhymeMode, WordEntry,
};

fn s(x: &str) -> Option<String> {
    Some(x.to_string())
}

fn entry(word: &str, lang: &str, syllables: Option<i64>, rhyme: &str, vowels: &str) -> WordEntry {
    WordEntry {
        word: s(word),
        lang: s(lang),
        ipa: s(&format!("/{}/", word)),
        syllables,
        rhyme_part: s(rhyme),
        vowels: s(vowels),
    }
}

fn sample() -> Dictionary {
    Dictionary {
        entries: vec![
            entry("haus", "de", Some(1), "AW1 S", "AW1"),
            entry("maus", "de", Some(1), "AW1 S", "AW1"),
            entry("house", "en", Some(1), "AW1 S", "AW1"),
            entry("haus", "en", Some(1), "AW1 Z", "AW1"),
            entry("laus", "de", None, "AW1 S", "AW1"),
            entry("baum", "de", Some(1), "AW1 M", "AW1"),
            entry("raum", "de", Some(1), "AW1 M", "AW1"),
            entry("blau", "de", Some(1), "AW1", "AW1"),
            entry("zuhaus", "de", Some(2), "AW1 S", "UW0 AW1"),
        ],
    }
}

#[test]
fn lookup_is_case_insensitive_in_the_word() {
    let d = sample();
    let a = get_word_attributes(&d, "HaUs", "de").unwrap();
    assert_eq!(a.ipa, "/haus/");
    assert_eq!(a.rhyme_part, "AW1 S");
}

#[test]
fn lookup_restricts_to_known_language() {
    let d = sample();
    let a = get_word_attributes(&d, "haus", "EN").unwrap();
    assert_eq!(a.rhyme_part, "AW1 Z");
    let b = get_word_attributes(&d, "haus", "De").unwrap();
    assert_eq!(b.rhyme_part, "AW1 S");
}

#[test]
fn lookup_with_other_language_takes_first_row() {
    let d = sample();
    let a = get_word_attributes(&d, "haus", "auto").unwrap();
    assert_eq!(a.rhyme_part, "AW1 S");
    let b = get_word_attributes(&d, "house", "fr").unwrap();
    assert_eq!(b.ipa, "/house/");
}

#[test]
fn lookup_of_unknown_word_is_none() {
    let d = sample();
    assert!(get_word_attributes(&d, "katze", "de").is_none());
    assert!(get_word_attributes(&d, "house", "de").is_none());
    let empty = Dictionary { entries: vec![] };
    assert!(get_word_attributes(&empty, "haus", "de").is_none());
}

#[test]
fn null_columns_read_as_defaults() {
    let d = Dictionary {
        entries: vec![WordEntry { word: s("leer"), lang: s("de"), ipa: None, syllables: None, rhyme_part: None, vowels: None }],
    };
    let a = get_word_attributes(&d, "leer", "de").unwrap();
    assert_eq!(a.ipa, "");
    assert_eq!(a.syllables, 1);
    assert_eq!(a.rhyme_part, "");
    assert_eq!(a.vowels, "");
}

#[test]
fn syllable_column_is_read_as_i32() {
    let d = Dictionary {
        entries: vec![
            entry("gross", "de", Some(5_000_000_000), "", ""),
            entry("neg", "de", Some(-1), "", ""),
            entry("drei", "de", Some(3), "", ""),
        ],
    };
    assert_eq!(get_word_attributes(&d, "gross", "de").unwrap().syllables, 1);
    assert_eq!(get_word_attributes(&d, "neg", "de").unwrap().syllables, usize::MAX);
    assert_eq!(get_word_attributes(&d, "drei", "de").unwrap().syllables, 3);
}

#[test]
fn pure_rhymes_are_ordered_and_exclude_the_word() {
    let d = sample();
    let r = get_all_rhymes(&d, "Haus", "rein", "any");
    // NULL syllables first, then by syllables and word; the word itself is left out
    let words: Vec<(&str, &str)> = r.iter().map(|(w, l)| (w.as_str(), l.as_str())).collect();
    assert_eq!(words, vec![("laus", "DE"), ("house", "EN"), ("maus", "DE"), ("zuhaus", "DE")]);
}

#[test]
fn pure_rhymes_respect_language_filter() {
    let d = sample();
    let r = get_all_rhymes(&d, "maus", "rein", "EN");
    let words: Vec<(&str, &str)> = r.iter().map(|(w, l)| (w.as_str(), l.as_str())).collect();
    assert_eq!(words, vec![("house", "EN")]);
    let r = get_all_rhymes(&d, "maus", "rein", "de");
    let words: Vec<&str> = r.iter().map(|(w, _)| w.as_str()).collect();
    assert_eq!(words, vec!["laus", "haus", "zuhaus"]);
}

#[test]
fn rhymes_of_english_row_use_its_language() {
    let d = sample();
    let r = get_all_rhymes(&d, "house", "rein", "auto");
    let words: Vec<(&str, &str)> = r.iter().map(|(w, l)| (w.as_str(), l.as_str())).collect();
    assert_eq!(words, vec![("laus", "DE"), ("haus", "DE"), ("maus", "DE"), ("zuhaus", "DE")]);
}

#[test]
fn assonance_has_same_vowels_and_other_rhyme_part() {
    let d = sample();
    let r = get_all_rhymes(&d, "haus", "assonanz", "de");
    let words: Vec<&str> = r.iter().map(|(w, _)| w.as_str()).collect();
    assert_eq!(words, vec!["baum", "blau", "raum"]);
}

#[test]
fn vowel_sound_includes_assonance_and_pure_rhymes() {
    let d = sample();
    let r = get_all_rhymes(&d, "haus", "vokalklang", "de");
    let words: Vec<&str> = r.iter().map(|(w, _)| w.as_str()).collect();
    assert_eq!(words, vec!["laus", "baum", "blau", "maus", "raum"]);
    let asso = get_all_rhymes(&d, "haus", "assonanz", "de");
    for a in asso {
        assert!(words.contains(&a.0.as_str()));
    }
}

#[test]
fn unknown_mode_or_word_gives_nothing() {
    let d = sample();
    assert!(get_all_rhymes(&d, "haus", "reim", "de").is_empty());
    assert!(get_all_rhymes(&d, "katze", "rein", "de").is_empty());
}

#[test]
fn rhyme_search_is_limited() {
    let mut entries = vec![entry("ziel", "de", Some(1), "IY1 L", "IY1")];
    for i in 0..300 {
        entries.push(entry(&format!("w{:03}", i), "de", Some((i % 3) as i64), "IY1 L", "IY1"));
    }
    let d = Dictionary { entries };
    let r = get_all_rhymes(&d, "ziel", "rein", "de");
    assert_eq!(r.len(), 250);
    assert_eq!(r[0].0, "w000");
    assert_eq!(r[1].0, "w003");
    assert_eq!(r[99].0, "w297");
    assert_eq!(r[100].0, "w001");
}

#[test]
fn rhyme_search_is_deterministic() {
    let d = sample();
    assert_eq!(get_all_rhymes(&d, "haus", "vokalklang", "auto"), get_all_rhymes(&d, "haus", "vokalklang", "auto"));
}

#[test]
fn pure_rhymes_and_assonances_are_disjoint() {
    let d = sample();
    let pure = get_all_rhymes(&d, "haus", "rein", "de");
    let asso = get_all_rhymes(&d, "haus", "assonanz", "de");
    for p in &pure {
        assert!(!asso.contains(p));
    }
    assert!(!pure.is_empty() && !asso.is_empty());
}

#[test]
fn ranked_rows_of_a_search() {
    let d = sample();
    let target = get_word_attributes(&d, "haus", "de").unwrap();
    let rows = rhyme_rows(&d, &target, &"haus".to_string(), RhymeMode::Pure, &Some("de".to_string()));
    assert_eq!(rows, vec![4, 1, 8]);
    let rows = rhyme_rows(&d, &target, &"haus".to_string(), RhymeMode::Assonance, &None);
    assert_eq!(rows, vec![5, 7, 6]);
}

#[test]
fn a_returned_row_without_language_is_refused() {
    let mut d = sample();
    d.entries[4].lang = None;
    assert_eq!(try_get_all_rhymes(&d, "haus", "rein", "auto"), None);
    // the row is not returned under a language filter, so the search succeeds
    let r = try_get_all_rhymes(&d, "haus", "rein", "de").unwrap();
    let words: Vec<&str> = r.iter().map(|(w, _)| w.as_str()).collect();
    assert_eq!(words, vec!["maus", "zuhaus"]);
}

#[test]
fn a_row_without_language_outside_the_result_is_harmless() {
    let mut d = sample();
    d.entries[5].lang = None;
    let r = try_get_all_rhymes(&d, "haus", "rein", "auto").unwrap();
    assert_eq!(r, get_all_rhymes(&d, "haus", "rein", "auto"));
    assert_eq!(r.len(), 4);
}

#[test]
fn rhyme_search_ignores_case_of_word_and_filter() {
    let d = sample();
    assert_eq!(get_all_rhymes(&d, "HAUS", "rein", "DE"), get_all_rhymes(&d, "haus", "rein", "de"));
    assert_eq!(get_all_rhymes(&d, "Haus", "assonanz", "En"), get_all_rhymes(&d, "haus", "assonanz", "en"));
    assert_eq!(get_all_rhymes(&d, "haus", "rein", "auto"), get_all_rhymes(&d, "haus", "rein", ""));
}
