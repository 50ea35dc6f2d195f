use lyricforge::dictionary::{Dictionary, WordEntry};
use lyricforge::linguistics::{
    analyze_rhymes, analyze_rhymes_in, find_rhymes_for_word, try_find_rhymes_for_word, HighlightMatch,
};
use lyricforge::phonetics::{classify_profiles, MatchKind, Profile};

fn entry(word: &str, rhyme: &str, vowels: &str) -> WordEntry {
    WordEntry {
        word: Some(word.to_string()),
        lang: Some("de".to_string()),
        ipa: None,
        syllables: Some(1),
        rhyme_part: Some(rhyme.to_string()),
        vowels: Some(vowels.to_string()),
    }
}

fn dict() -> Dictionary {
    Dictionary {
        entries: vec![
            entry("haus", "AW1 S", "AW1"),
            entry("maus", "AW1 S", "AW1"),
            entry("baum", "AW1 M", "AW1"),
            entry("sonne", "AH0", "AO1 AH0"),
            entry("wonne", "AH0", "AO1 AH0"),
            entry("tonne", "AH0 N", "AO1 AH0"),
            entry("der", "EH1 R", "EH1"),
            entry("er", "EH1 R", "EH1"),
            entry("bär", "EH1 R", "EH1"),
            entry("kino", "IY1 N OW0", "IY1 OW0"),
            entry("kilo", "OW1", "IY0 OW1"),
        ],
    }
}

fn summary(m: &[HighlightMatch]) -> Vec<(String, usize, usize, String, usize)> {
    m.iter().map(|h| (h.word.clone(), h.start, h.end, h.match_type.clone(), h.group_id)).collect()
}

#[test]
fn end_rhymes_are_moss_green() {
    let r = analyze_rhymes(&dict(), "ein Haus\nkeine Maus", "de");
    assert_eq!(
        summary(&r.matches),
        vec![
            ("Haus".to_string(), 4, 8, "moss-green".to_string(), 1),
            ("Maus".to_string(), 15, 19, "moss-green".to_string(), 1),
        ]
    );
}

#[test]
fn inner_rhymes_are_purple() {
    let r = analyze_rhymes(&dict(), "Haus Maus Ende", "de");
    assert_eq!(
        summary(&r.matches),
        vec![
            ("Haus".to_string(), 0, 4, "purple".to_string(), 1),
            ("Maus".to_string(), 5, 9, "purple".to_string(), 1),
        ]
    );
}

#[test]
fn a_pure_rhyme_with_a_line_end_is_moss_green() {
    let r = analyze_rhymes(&dict(), "Haus x\nMaus", "de");
    let s = summary(&r.matches);
    assert_eq!(s.len(), 2);
    assert_eq!(s[0].3, "moss-green");
    assert_eq!(s[1].3, "moss-green");
}

#[test]
fn assonance_is_yellow() {
    let r = analyze_rhymes(&dict(), "Haus Baum x", "de");
    let s = summary(&r.matches);
    assert_eq!(s, vec![
        ("Haus".to_string(), 0, 4, "yellow".to_string(), 1),
        ("Baum".to_string(), 5, 9, "yellow".to_string(), 1),
    ]);
}

#[test]
fn same_rhyme_vowels_with_other_consonants_are_yellow() {
    let r = analyze_rhymes(&dict(), "Sonne Tonne x", "de");
    let s = summary(&r.matches);
    assert_eq!(s.len(), 2);
    assert_eq!(s[0].3, "yellow");
    assert_eq!(s[1].3, "yellow");
}

#[test]
fn shared_vowel_sound_is_purple() {
    // the same two vowels over the whole word, but the rhyme parts carry
    // different vowels
    let r = analyze_rhymes(&dict(), "Kino Kilo x", "de");
    let s = summary(&r.matches);
    assert_eq!(s, vec![
        ("Kino".to_string(), 0, 4, "purple".to_string(), 1),
        ("Kilo".to_string(), 5, 9, "purple".to_string(), 1),
    ]);
}

#[test]
fn stop_words_rhyme_only_at_two_line_ends() {
    let r = analyze_rhymes(&dict(), "der Bär x", "de");
    assert!(r.matches.is_empty());
    let r = analyze_rhymes(&dict(), "x der\ny er", "de");
    let s = summary(&r.matches);
    assert_eq!(s.len(), 2);
    assert_eq!(s[0].3, "moss-green");
    assert_eq!(s[1].3, "moss-green");
}

#[test]
fn words_more_than_four_lines_apart_do_not_match() {
    let r = analyze_rhymes(&dict(), "Haus\na\nb\nc\nd\nMaus", "de");
    assert!(r.matches.is_empty());
    let r = analyze_rhymes(&dict(), "Haus\na\nb\nc\nMaus", "de");
    assert_eq!(r.matches.len(), 2);
}

#[test]
fn a_word_keeps_its_strongest_match() {
    // Haus-Maus is a pure end rhyme (4), Haus-Baum an assonance (2)
    let r = analyze_rhymes(&dict(), "Baum x Haus\nMaus", "de");
    let s = summary(&r.matches);
    assert_eq!(s.len(), 3);
    assert_eq!(s[0], ("Baum".to_string(), 0, 4, "yellow".to_string(), 1));
    assert_eq!(s[1], ("Haus".to_string(), 7, 11, "moss-green".to_string(), 3));
    assert_eq!(s[2], ("Maus".to_string(), 12, 16, "moss-green".to_string(), 3));
}

#[test]
fn positions_are_character_indices() {
    let r = analyze_rhymes(&dict(), "Bär! — Bär", "de");
    let s = summary(&r.matches);
    assert_eq!(s, vec![
        ("Bär".to_string(), 0, 3, "moss-green".to_string(), 1),
        ("Bär".to_string(), 7, 10, "moss-green".to_string(), 1),
    ]);
}

#[test]
fn unknown_words_are_not_highlighted() {
    let r = analyze_rhymes(&dict(), "Katze Tatze", "de");
    assert!(r.matches.is_empty());
    let r = analyze_rhymes(&dict(), "", "de");
    assert!(r.matches.is_empty());
}

#[test]
fn rhymes_are_grouped_by_syllables() {
    let empty_lang_dict = Dictionary {
        entries: vec![
            entry("ziel", "IY1 L", "IY1"),
            entry("hyphenation", "IY1 L", "IY1"),
            entry("bevies", "IY1 L", "IY1"),
            entry("capital", "IY1 L", "IY1"),
        ],
    };
    // syllables counted in English: the dictionary's vowel counts say 1 each
    let g = find_rhymes_for_word(&empty_lang_dict, "ziel", "rein", "de");
    assert_eq!(g.len(), 1);
    assert_eq!(g[0].syllables, 1);
    let words: Vec<&str> = g[0].words.iter().map(|w| w.word.as_str()).collect();
    assert_eq!(words, vec!["bevies", "capital", "hyphenation"]);
    assert!(g[0].words.iter().all(|w| w.lang == "DE"));
}

#[test]
fn groups_are_ascending_and_limited() {
    let mut entries = vec![entry("ziel", "IY1 L", "IY1")];
    for i in 0..60 {
        entries.push(WordEntry {
            word: Some(format!("a{:02}", i)),
            lang: Some("de".to_string()),
            ipa: None,
            syllables: Some(1),
            rhyme_part: Some("IY1 L".to_string()),
            vowels: Some(if i % 2 == 0 { "IY1 AH0".to_string() } else { "IY1".to_string() }),
        });
    }
    let d = Dictionary { entries };
    let g = find_rhymes_for_word(&d, "ziel", "rein", "de");
    assert_eq!(g.len(), 2);
    assert_eq!(g[0].syllables, 1);
    assert_eq!(g[1].syllables, 2);
    assert_eq!(g[0].words.len(), 30);
    assert_eq!(g[1].words.len(), 30);
    assert_eq!(g[1].words[0].word, "a00");
}

#[test]
fn no_rhymes_give_no_groups() {
    let g = find_rhymes_for_word(&dict(), "katze", "rein", "de");
    assert!(g.is_empty());
    let g = find_rhymes_for_word(&dict(), "haus", "unbekannt", "de");
    assert!(g.is_empty());
}

#[test]
fn classification_of_profiles() {
    let list = |v: &[&str]| -> Vec<Vec<char>> { v.iter().map(|x| x.chars().collect()).collect() };
    let p = |rhyme: &str, rhyme_vowels: &[&str], vowels: &[&str]| Profile {
        rhyme_part: rhyme.chars().collect(),
        rhyme_vowels: list(rhyme_vowels),
        vowels: list(vowels),
    };
    let a = p("AW1 S", &["AW"], &["AW"]);
    let b = p("AW1 S", &["AW"], &["AW"]);
    let c = p("AW1 M", &["AW"], &["AW"]);
    assert_eq!(classify_profiles(&a, &b, false, true, false), Some(MatchKind::MossGreen));
    assert_eq!(classify_profiles(&a, &b, false, false, false), Some(MatchKind::InnerRhyme));
    assert_eq!(classify_profiles(&a, &b, true, true, false), None);
    assert_eq!(classify_profiles(&a, &b, true, true, true), Some(MatchKind::MossGreen));
    assert_eq!(classify_profiles(&a, &c, false, true, true), Some(MatchKind::Yellow));
    let x = p("IY1 N OW0", &["IY", "OW"], &["IY", "OW"]);
    let y = p("OW1", &["OW"], &["IY", "OW"]);
    assert_eq!(classify_profiles(&x, &y, false, false, false), Some(MatchKind::VowelSound));
    assert_eq!(classify_profiles(&y, &x, false, false, false), Some(MatchKind::VowelSound));
    // one vowel is not enough, and the lists must agree in both orders
    let one = p("UH1 M", &["UH"], &["UH"]);
    let one_b = p("UH1 N", &["UW"], &["UH"]);
    assert_eq!(classify_profiles(&one, &one_b, false, false, false), None);
    let split = p("AY1", &["AY"], &["A", "I"]);
    let joined = p("EY1", &["EY"], &["AI"]);
    assert_eq!(classify_profiles(&split, &joined, false, false, false), None);
    assert_eq!(classify_profiles(&joined, &split, false, false, false), None);
    assert_eq!(classify_profiles(&x, &y, true, false, false), None);
}

#[test]
fn grouped_search_refuses_a_row_without_language() {
    let mut d = dict();
    let with_lang = try_find_rhymes_for_word(&d, "haus", "rein", "auto").unwrap();
    assert_eq!(with_lang.len(), find_rhymes_for_word(&d, "haus", "rein", "auto").len());
    for e in d.entries.iter_mut() {
        e.lang = None;
    }
    assert!(try_find_rhymes_for_word(&d, "haus", "rein", "auto").is_none());
    assert!(try_find_rhymes_for_word(&d, "katze", "rein", "auto").unwrap().is_empty());
}

#[test]
fn an_inner_rhyme_outranks_an_assonance() {
    let r = analyze_rhymes(&dict(), "Haus Maus Baum", "de");
    assert_eq!(
        summary(&r.matches),
        vec![
            ("Haus".to_string(), 0, 4, "purple".to_string(), 1),
            ("Maus".to_string(), 5, 9, "purple".to_string(), 1),
            ("Baum".to_string(), 10, 14, "yellow".to_string(), 2),
        ]
    );
}

#[test]
fn highlighting_is_deterministic() {
    let text = "Haus Maus Baum\nSonne Wonne\nkino kilo";
    let a = analyze_rhymes(&dict(), text, "de");
    let b = analyze_rhymes(&dict(), text, "de");
    assert_eq!(summary(&a.matches), summary(&b.matches));
    assert!(!a.matches.is_empty());
}

#[test]
fn highlighting_follows_a_given_word_split() {
    let text = "Haus Baum Maus";
    let r = analyze_rhymes_in(&dict(), text, "de", &vec![(0, 4), (10, 14)], &vec![vec![(10, 14)]]);
    assert_eq!(
        summary(&r.matches),
        vec![
            ("Haus".to_string(), 0, 4, "moss-green".to_string(), 1),
            ("Maus".to_string(), 10, 14, "moss-green".to_string(), 1),
        ]
    );
    let full = analyze_rhymes_in(&dict(), text, "de", &vec![(0, 4), (5, 9), (10, 14)], &vec![vec![(0, 4), (5, 9), (10, 14)]]);
    assert_eq!(summary(&full.matches), summary(&analyze_rhymes(&dict(), text, "de").matches));
}

#[test]
fn a_vowel_sound_match_does_not_depend_on_word_order() {
    let d = Dictionary {
        entries: vec![
            WordEntry {
                word: Some("kino".to_string()),
                lang: Some("de".to_string()),
                ipa: None,
                syllables: Some(2),
                rhyme_part: Some("IY1 N OW0".to_string()),
                vowels: Some("IY1 OW0".to_string()),
            },
            WordEntry {
                word: Some("biro".to_string()),
                lang: Some("de".to_string()),
                ipa: None,
                syllables: Some(2),
                rhyme_part: Some("R OW1".to_string()),
                vowels: Some("IY0 OW1".to_string()),
            },
            WordEntry {
                word: Some("eins".to_string()),
                lang: Some("de".to_string()),
                ipa: None,
                syllables: Some(1),
                rhyme_part: Some("N S".to_string()),
                vowels: Some("IY OW".to_string()),
            },
        ],
    };
    for text in ["kino biro eins", "biro kino eins"] {
        let r = analyze_rhymes(&d, text, "de");
        let kinds: Vec<String> = r.matches.iter().map(|m| m.match_type.clone()).collect();
        assert_eq!(kinds, vec!["purple".to_string(), "purple".to_string()]);
        assert!(r.matches.iter().all(|m| m.word != "eins"));
    }
}
