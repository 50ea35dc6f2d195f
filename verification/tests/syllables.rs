use lyricforge::dictionary::{Dictionary, WordEntry};
use lyricforge::linguistics::{calculate_syllables, count_syllables_word, syllables_from, words_syllables};

fn dict() -> Dictionary {
    Dictionary {
        entries: vec![
            WordEntry {
                word: Some("sonne".to_string()),
                lang: Some("de".to_string()),
                ipa: None,
                syllables: Some(2),
                rhyme_part: Some("AH0".to_string()),
                vowels: Some("AO1 AH0".to_string()),
            },
            WordEntry {
                word: Some("stumm".to_string()),
                lang: Some("de".to_string()),
                ipa: None,
                syllables: Some(1),
                rhyme_part: Some("UH M".to_string()),
                vowels: Some("UH M".to_string()),
            },
        ],
    }
}

#[test]
fn syllables_from_dictionary_count_stressed_phonemes() {
    assert_eq!(count_syllables_word(&dict(), "Sonne", "de"), 2);
}

#[test]
fn syllables_fall_back_to_hyphenation() {
    let empty = Dictionary { entries: vec![] };
    assert_eq!(count_syllables_word(&empty, "hyphenation", "en"), 4);
    assert_eq!(count_syllables_word(&empty, "anfractuous", "en"), 4);
    assert_eq!(count_syllables_word(&empty, "bevies", "en"), 1);
    assert_eq!(count_syllables_word(&empty, "CAPITAL", "en"), 3);
}

#[test]
fn unstressed_transcription_falls_back_to_hyphenation() {
    // no phoneme ends in a stress mark, so the hyphenation counts
    let n = count_syllables_word(&dict(), "stumm", "de");
    assert!(n >= 1);
}

#[test]
fn every_word_has_a_syllable() {
    let empty = Dictionary { entries: vec![] };
    for w in ["a", "xyz", "Straße", "rhythm"] {
        assert!(count_syllables_word(&empty, w, "de") >= 1);
        assert!(count_syllables_word(&empty, w, "en") >= 1);
    }
}

#[test]
fn lines_are_counted_separately() {
    let empty = Dictionary { entries: vec![] };
    let r = calculate_syllables(&empty, "hyphenation\nbevies, anfractuous!", "en");
    assert_eq!(r, vec![4, 5]);
}

#[test]
fn one_count_per_line() {
    let empty = Dictionary { entries: vec![] };
    assert_eq!(calculate_syllables(&empty, "", "en"), vec![0]);
    assert_eq!(calculate_syllables(&empty, "bevies\n\n", "en"), vec![1, 0, 0]);
    assert_eq!(calculate_syllables(&empty, "123 ... !", "en"), vec![0]);
}

#[test]
fn dictionary_counts_are_used_per_word() {
    let r = calculate_syllables(&dict(), "Sonne sonne\nsonne", "de");
    assert_eq!(r, vec![4, 2]);
}

#[test]
fn syllable_decision_rule() {
    assert_eq!(syllables_from(3, Some(5), false, 9), 3);
    assert_eq!(syllables_from(0, Some(2), false, 9), 2);
    assert_eq!(syllables_from(0, Some(0), false, 0), 1);
    assert_eq!(syllables_from(0, None, false, 4), 4);
    assert_eq!(syllables_from(0, None, true, 4), 0);
}

#[test]
fn joined_texts_count_as_their_lines() {
    let d = dict();
    let a = "Sonne stumm";
    let b = "Sonne\n\nhyphenation";
    let joined = format!("{}\n{}", a, b);
    let expected = [calculate_syllables(&d, a, "de"), calculate_syllables(&d, b, "de")].concat();
    assert_eq!(calculate_syllables(&d, &joined, "de"), expected);
    assert_eq!(expected.len(), 4);
}

#[test]
fn a_word_whose_lower_case_is_narrower_is_hyphenated_in_lower_case() {
    let empty = Dictionary { entries: vec![] };
    // KELVIN SIGN (three bytes) lower-cases to `k` (one byte)
    let kelvin = "\u{212A}abel";
    assert_eq!(count_syllables_word(&empty, kelvin, "de"), count_syllables_word(&empty, "kabel", "de"));
    assert!(count_syllables_word(&empty, kelvin, "de") >= 1);
}

#[test]
fn syllables_of_given_words() {
    let d = dict();
    assert_eq!(words_syllables(&d, "Sonne stumm", "de", &vec![(0, 5), (6, 11)]), 3);
    assert_eq!(words_syllables(&d, "Sonne stumm", "de", &vec![(6, 11)]), 1);
    assert_eq!(words_syllables(&d, "Sonne stumm", "de", &vec![]), 0);
}
