//! Tests of the script classifier and the key synthesizer.

use kobo_jdict::generic_dict::generate_lookup_keys;
use kobo_jdict::jmdict::{tag_priority, ConjugationClass, PartOfSpeech, WordEntry};
use kobo_jdict::kana::{
    hiragana_to_katakana, is_all_hiragana, is_all_kana, is_hiragana, is_kana, katakana_to_hiragana,
    strip_non_kana,
};

fn word(writings: &[&str], readings: &[&str], conj: ConjugationClass, priority: u32) -> WordEntry {
    let mut e = WordEntry::new();
    e.writings = writings.iter().map(|s| s.to_string()).collect();
    e.readings = readings.iter().map(|s| s.to_string()).collect();
    e.conj = conj;
    e.priority = priority;
    e
}

#[test]
fn kana_classification() {
    assert!(is_kana('あ'));
    assert!(is_kana('ア'));
    assert!(is_kana('ー'));
    assert!(!is_kana('食'));
    assert!(!is_kana('a'));
    assert!(is_hiragana('あ'));
    assert!(!is_hiragana('ア'));
    assert!(is_hiragana('ー'));
}

#[test]
fn all_kana_checks() {
    assert!(is_all_kana(""));
    assert!(is_all_kana("たべる"));
    assert!(is_all_kana("タベル"));
    assert!(!is_all_kana("食べる"));
    assert!(is_all_hiragana("たべる"));
    assert!(!is_all_hiragana("タベル"));
}

#[test]
fn conversions() {
    assert_eq!(hiragana_to_katakana("たべる"), "タベル");
    assert_eq!(katakana_to_hiragana("タベル"), "たべる");
    assert_eq!(hiragana_to_katakana("abcたxベ"), "abcタxベ");
    assert_eq!(strip_non_kana("食べる"), "べる");
    assert_eq!(strip_non_kana("abc"), "");
}

#[test]
fn kata_hira_round_trip() {
    let s = "こんにちはー";
    assert_eq!(katakana_to_hiragana(&hiragana_to_katakana(s)), s);
}

#[test]
fn ichidan_keys_include_inflections() {
    let e = word(&["食べる"], &["たべる"], ConjugationClass::IchidanVerb, 10);
    let keys = generate_lookup_keys(&e, true);
    let p = keys
        .iter()
        .find(|k| k.0 == "食べる")
        .expect("bare form present")
        .1;
    assert!(keys.iter().any(|k| k.0 == "食べない" && k.1 == p));
    assert!(keys.iter().any(|k| k.0 == "食べた" && k.1 == p));
    assert!(keys.iter().any(|k| k.0 == "食べて" && k.1 == p));
    assert!(keys.iter().any(|k| k.0 == "たべる" && k.1 == p));
}

#[test]
fn ichidan_priority_value() {
    // Base 10 + offset 256 = 266; verbs divide by 4.
    let e = word(&["食べる"], &["たべる"], ConjugationClass::IchidanVerb, 10);
    let keys = generate_lookup_keys(&e, true);
    for k in &keys {
        assert_eq!(k.1, 266 / 4);
    }
}

#[test]
fn kana_keys_have_katakana_companions() {
    let e = word(&[], &["たべる"], ConjugationClass::IchidanVerb, 10);
    let keys = generate_lookup_keys(&e, true);
    for (k, p) in &keys {
        if is_all_kana(k) {
            let kata = hiragana_to_katakana(k);
            assert!(
                keys.iter().any(|other| other.0 == kata && other.1 == *p),
                "missing companion for {k}"
            );
        }
    }
}

#[test]
fn usually_kana_boost() {
    let mut e = word(&["犬"], &["いぬ"], ConjugationClass::Other, 100);
    e.usually_kana = true;
    let keys = generate_lookup_keys(&e, false);
    // The kana reading gets the /8 boost, the kanji writing does not.
    let kana_p = keys.iter().find(|k| k.0 == "いぬ").unwrap().1;
    let kanji_p = keys.iter().find(|k| k.0 == "犬").unwrap().1;
    assert_eq!(kana_p, (100 + 256) / 8);
    assert_eq!(kanji_p, 100 + 256);
}

#[test]
fn keys_are_sorted_and_deduplicated() {
    let e = word(&["行く", "行く"], &["いく"], ConjugationClass::IkuVerb, 0);
    let keys = generate_lookup_keys(&e, true);
    for w in keys.windows(2) {
        let a = &w[0];
        let b = &w[1];
        assert!(a != b, "duplicate key {a:?}");
        let ord = a
            .1
            .cmp(&b.1)
            .then(a.0.len().cmp(&b.0.len()))
            .then(a.0.cmp(&b.0));
        assert!(ord.is_lt(), "out of order: {a:?} {b:?}");
    }
}

#[test]
fn no_inflection_for_unknown_class() {
    let e = word(&["猫"], &["ねこ"], ConjugationClass::Other, 50);
    let keys = generate_lookup_keys(&e, true);
    let strings: Vec<&str> = keys.iter().map(|k| k.0.as_str()).collect();
    assert_eq!(strings, vec!["猫", "ねこ", "ネコ"]);
}

#[test]
fn word_entry_defaults() {
    let e = WordEntry::new();
    assert_eq!(e.priority, 100000);
    assert!(!e.usually_kana);
    assert!(matches!(e.conj, ConjugationClass::Other));
    assert!(matches!(e.pos, PartOfSpeech::Unknown));
}

#[test]
fn part_of_speech_combination() {
    let p = PartOfSpeech::Unknown.bitor(PartOfSpeech::Verb);
    assert!(matches!(p, PartOfSpeech::Verb));
    let p = PartOfSpeech::Verb.bitor(PartOfSpeech::Noun);
    assert!(matches!(p, PartOfSpeech::Verb));
    let c = ConjugationClass::Other.bitor(ConjugationClass::IchidanVerb);
    assert!(matches!(c, ConjugationClass::IchidanVerb));
}

#[test]
fn tag_priorities() {
    assert_eq!(tag_priority("nf03"), 1000);
    assert_eq!(tag_priority("nf01"), 0);
    assert_eq!(tag_priority("news1"), 6000);
    assert_eq!(tag_priority("ichi2"), 18000);
    assert_eq!(tag_priority("gai1"), 6000);
    assert_eq!(tag_priority("bogus"), 24000);
}
