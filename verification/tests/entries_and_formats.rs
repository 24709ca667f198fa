//! Tests of the entry merger and the two output writers.

use std::io::Read;

use kobo_jdict::generic_dict::{
    generate_entries, generate_kanji_entry_text, Entry, EntrySettings, LangMode,
};
use kobo_jdict::jmdict::{ConjugationClass, WordEntry};
use kobo_jdict::kobo;
use kobo_jdict::stardict::{build_stardict_files, stardict_strcmp};
use kobo_jdict::yomichan::{definition_to_html, Definition, InflectionType, KanjiEntry, TermEntry};

fn settings() -> EntrySettings {
    EntrySettings {
        lang_mode: LangMode::English,
        use_katakana_pronunciation: false,
        generate_inflection_keys: true,
    }
}

fn term(writing: &str, reading: &str, def: &str) -> TermEntry {
    TermEntry {
        dict_name: "testdict".to_string(),
        writing: writing.to_string(),
        reading: reading.to_string(),
        definitions: Definition::List(String::new(), vec![Definition::Def(def.to_string())]),
        infl: InflectionType::NoInflection,
        tags: Vec::new(),
        commonness: 0,
    }
}

fn taberu() -> WordEntry {
    let mut e = WordEntry::new();
    e.writings = vec!["食べる".to_string()];
    e.readings = vec!["たべる".to_string()];
    e.conj = ConjugationClass::IchidanVerb;
    e.priority = 10;
    e
}

#[test]
fn grammar_record_with_definition_yields_one_entry() {
    let jm = vec![(("食べる".to_string(), "たべる".to_string()), vec![taberu()])];
    let tt = vec![(
        ("食べる".to_string(), "たべる".to_string()),
        vec![term("食べる", "たべる", "to eat")],
    )];
    let entries = generate_entries(&tt, &Vec::new(), &Vec::new(), &jm, &Vec::new(), settings());
    assert_eq!(entries.len(), 1);
    let keys = &entries[0].keys;
    let p = keys.iter().find(|k| k.0 == "食べる").expect("bare form").1;
    assert!(keys.iter().any(|k| k.0 == "食べない" && k.1 == p));
    assert!(keys.iter().any(|k| k.0 == "食べた" && k.1 == p));
    assert!(entries[0].definition.contains("to eat"));
}

#[test]
fn grammar_record_without_sources_is_dropped() {
    let jm = vec![(("食べる".to_string(), "たべる".to_string()), vec![taberu()])];
    let entries =
        generate_entries(&Vec::new(), &Vec::new(), &Vec::new(), &jm, &Vec::new(), settings());
    assert_eq!(entries.len(), 0);
}

#[test]
fn pitch_accent_alone_keeps_a_record() {
    let jm = vec![(("食べる".to_string(), "たべる".to_string()), vec![taberu()])];
    let pa = vec![(("食べる".to_string(), "たべる".to_string()), vec![2u32])];
    let entries = generate_entries(&Vec::new(), &Vec::new(), &Vec::new(), &jm, &pa, settings());
    assert_eq!(entries.len(), 1);
    assert!(entries[0].definition.contains("[2]"));
}

#[test]
fn bare_kanji_record_yields_minimal_entry() {
    let kt = vec![(
        "食".to_string(),
        vec![KanjiEntry {
            dict_name: "k".to_string(),
            kanji: "食".to_string(),
            onyomi: Vec::new(),
            kunyomi: Vec::new(),
            meanings: Vec::new(),
        }],
    )];
    let entries =
        generate_entries(&Vec::new(), &Vec::new(), &kt, &Vec::new(), &Vec::new(), settings());
    assert_eq!(entries.len(), 1);
    assert_eq!(entries[0].keys.len(), 1);
    assert_eq!(entries[0].keys[0].0, "食");
    assert_eq!(entries[0].keys[0].1, 0);
    assert!(entries[0].definition.starts_with("<hr/>"));
}

#[test]
fn priority_zero_only_on_kanji_entries() {
    let kt = vec![(
        "食".to_string(),
        vec![KanjiEntry {
            dict_name: "k".to_string(),
            kanji: "食".to_string(),
            onyomi: Vec::new(),
            kunyomi: Vec::new(),
            meanings: Vec::new(),
        }],
    )];
    let jm = vec![(("食べる".to_string(), "たべる".to_string()), vec![taberu()])];
    let tt = vec![(
        ("食べる".to_string(), "たべる".to_string()),
        vec![term("食べる", "たべる", "to eat")],
    )];
    let nt = vec![(
        ("田中".to_string(), "たなか".to_string()),
        vec![term("田中", "たなか", "Tanaka")],
    )];
    let entries = generate_entries(&tt, &nt, &kt, &jm, &Vec::new(), settings());
    for e in &entries {
        for (k, p) in &e.keys {
            if *p == 0 {
                assert_eq!(e.keys.len(), 1);
                assert_eq!(k, "食");
            }
        }
    }
    let name_entry = entries.iter().find(|e| e.definition.contains("Tanaka")).unwrap();
    assert_eq!(name_entry.keys[0].1, u32::MAX);
}

#[test]
fn entries_sorted_by_primary_key_length() {
    let kt = vec![
        (
            "薔".to_string(),
            vec![KanjiEntry {
                dict_name: "k".to_string(),
                kanji: "薔".to_string(),
                onyomi: Vec::new(),
                kunyomi: Vec::new(),
                meanings: Vec::new(),
            }],
        ),
    ];
    let jm = vec![(("食べる".to_string(), "たべる".to_string()), vec![taberu()])];
    let tt = vec![(
        ("食べる".to_string(), "たべる".to_string()),
        vec![term("食べる", "たべる", "to eat")],
    )];
    let entries = generate_entries(&tt, &Vec::new(), &kt, &jm, &Vec::new(), settings());
    assert_eq!(entries.len(), 2);
    for w in entries.windows(2) {
        assert!(w[0].keys[0].0.len() <= w[1].keys[0].0.len());
    }
}

#[test]
fn kanji_entry_text_renders_readings() {
    let k = KanjiEntry {
        dict_name: "k".to_string(),
        kanji: "食".to_string(),
        onyomi: vec!["ショク".to_string(), "ジキ".to_string()],
        kunyomi: vec!["た.べる".to_string()],
        meanings: vec!["eat".to_string(), "food".to_string()],
    };
    let text = generate_kanji_entry_text(&k);
    assert!(text.contains("食"));
    assert!(text.contains("eat, food"));
    assert!(text.contains("音:　ショク／ジキ"));
    assert!(text.contains("訓:　た.べる"));
}

#[test]
fn definition_tree_rendering() {
    let d = Definition::List(
        String::new(),
        vec![
            Definition::Def("first".to_string()),
            Definition::Def("second".to_string()),
        ],
    );
    let depth = d.depth();
    assert_eq!(depth, 1);
    let html = definition_to_html(&d, depth, true);
    assert_eq!(
        html,
        "<ol style=\"list-style-type: decimal\"><li>first</li><li>second</li></ol>"
    );
    assert_eq!(d.len(), 2);
    assert!(!d.is_empty());
    assert!(d.is_list());
    assert_eq!(Definition::Def("x".to_string()).def_text(), "x");
    assert!(Definition::new().is_empty());
}

#[test]
fn kobo_word_list_weights() {
    let entries = vec![
        kobo::Entry {
            keys: vec![("あい".to_string(), 8)],
            definition: "A".to_string(),
        },
        kobo::Entry {
            keys: vec![("あい".to_string(), 2), ("かき".to_string(), 5)],
            definition: "B".to_string(),
        },
    ];
    let list = kobo::build_word_list(&entries);
    // Max priority is 8; weights are 8 - priority, the best per key.
    assert_eq!(list.len(), 2);
    assert_eq!(list[0], ("あい".to_string(), 6));
    assert_eq!(list[1], ("かき".to_string(), 3));
    let text = kobo::word_list_text(&list);
    assert_eq!(text, "あい\t6\nかき\t3\n");
}

#[test]
fn dictionary_prefixes() {
    assert_eq!(kobo::dictionary_prefix("HELLO"), "he");
    assert_eq!(kobo::dictionary_prefix("a"), "aa");
    assert_eq!(kobo::dictionary_prefix("あいう"), "あい");
    assert_eq!(kobo::dictionary_prefix("漢字"), "漢");
    assert_eq!(kobo::dictionary_prefix("!!"), "11");
    assert_eq!(kobo::dictionary_prefix(""), "11");
    assert_eq!(kobo::dictionary_prefix("a1"), "11");
}

#[test]
fn kobo_shards_merge_same_key() {
    let entries = vec![
        kobo::Entry {
            keys: vec![("あい".to_string(), 5)],
            definition: "<p>one</p>".to_string(),
        },
        kobo::Entry {
            keys: vec![("あい".to_string(), 3)],
            definition: "<p>two</p>".to_string(),
        },
    ];
    let shards = kobo::build_shards(&entries);
    assert_eq!(shards.len(), 1);
    let (prefix, items) = &shards[0];
    assert_eq!(prefix, "あい");
    // The two identical keys merge: definitions concatenate in key-then-
    // priority order and the better priority wins.
    assert_eq!(items.len(), 1);
    assert_eq!(items[0].0, "あい");
    assert_eq!(items[0].1, "<p>two</p><p>one</p>");
    assert_eq!(items[0].2, 3);
}

#[test]
fn kobo_shard_files_compress_the_html() {
    let entries = vec![kobo::Entry {
        keys: vec![("あい".to_string(), 5)],
        definition: "<p>one</p>".to_string(),
    }];
    let shards = kobo::build_shards(&entries);
    let html = kobo::shard_html(&shards[0].1);
    let files = kobo::shard_files(&entries);
    assert_eq!(files.len(), 1);
    assert_eq!(files[0].0, "あい.html");
    assert_ne!(files[0].1, html.as_bytes().to_vec());
    let mut gz = flate2::read::GzDecoder::new(&files[0].1[..]);
    let mut out = String::new();
    gz.read_to_string(&mut out).unwrap();
    assert_eq!(out, html);
    assert!(html.contains("<a name=\"あい\" />"));
}

#[test]
fn stardict_comparator() {
    assert_eq!(stardict_strcmp("abc", "ABD"), std::cmp::Ordering::Less);
    assert_eq!(stardict_strcmp("ABC", "abc"), std::cmp::Ordering::Less);
    assert_eq!(stardict_strcmp("abc", "abc"), std::cmp::Ordering::Equal);
    assert_eq!(stardict_strcmp("b", "A"), std::cmp::Ordering::Greater);
    assert_eq!(stardict_strcmp("ab", "abc"), std::cmp::Ordering::Less);
}

#[test]
fn stardict_files_layout() {
    let entries = vec![
        Entry {
            keys: vec![("b".to_string(), 1)],
            definition: "DEF1".to_string(),
        },
        Entry {
            keys: vec![("a".to_string(), 1)],
            definition: "DEF22".to_string(),
        },
    ];
    let (dict, idx, ifo) = build_stardict_files(&entries, "testdict");
    assert_eq!(dict, b"DEF1DEF22".to_vec());
    // Keys sort "a" before "b"; each record is key, NUL, offset, length.
    let expected_idx: Vec<u8> = vec![
        b'a', 0, 0, 0, 0, 4, 0, 0, 0, 5,  // "a" -> offset 4, length 5
        b'b', 0, 0, 0, 0, 0, 0, 0, 0, 4,  // "b" -> offset 0, length 4
    ];
    assert_eq!(idx, expected_idx);
    assert_eq!(
        ifo,
        "StarDict's dict ifo file\nversion=3.0.0\nbookname=testdict\nwordcount=2\nidxfilesize=20\nsametypesequence=h\nlang=ja-en\n"
    );
}

#[test]
fn stardict_excludes_overlong_keys() {
    let long_key = "x".repeat(256);
    let entries = vec![Entry {
        keys: vec![(long_key.clone(), 1), ("ok".to_string(), 1)],
        definition: "BODY".to_string(),
    }];
    let (_dict, idx, ifo) = build_stardict_files(&entries, "d");
    // Only the short key appears, pointing at the whole definition.
    let expected: Vec<u8> = vec![b'o', b'k', 0, 0, 0, 0, 0, 0, 0, 0, 4];
    assert_eq!(idx, expected);
    assert!(ifo.contains("wordcount=1\n"));
    assert!(!idx.windows(4).any(|w| w == &long_key.as_bytes()[..4]));
}

#[test]
fn header_text_for_plain_noun() {
    let mut e = WordEntry::new();
    e.writings = vec!["食べ物".to_string()];
    e.readings = vec!["たべもの".to_string()];
    let text =
        kobo_jdict::generic_dict::generate_header_text(settings(), "たべもの", None, &e);
    assert_eq!(text, "たべもの &nbsp;&nbsp;&mdash; 【食べ物】");
}

#[test]
fn header_text_for_verb_with_accents() {
    let mut e = taberu();
    e.pos = kobo_jdict::jmdict::PartOfSpeech::Verb;
    e.tags = vec!["pos:vt".to_string()];
    let accents = vec![2u32, 0u32];
    let text = kobo_jdict::generic_dict::generate_header_text(
        settings(),
        "たべる",
        Some(&accents),
        &e,
    );
    assert!(text.starts_with("たべる [2][0] &nbsp;&nbsp;&mdash; 【食べる】"));
    assert!(text.contains("verb, transitive, ichidan"));
}

#[test]
fn name_entry_text_contains_tagged_note() {
    let mut t = term("田中", "たなか", "Tanaka");
    t.tags = vec!["surname".to_string(), "given".to_string()];
    let text = kobo_jdict::generic_dict::generate_name_entry_text(settings(), &t);
    assert!(text.starts_with("たなか &nbsp;&nbsp;&mdash; 【田中】"));
    assert!(text.contains("name: surname, given"));
}

#[test]
fn katakana_pronunciation_setting() {
    let mut s = settings();
    s.use_katakana_pronunciation = true;
    let e = taberu();
    let text = kobo_jdict::generic_dict::generate_header_text(s, "たべる", None, &e);
    assert!(text.starts_with("タベル "));
}
