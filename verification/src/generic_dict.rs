//! Shared types and functions for generating all output dictionary
//! formats: the key synthesizer that expands one word record into every
//! lookup string a reader might enter, and the entry merger that joins the
//! source tables into the final entry list.

use vstd::prelude::*;

use crate::jmdict::{ConjugationClass, WordEntry};
use crate::kana::{all_kana, hira_to_kata, hiragana_to_katakana, is_all_kana};
use crate::text::{byte_len, str_view_leq};

verus! {

/// One output dictionary record: lookup keys with their priorities, plus
/// one rendered definition blob.  A lower priority value indicates a more
/// common word, shown earlier.
#[derive(Clone, Debug)]
pub struct Entry {
    pub keys: Vec<(String, u32)>,
    pub definition: String,
}

/// The language used for grammatical terms in entry headers.
#[derive(Debug, Copy, Clone, Eq, PartialEq, Structural)]
pub enum LangMode {
    /// Standard English terms.
    English,
    /// Alternative English terms, e.g. "self-move" instead of
    /// "intransitive".
    EnglishAlt,
    /// Japanese terms.
    Japanese,
}

/// Index of a language mode into a term table row.
pub open spec fn spec_lang_idx(m: LangMode) -> int {
    match m {
        LangMode::English => 0,
        LangMode::EnglishAlt => 1,
        LangMode::Japanese => 2,
    }
}

impl LangMode {
    pub fn idx(&self) -> (r: usize)
        ensures
            r == spec_lang_idx(*self),
    {
        match *self {
            LangMode::English => 0,
            LangMode::EnglishAlt => 1,
            LangMode::Japanese => 2,
        }
    }
}

/// Settings that shape the generated entries.
#[derive(Debug, Copy, Clone)]
pub struct EntrySettings {
    pub lang_mode: LangMode,
    pub use_katakana_pronunciation: bool,
    /// Whether to include word conjugations in the list of keys to look up
    /// words with.
    pub generate_inflection_keys: bool,
}

/// Offset added to every word priority so that no word key ever reaches
/// priority zero, which is reserved for kanji-character entries.
pub const WORD_PRIORITY_OFFSET: u32 = 256;

/// Divisor applied to the priority of an all-kana key of a word that is
/// usually written in kana, ranking that key much higher.
pub const KANA_PREFERENCE_DIVISOR: u32 = 8;

/// The grammatical-class priority boost: common verb classes rank four
/// times higher, i-adjectives twice, anything else is unchanged.
pub open spec fn class_boost(c: ConjugationClass) -> u32 {
    match c {
        ConjugationClass::IchidanVerb
        | ConjugationClass::GodanVerbU
        | ConjugationClass::GodanVerbTsu
        | ConjugationClass::GodanVerbRu
        | ConjugationClass::GodanVerbKu
        | ConjugationClass::GodanVerbGu
        | ConjugationClass::GodanVerbNu
        | ConjugationClass::GodanVerbBu
        | ConjugationClass::GodanVerbMu
        | ConjugationClass::GodanVerbSu
        | ConjugationClass::IkuVerb
        | ConjugationClass::KuruVerb
        | ConjugationClass::SuruVerb => 4,
        ConjugationClass::IAdjective => 2,
        _ => 1,
    }
}

fn class_boost_exec(c: ConjugationClass) -> (r: u32)
    ensures
        r == class_boost(c),
        1 <= r <= 4,
{
    match c {
        ConjugationClass::IchidanVerb
        | ConjugationClass::GodanVerbU
        | ConjugationClass::GodanVerbTsu
        | ConjugationClass::GodanVerbRu
        | ConjugationClass::GodanVerbKu
        | ConjugationClass::GodanVerbGu
        | ConjugationClass::GodanVerbNu
        | ConjugationClass::GodanVerbBu
        | ConjugationClass::GodanVerbMu
        | ConjugationClass::GodanVerbSu
        | ConjugationClass::IkuVerb
        | ConjugationClass::KuruVerb
        | ConjugationClass::SuruVerb => 4,
        ConjugationClass::IAdjective => 2,
        _ => 1,
    }
}

/// The priority of one candidate form: the offset base priority, divided
/// by the kana-preference divisor when the form is all-kana and the word
/// is usually written in kana, then divided by the class boost.
pub open spec fn key_priority(w: Seq<char>, usually_kana: bool, jm_priority: u32, boost: u32) -> u32 {
    (if all_kana(w) && usually_kana {
        jm_priority / KANA_PREFERENCE_DIVISOR
    } else {
        jm_priority
    }) / boost
}

/// The keys emitted for one string: the string itself, preceded by its
/// katakana transliteration when it is all-kana (so kana-keyed lookups
/// match regardless of the consuming device's pronunciation script).
pub open spec fn emit_one(w: Seq<char>, p: u32) -> Seq<(Seq<char>, u32)> {
    if all_kana(w) {
        seq![(hira_to_kata(w), p), (w, p)]
    } else {
        seq![(w, p)]
    }
}

/// Whether `w` ends with the suffix `t`.
pub open spec fn seq_ends_with(w: Seq<char>, t: Seq<char>) -> bool {
    t.len() <= w.len() && w.skip((w.len() - t.len()) as int) == t
}

/// Keys emitted for the first `i` inflected endings appended to a stem.
pub open spec fn emit_endings(stem: Seq<char>, endings: Seq<Seq<char>>, i: int, p: u32) -> Seq<
    (Seq<char>, u32),
>
    decreases i,
{
    if i <= 0 || i > endings.len() {
        Seq::<(Seq<char>, u32)>::empty()
    } else {
        emit_endings(stem, endings, i - 1, p) + emit_one(stem + endings[i - 1], p)
    }
}

/// Keys emitted for one candidate form under one conjugation rule: the
/// bare form, plus every inflected form when the candidate ends with the
/// rule's dictionary-form suffix.
pub open spec fn expand_rule(w: Seq<char>, trail: Seq<char>, endings: Seq<Seq<char>>, p: u32) -> Seq<
    (Seq<char>, u32),
> {
    emit_one(w, p) + (if trail.len() > 0 && seq_ends_with(w, trail) {
        emit_endings(w.take((w.len() - trail.len()) as int), endings, endings.len() as int, p)
    } else {
        Seq::<(Seq<char>, u32)>::empty()
    })
}

/// Keys emitted for one candidate form under the first `i` conjugation
/// rules of its class.
pub open spec fn expand_word(
    w: Seq<char>,
    rules: Seq<(Seq<char>, Seq<Seq<char>>)>,
    i: int,
    p: u32,
) -> Seq<(Seq<char>, u32)>
    decreases i,
{
    if i <= 0 || i > rules.len() {
        Seq::<(Seq<char>, u32)>::empty()
    } else {
        expand_word(w, rules, i - 1, p) + expand_rule(w, rules[i - 1].0, rules[i - 1].1, p)
    }
}

/// The single rule used when inflection expansion is off or a class has
/// no ending table: an empty suffix with no endings, which emits only the
/// bare form.
pub open spec fn no_inflection_rules() -> Seq<(Seq<char>, Seq<Seq<char>>)> {
    seq![(Seq::<char>::empty(), Seq::<Seq<char>>::empty())]
}

/// The hand-curated conjugation table: for each class that inflects, the
/// dictionary-form suffix to strip and the endings that replace it.
pub open spec fn conj_rules(c: ConjugationClass) -> Seq<(Seq<char>, Seq<Seq<char>>)> {
    match c {
        ConjugationClass::IchidanVerb => seq![
            ("る"@, seq![""@, "ない"@, "られ"@, "させ"@, "ろ"@, "て"@, "た"@]),
        ],
        ConjugationClass::GodanVerbU => seq![
            ("う"@, seq!["わない"@, "わ"@, "い"@, "え"@, "お"@, "って"@, "った"@]),
        ],
        ConjugationClass::GodanVerbTsu => seq![
            ("つ"@, seq!["たない"@, "た"@, "ち"@, "て"@, "と"@, "って"@, "った"@]),
        ],
        ConjugationClass::GodanVerbRu => seq![
            ("る"@, seq!["らない"@, "ら"@, "り"@, "れ"@, "ろ"@, "って"@, "った"@]),
        ],
        ConjugationClass::GodanVerbKu => seq![
            ("く"@, seq!["かない"@, "か"@, "き"@, "け"@, "こ"@, "いて"@, "いた"@]),
        ],
        ConjugationClass::GodanVerbGu => seq![
            ("ぐ"@, seq!["がない"@, "が"@, "ぎ"@, "げ"@, "ご"@, "いで"@, "いだ"@]),
        ],
        ConjugationClass::GodanVerbNu => seq![
            ("ぬ"@, seq!["なない"@, "な"@, "に"@, "ね"@, "の"@, "んで"@, "んだ"@]),
        ],
        ConjugationClass::GodanVerbBu => seq![
            ("ぶ"@, seq!["ばない"@, "ば"@, "び"@, "べ"@, "ぼ"@, "んで"@, "んだ"@]),
        ],
        ConjugationClass::GodanVerbMu => seq![
            ("む"@, seq!["まない"@, "ま"@, "み"@, "め"@, "も"@, "んで"@, "んだ"@]),
        ],
        ConjugationClass::GodanVerbSu => seq![
            ("す"@, seq!["さない"@, "さ"@, "し"@, "せ"@, "そ"@, "して"@, "した"@]),
        ],
        ConjugationClass::IkuVerb => seq![
            ("く"@, seq!["かない"@, "か"@, "き"@, "け"@, "こ"@, "って"@, "った"@]),
        ],
        ConjugationClass::KuruVerb => seq![
            (
                "くる"@,
                seq![
                    "こない"@,
                    "こなかった"@,
                    "こなくて"@,
                    "きて"@,
                    "きた"@,
                    "こられ"@,
                    "こさせ"@,
                    "こい"@,
                    "きます"@,
                    "きません"@,
                    "きました"@,
                ],
            ),
            (
                "来る"@,
                seq![
                    "来ない"@,
                    "来なかった"@,
                    "来なくて"@,
                    "来て"@,
                    "来た"@,
                    "来られ"@,
                    "来させ"@,
                    "来い"@,
                    "来ます"@,
                    "来ません"@,
                    "来ました"@,
                ],
            ),
        ],
        ConjugationClass::SuruVerb => seq![
            (
                "する"@,
                seq![
                    "しな"@,
                    "しろ"@,
                    "させ"@,
                    "され"@,
                    "でき"@,
                    "した"@,
                    "して"@,
                    "しない"@,
                    "します"@,
                    "しません"@,
                ],
            ),
        ],
        ConjugationClass::IAdjective => seq![
            ("い"@, seq![""@, "く"@, "け"@, "かった"@, "かって"@]),
        ],
        _ => no_inflection_rules(),
    }
}

/// The rules used for a record: its class table when inflection expansion
/// is on, the bare rule otherwise.
pub open spec fn rules_for(c: ConjugationClass, generate_inflections: bool) -> Seq<
    (Seq<char>, Seq<Seq<char>>),
> {
    if generate_inflections {
        conj_rules(c)
    } else {
        no_inflection_rules()
    }
}

/// Builds one exec conjugation rule from a suffix and its endings.
fn make_rule(trail: &str, endings: Vec<&str>) -> (r: (String, Vec<String>))
    ensures
        r.0@ == trail@,
        r.1.deep_view() == endings.deep_view(),
{
    let mut out: Vec<String> = Vec::new();
    let mut i: usize = 0;
    while i < endings.len()
        invariant
            0 <= i <= endings@.len(),
            out@.len() == i,
            out.deep_view() == endings.deep_view().take(i as int),
        decreases endings@.len() - i,
    {
        out.push(endings[i].to_owned());
        proof {
            assert(out.deep_view() =~~= endings.deep_view().take(i + 1));
        }
        i = i + 1;
    }
    proof {
        assert(endings.deep_view().take(endings@.len() as int) =~~= endings.deep_view());
    }
    (trail.to_owned(), out)
}

/// The exec conjugation table for one class.
fn conj_rules_exec(c: ConjugationClass, generate_inflections: bool) -> (r: Vec<(String, Vec<String>)>)
    ensures
        r.deep_view() == rules_for(c, generate_inflections),
{
    let mut v: Vec<(String, Vec<String>)> = Vec::new();
    if !generate_inflections {
        v.push(make_rule("", Vec::new()));
        proof {
            reveal_strlit("");
            assert(""@ =~= Seq::<char>::empty());
            assert(v.deep_view() =~~= no_inflection_rules());
        }
        return v;
    }
    match c {
        ConjugationClass::IchidanVerb => {
            v.push(make_rule("る", vec!["", "ない", "られ", "させ", "ろ", "て", "た"]));
        },
        ConjugationClass::GodanVerbU => {
            v.push(make_rule("う", vec!["わない", "わ", "い", "え", "お", "って", "った"]));
        },
        ConjugationClass::GodanVerbTsu => {
            v.push(make_rule("つ", vec!["たない", "た", "ち", "て", "と", "って", "った"]));
        },
        ConjugationClass::GodanVerbRu => {
            v.push(make_rule("る", vec!["らない", "ら", "り", "れ", "ろ", "って", "った"]));
        },
        ConjugationClass::GodanVerbKu => {
            v.push(make_rule("く", vec!["かない", "か", "き", "け", "こ", "いて", "いた"]));
        },
        ConjugationClass::GodanVerbGu => {
            v.push(make_rule("ぐ", vec!["がない", "が", "ぎ", "げ", "ご", "いで", "いだ"]));
        },
        ConjugationClass::GodanVerbNu => {
            v.push(make_rule("ぬ", vec!["なない", "な", "に", "ね", "の", "んで", "んだ"]));
        },
        ConjugationClass::GodanVerbBu => {
            v.push(make_rule("ぶ", vec!["ばない", "ば", "び", "べ", "ぼ", "んで", "んだ"]));
        },
        ConjugationClass::GodanVerbMu => {
            v.push(make_rule("む", vec!["まない", "ま", "み", "め", "も", "んで", "んだ"]));
        },
        ConjugationClass::GodanVerbSu => {
            v.push(make_rule("す", vec!["さない", "さ", "し", "せ", "そ", "して", "した"]));
        },
        ConjugationClass::IkuVerb => {
            v.push(make_rule("く", vec!["かない", "か", "き", "け", "こ", "って", "った"]));
        },
        ConjugationClass::KuruVerb => {
            v.push(
                make_rule(
                    "くる",
                    vec![
                        "こない",
                        "こなかった",
                        "こなくて",
                        "きて",
                        "きた",
                        "こられ",
                        "こさせ",
                        "こい",
                        "きます",
                        "きません",
                        "きました",
                    ],
                ),
            );
            v.push(
                make_rule(
                    "来る",
                    vec![
                        "来ない",
                        "来なかった",
                        "来なくて",
                        "来て",
                        "来た",
                        "来られ",
                        "来させ",
                        "来い",
                        "来ます",
                        "来ません",
                        "来ました",
                    ],
                ),
            );
        },
        ConjugationClass::SuruVerb => {
            v.push(
                make_rule(
                    "する",
                    vec![
                        "しな",
                        "しろ",
                        "させ",
                        "され",
                        "でき",
                        "した",
                        "して",
                        "しない",
                        "します",
                        "しません",
                    ],
                ),
            );
        },
        ConjugationClass::IAdjective => {
            v.push(make_rule("い", vec!["", "く", "け", "かった", "かって"]));
        },
        _ => {
            v.push(make_rule("", Vec::new()));
        },
    }
    proof {
        reveal_strlit("");
        assert(""@ =~= Seq::<char>::empty());
        assert(v.deep_view() =~~= rules_for(c, generate_inflections));
    }
    v
}

/// The candidate strings a record's keys are built from: all non-kana
/// writings, plus all kana readings when the word is usually written in
/// kana, else only the primary reading.
pub open spec fn candidate_base(e: WordEntry) -> Seq<Seq<char>> {
    e.writings.deep_view() + (if e.usually_kana {
        e.readings.deep_view()
    } else {
        e.readings.deep_view().take(1)
    })
}

/// The string order as a relation value.
pub open spec fn str_leq_rel() -> spec_fn(Seq<char>, Seq<char>) -> bool {
    |a: Seq<char>, b: Seq<char>| str_view_leq(a, b)
}

/// The candidate strings, sorted and de-duplicated so that synthesis is
/// deterministic regardless of input ordering.
pub open spec fn candidate_forms(e: WordEntry) -> Seq<Seq<char>> {
    crate::sorting::dedup_adjacent(
        crate::sorting::insertion_sort_by(candidate_base(e), str_leq_rel()),
    )
}

/// The priority of one candidate form of a record.
pub open spec fn form_priority(e: WordEntry, w: Seq<char>) -> u32 {
    key_priority(
        w,
        e.usually_kana,
        (e.priority + WORD_PRIORITY_OFFSET) as u32,
        class_boost(e.conj),
    )
}

/// Keys emitted for the first `i` candidate forms of a record.
pub open spec fn expand_forms(e: WordEntry, forms: Seq<Seq<char>>, i: int, gi: bool) -> Seq<
    (Seq<char>, u32),
>
    decreases i,
{
    if i <= 0 || i > forms.len() {
        Seq::<(Seq<char>, u32)>::empty()
    } else {
        expand_forms(e, forms, i - 1, gi) + expand_word(
            forms[i - 1],
            rules_for(e.conj, gi),
            rules_for(e.conj, gi).len() as int,
            form_priority(e, forms[i - 1]),
        )
    }
}

/// Every key emitted for a record, in emission order, before sorting and
/// de-duplication.
pub open spec fn lookup_key_seq(e: WordEntry, gi: bool) -> Seq<(Seq<char>, u32)> {
    expand_forms(e, candidate_forms(e), candidate_forms(e).len() as int, gi)
}

/// The order of the final key list: priority ascending, then byte length
/// ascending, then byte-lexicographic.
pub open spec fn key_leq(a: (Seq<char>, u32), b: (Seq<char>, u32)) -> bool {
    a.1 < b.1 || (a.1 == b.1 && (byte_len(a.0) < byte_len(b.0) || (byte_len(a.0) == byte_len(b.0)
        && str_view_leq(a.0, b.0))))
}

/// The key order as a relation value.
pub open spec fn key_leq_rel() -> spec_fn((Seq<char>, u32), (Seq<char>, u32)) -> bool {
    |a: (Seq<char>, u32), b: (Seq<char>, u32)| key_leq(a, b)
}

/// The final key list of a record: every emitted key, sorted by the key
/// order with exact duplicates removed.
pub open spec fn spec_lookup_keys(e: WordEntry, gi: bool) -> Seq<(Seq<char>, u32)> {
    crate::sorting::dedup_adjacent(
        crate::sorting::insertion_sort_by(lookup_key_seq(e, gi), key_leq_rel()),
    )
}

/// The string order is a total order.
pub proof fn lemma_str_leq_total()
    ensures
        vstd::relations::total_ordering(str_leq_rel()),
{
    let r = str_leq_rel();
    assert forall|a: Seq<char>, b: Seq<char>| #[trigger] r(a, b) || #[trigger] r(b, a) by {
        crate::text::lemma_str_view_leq_connected(a, b);
    }
    assert forall|a: Seq<char>, b: Seq<char>| #[trigger] r(a, b) && #[trigger] r(b, a) implies a
        == b by {
        crate::text::lemma_str_view_leq_antisymmetric(a, b);
    }
    assert forall|a: Seq<char>, b: Seq<char>, c: Seq<char>|
        #[trigger] r(a, b) && #[trigger] r(b, c) implies r(a, c) by {
        crate::text::lemma_str_view_leq_transitive(a, b, c);
    }
}

/// The key order is a total order.
pub proof fn lemma_key_leq_total()
    ensures
        vstd::relations::total_ordering(key_leq_rel()),
{
    let r = key_leq_rel();
    assert forall|a: (Seq<char>, u32), b: (Seq<char>, u32)| #[trigger] r(a, b) || #[trigger] r(
        b,
        a,
    ) by {
        crate::text::lemma_str_view_leq_connected(a.0, b.0);
    }
    assert forall|a: (Seq<char>, u32), b: (Seq<char>, u32)|
        #[trigger] r(a, b) && #[trigger] r(b, a) implies a == b by {
        if str_view_leq(a.0, b.0) && str_view_leq(b.0, a.0) {
            crate::text::lemma_str_view_leq_antisymmetric(a.0, b.0);
        }
        assert(a.0 == b.0 && a.1 == b.1);
    }
    assert forall|a: (Seq<char>, u32), b: (Seq<char>, u32), c: (Seq<char>, u32)|
        #[trigger] r(a, b) && #[trigger] r(b, c) implies r(a, c) by {
        if str_view_leq(a.0, b.0) && str_view_leq(b.0, c.0) {
            crate::text::lemma_str_view_leq_transitive(a.0, b.0, c.0);
        }
    }
}

/// Whether one character vector ends with another.
fn chars_ends_with(w: &Vec<char>, t: &Vec<char>) -> (r: bool)
    ensures
        r == seq_ends_with(w@, t@),
{
    if t.len() > w.len() {
        return false;
    }
    let off = w.len() - t.len();
    let mut i: usize = 0;
    while i < t.len()
        invariant
            0 <= i <= t@.len(),
            t@.len() <= w@.len(),
            w@.len() <= usize::MAX,
            off == w@.len() - t@.len(),
            forall|k: int| 0 <= k < i ==> w@[off + k] == t@[k],
        decreases t@.len() - i,
    {
        if w[off + i] != t[i] {
            proof {
                assert(w@.skip(off as int)[i as int] != t@[i as int]);
            }
            return false;
        }
        i = i + 1;
    }
    proof {
        assert(w@.skip(off as int) =~= t@);
    }
    true
}

/// Appends one emitted key group: the katakana transliteration when the
/// string is all-kana, then the string itself.
fn push_emit_one(keys: &mut Vec<(String, u32)>, w: &String, p: u32)
    ensures
        final(keys).deep_view() == old(keys).deep_view() + emit_one(w@, p),
{
    if is_all_kana(w.as_str()) {
        let k = hiragana_to_katakana(w.as_str());
        keys.push((k, p));
    }
    keys.push((w.clone(), p));
    proof {
        assert(final(keys).deep_view() =~~= old(keys).deep_view() + emit_one(w@, p));
    }
}

/// Appends every key of one candidate form under one conjugation rule.
fn push_rule_expansion(keys: &mut Vec<(String, u32)>, w: &String, trail: &String, endings: &Vec<
    String,
>, p: u32)
    ensures
        final(keys).deep_view() == old(keys).deep_view() + expand_rule(
            w@,
            trail@,
            endings.deep_view(),
            p,
        ),
{
    push_emit_one(keys, w, p);
    let ghost base = keys.deep_view();
    let wc = crate::text::chars_of(w.as_str());
    let tc = crate::text::chars_of(trail.as_str());
    if tc.len() > 0 && chars_ends_with(&wc, &tc) {
        let stem_len = wc.len() - tc.len();
        let ghost stem_seq = w@.take((w@.len() - trail@.len()) as int);
        let mut j: usize = 0;
        while j < endings.len()
            invariant
                0 <= j <= endings@.len(),
                stem_len == wc@.len() - tc@.len(),
                wc@ == w@,
                tc@ == trail@,
                stem_seq == w@.take((w@.len() - trail@.len()) as int),
                keys.deep_view() == base + emit_endings(stem_seq, endings.deep_view(), j as int, p),
            decreases endings@.len() - j,
        {
            let mut vc: Vec<char> = Vec::new();
            let mut k: usize = 0;
            while k < stem_len
                invariant
                    0 <= k <= stem_len,
                    stem_len <= wc@.len(),
                    vc@ == wc@.take(stem_len as int).take(k as int),
                decreases stem_len - k,
            {
                vc.push(wc[k]);
                proof {
                    assert(vc@ =~= wc@.take(stem_len as int).take(k + 1));
                }
                k = k + 1;
            }
            proof {
                assert(wc@.take(stem_len as int).take(stem_len as int) =~= wc@.take(
                    stem_len as int,
                ));
            }
            let ec = crate::text::chars_of(endings[j].as_str());
            let mut m: usize = 0;
            while m < ec.len()
                invariant
                    0 <= m <= ec@.len(),
                    vc@ == wc@.take(stem_len as int) + ec@.take(m as int),
                decreases ec@.len() - m,
            {
                vc.push(ec[m]);
                proof {
                    assert(vc@ =~= wc@.take(stem_len as int) + ec@.take(m + 1));
                }
                m = m + 1;
            }
            proof {
                assert(ec@.take(ec@.len() as int) =~= ec@);
                assert(vc@ =~= stem_seq + endings.deep_view()[j as int]);
            }
            let variant = crate::text::string_from_chars(&vc);
            push_emit_one(keys, &variant, p);
            proof {
                assert(keys.deep_view() =~= base + emit_endings(
                    stem_seq,
                    endings.deep_view(),
                    j + 1,
                    p,
                ));
            }
            j = j + 1;
        }
        proof {
            assert(keys.deep_view() =~= old(keys).deep_view() + expand_rule(
                w@,
                trail@,
                endings.deep_view(),
                p,
            ));
        }
    } else {
        proof {
            assert(keys.deep_view() =~= old(keys).deep_view() + expand_rule(
                w@,
                trail@,
                endings.deep_view(),
                p,
            ));
        }
    }
}

/// Appends every key of one candidate form under all its class's rules.
fn push_word_expansion(keys: &mut Vec<(String, u32)>, w: &String, rules: &Vec<(String, Vec<String>)>, p: u32)
    ensures
        final(keys).deep_view() == old(keys).deep_view() + expand_word(
            w@,
            rules.deep_view(),
            rules.deep_view().len() as int,
            p,
        ),
{
    let mut j: usize = 0;
    while j < rules.len()
        invariant
            0 <= j <= rules@.len(),
            keys.deep_view() == old(keys).deep_view() + expand_word(
                w@,
                rules.deep_view(),
                j as int,
                p,
            ),
        decreases rules@.len() - j,
    {
        let rj = &rules[j];
        proof {
            assert(rules.deep_view()[j as int] == (rj.0.deep_view(), rj.1.deep_view()));
        }
        push_rule_expansion(keys, w, &rj.0, &rj.1, p);
        proof {
            assert(keys.deep_view() =~= old(keys).deep_view() + expand_word(
                w@,
                rules.deep_view(),
                j + 1,
                p,
            ));
        }
        j = j + 1;
    }
}

/// Generates the lookup keys for a word record: every candidate form and,
/// when inflection expansion is on, every inflected form, each with its
/// computed priority, sorted by the key order with duplicates removed.
pub fn generate_lookup_keys(jm_entry: &WordEntry, generate_inflections: bool) -> (r: Vec<
    (String, u32),
>)
    requires
        jm_entry.priority <= u32::MAX - WORD_PRIORITY_OFFSET,
        jm_entry.readings@.len() >= 1,
    ensures
        r.deep_view() == spec_lookup_keys(*jm_entry, generate_inflections),
{
    let jm_priority = jm_entry.priority + WORD_PRIORITY_OFFSET;
    let boost = class_boost_exec(jm_entry.conj);
    let rules = conj_rules_exec(jm_entry.conj, generate_inflections);

    // Gather the candidate forms.
    let mut forms: Vec<String> = Vec::new();
    let mut i: usize = 0;
    while i < jm_entry.writings.len()
        invariant
            0 <= i <= jm_entry.writings@.len(),
            forms@.len() == i,
            forms.deep_view() == jm_entry.writings.deep_view().take(i as int),
        decreases jm_entry.writings@.len() - i,
    {
        forms.push(jm_entry.writings[i].clone());
        proof {
            assert(forms.deep_view() =~~= jm_entry.writings.deep_view().take(i + 1));
        }
        i = i + 1;
    }
    proof {
        assert(jm_entry.writings.deep_view().take(jm_entry.writings@.len() as int)
            =~= jm_entry.writings.deep_view());
    }
    if jm_entry.usually_kana {
        let mut k: usize = 0;
        while k < jm_entry.readings.len()
            invariant
                0 <= k <= jm_entry.readings@.len(),
                forms@.len() == jm_entry.writings@.len() + k,
                forms.deep_view() == jm_entry.writings.deep_view()
                    + jm_entry.readings.deep_view().take(k as int),
            decreases jm_entry.readings@.len() - k,
        {
            let ghost pre = forms.deep_view();
            forms.push(jm_entry.readings[k].clone());
            proof {
                assert(forms.deep_view() =~~= pre.push(jm_entry.readings@[k as int]@));
                assert(forms.deep_view() =~~= jm_entry.writings.deep_view()
                    + jm_entry.readings.deep_view().take(k + 1));
            }
            k = k + 1;
        }
        proof {
            assert(jm_entry.readings.deep_view().take(jm_entry.readings@.len() as int)
                =~= jm_entry.readings.deep_view());
            assert(forms.deep_view() =~= candidate_base(*jm_entry));
        }
    } else {
        forms.push(jm_entry.readings[0].clone());
        proof {
            assert(forms.deep_view() =~~= jm_entry.writings.deep_view()
                + jm_entry.readings.deep_view().take(1));
            assert(forms.deep_view() =~= candidate_base(*jm_entry));
        }
    }

    // Sort the candidates and drop duplicates, for deterministic output.
    let ghost base_dv = forms.deep_view();
    proof {
        lemma_str_leq_total();
    }
    let scmp = |a: &String, b: &String| -> (res: bool)
        ensures
            res == str_view_leq(a@, b@),
        { crate::text::str_leq(a.as_str(), b.as_str()) };
    crate::sorting::sort_by_leq(&mut forms, &scmp, Ghost(str_leq_rel()));
    proof {
        assert(forms.deep_view() == crate::sorting::insertion_sort_by(
            candidate_base(*jm_entry),
            str_leq_rel(),
        ));
    }
    let seqf = |a: &String, b: &String| -> (res: bool)
        ensures
            res == (a.deep_view() == b.deep_view()),
        { a.eq(b) };
    let forms = crate::sorting::dedup_adjacent_by(forms, &seqf);
    proof {
        assert(forms.deep_view() == candidate_forms(*jm_entry));
    }

    // Expand every candidate form.
    let ghost e = *jm_entry;
    let ghost fdv = forms.deep_view();
    let mut keys: Vec<(String, u32)> = Vec::new();
    let mut fi: usize = 0;
    while fi < forms.len()
        invariant
            0 <= fi <= forms@.len(),
            fdv == forms.deep_view(),
            e == *jm_entry,
            boost == class_boost(e.conj),
            1 <= boost <= 4,
            jm_priority == e.priority + WORD_PRIORITY_OFFSET,
            rules.deep_view() == rules_for(e.conj, generate_inflections),
            keys.deep_view() == expand_forms(e, fdv, fi as int, generate_inflections),
        decreases forms@.len() - fi,
    {
        let word = &forms[fi];
        let p = if is_all_kana(word.as_str()) && jm_entry.usually_kana {
            jm_priority / KANA_PREFERENCE_DIVISOR
        } else {
            jm_priority
        } / boost;
        proof {
            assert(p == form_priority(e, word@));
        }
        push_word_expansion(&mut keys, word, &rules, p);
        proof {
            assert(keys.deep_view() =~= expand_forms(e, fdv, fi + 1, generate_inflections));
        }
        fi = fi + 1;
    }
    proof {
        assert(keys.deep_view() == lookup_key_seq(e, generate_inflections));
    }

    // Sort by (priority, byte length, byte order) and drop duplicates.
    let ghost keys_dv = keys.deep_view();
    proof {
        lemma_key_leq_total();
    }
    let kcmp = |a: &(String, u32), b: &(String, u32)| -> (res: bool)
        ensures
            res == key_leq(a.deep_view(), b.deep_view()),
        {
            proof {
                assert(a.deep_view() == (a.0@, a.1));
                assert(b.deep_view() == (b.0@, b.1));
            }
            if a.1 != b.1 {
                a.1 < b.1
            } else {
                let av = a.0.as_str().as_bytes_vec();
                let bv = b.0.as_str().as_bytes_vec();
                if av.len() != bv.len() {
                    av.len() < bv.len()
                } else {
                    crate::text::bytes_vec_leq(&av, &bv)
                }
            }
        };
    crate::sorting::sort_by_leq(&mut keys, &kcmp, Ghost(key_leq_rel()));
    proof {
        assert(keys.deep_view() == crate::sorting::insertion_sort_by(
            lookup_key_seq(e, generate_inflections),
            key_leq_rel(),
        ));
    }
    let keqf = |a: &(String, u32), b: &(String, u32)| -> (res: bool)
        ensures
            res == (a.deep_view() == b.deep_view()),
        {
            let same = a.0.eq(&b.0) && a.1 == b.1;
            proof {
                if a.0@ == b.0@ && a.1 == b.1 {
                    assert(a.deep_view() =~= b.deep_view());
                }
            }
            same
        };
    let keys = crate::sorting::dedup_adjacent_by(keys, &keqf);
    proof {
        assert(keys.deep_view() == spec_lookup_keys(e, generate_inflections));
    }
    keys
}

// ------------------------------------------------------------------
// Laws about the synthesized key set.
proof fn lemma_emit_one_self(w: Seq<char>, p: u32)
    ensures
        emit_one(w, p).contains((w, p)),
{
    if all_kana(w) {
        assert(emit_one(w, p)[1] == (w, p));
    } else {
        assert(emit_one(w, p)[0] == (w, p));
    }
}

proof fn lemma_emit_endings_contains(
    stem: Seq<char>,
    endings: Seq<Seq<char>>,
    i: int,
    k: int,
    p: u32,
)
    requires
        0 <= k < i <= endings.len(),
    ensures
        emit_endings(stem, endings, i, p).contains((stem + endings[k], p)),
    decreases i,
{
    let x = (stem + endings[k], p);
    if k == i - 1 {
        lemma_emit_one_self(stem + endings[k], p);
        crate::sorting::lemma_contains_add_right(
            emit_endings(stem, endings, i - 1, p),
            emit_one(stem + endings[i - 1], p),
            x,
        );
    } else {
        lemma_emit_endings_contains(stem, endings, i - 1, k, p);
        crate::sorting::lemma_contains_add_left(
            emit_endings(stem, endings, i - 1, p),
            emit_one(stem + endings[i - 1], p),
            x,
        );
    }
}

proof fn lemma_expand_word_contains(
    w: Seq<char>,
    rules: Seq<(Seq<char>, Seq<Seq<char>>)>,
    i: int,
    j: int,
    p: u32,
    x: (Seq<char>, u32),
)
    requires
        0 <= j < i <= rules.len(),
        expand_rule(w, rules[j].0, rules[j].1, p).contains(x),
    ensures
        expand_word(w, rules, i, p).contains(x),
    decreases i,
{
    if j == i - 1 {
        crate::sorting::lemma_contains_add_right(
            expand_word(w, rules, i - 1, p),
            expand_rule(w, rules[i - 1].0, rules[i - 1].1, p),
            x,
        );
    } else {
        lemma_expand_word_contains(w, rules, i - 1, j, p, x);
        crate::sorting::lemma_contains_add_left(
            expand_word(w, rules, i - 1, p),
            expand_rule(w, rules[i - 1].0, rules[i - 1].1, p),
            x,
        );
    }
}

proof fn lemma_expand_forms_contains(
    e: WordEntry,
    forms: Seq<Seq<char>>,
    i: int,
    fi: int,
    gi: bool,
    x: (Seq<char>, u32),
)
    requires
        0 <= fi < i <= forms.len(),
        expand_word(
            forms[fi],
            rules_for(e.conj, gi),
            rules_for(e.conj, gi).len() as int,
            form_priority(e, forms[fi]),
        ).contains(x),
    ensures
        expand_forms(e, forms, i, gi).contains(x),
    decreases i,
{
    let rules = rules_for(e.conj, gi);
    if fi == i - 1 {
        crate::sorting::lemma_contains_add_right(
            expand_forms(e, forms, i - 1, gi),
            expand_word(forms[i - 1], rules, rules.len() as int, form_priority(e, forms[i - 1])),
            x,
        );
    } else {
        lemma_expand_forms_contains(e, forms, i - 1, fi, gi, x);
        crate::sorting::lemma_contains_add_left(
            expand_forms(e, forms, i - 1, gi),
            expand_word(forms[i - 1], rules, rules.len() as int, form_priority(e, forms[i - 1])),
            x,
        );
    }
}

/// Sorting and de-duplication keep exactly the emitted keys: the final key
/// list holds a key if and only if expansion emitted it.
pub proof fn lemma_lookup_keys_membership(e: WordEntry, gi: bool, x: (Seq<char>, u32))
    ensures
        spec_lookup_keys(e, gi).contains(x) <==> lookup_key_seq(e, gi).contains(x),
{
    lemma_key_leq_total();
    crate::sorting::lemma_insertion_sort_by_contains(lookup_key_seq(e, gi), key_leq_rel(), x);
    crate::sorting::lemma_dedup_adjacent_contains(
        crate::sorting::insertion_sort_by(lookup_key_seq(e, gi), key_leq_rel()),
        x,
    );
}

/// For an ichidan-verb record, every candidate form that ends with the
/// dictionary suffix contributes the bare form and every inflected form
/// from its ending table to the key set, all at the form's priority.
pub proof fn lemma_ichidan_inflections(e: WordEntry, w: Seq<char>)
    requires
        e.conj == ConjugationClass::IchidanVerb,
        candidate_forms(e).contains(w),
        seq_ends_with(w, "る"@),
    ensures
        spec_lookup_keys(e, true).contains((w, form_priority(e, w))),
        forall|k: int|
            0 <= k < conj_rules(e.conj)[0].1.len() ==> spec_lookup_keys(e, true).contains(
                (
                    #[trigger] (w.take((w.len() - conj_rules(e.conj)[0].0.len()) as int)
                        + conj_rules(e.conj)[0].1[k]),
                    form_priority(e, w),
                ),
            ),
{
    reveal_strlit("る");
    let rules = conj_rules(e.conj);
    let trail = rules[0].0;
    let endings = rules[0].1;
    let p = form_priority(e, w);
    let er = expand_rule(w, trail, endings, p);
    let stem = w.take((w.len() - trail.len()) as int);
    let forms = candidate_forms(e);
    let fi = choose|fi: int| 0 <= fi < forms.len() && forms[fi] == w;

    assert(trail.len() == 1);
    assert(trail.len() > 0 && seq_ends_with(w, trail));

    // The bare form.
    lemma_emit_one_self(w, p);
    crate::sorting::lemma_contains_add_left(
        emit_one(w, p),
        emit_endings(stem, endings, endings.len() as int, p),
        (w, p),
    );
    assert(expand_word(w, rules, 0, p) == Seq::<(Seq<char>, u32)>::empty());
    crate::sorting::lemma_contains_add_right(expand_word(w, rules, 0, p), er, (w, p));
    assert(expand_word(w, rules, 1, p).contains((w, p)));
    lemma_expand_forms_contains(e, forms, forms.len() as int, fi, true, (w, p));
    lemma_lookup_keys_membership(e, true, (w, p));

    // Every inflected form.
    assert forall|k: int| 0 <= k < endings.len() implies spec_lookup_keys(e, true).contains(
        ((#[trigger] (stem + endings[k])), p),
    ) by {
        let x = (stem + endings[k], p);
        lemma_emit_endings_contains(stem, endings, endings.len() as int, k, p);
        crate::sorting::lemma_contains_add_right(
            emit_one(w, p),
            emit_endings(stem, endings, endings.len() as int, p),
            x,
        );
        crate::sorting::lemma_contains_add_right(expand_word(w, rules, 0, p), er, x);
        assert(expand_word(w, rules, 1, p).contains(x));
        lemma_expand_forms_contains(e, forms, forms.len() as int, fi, true, x);
        lemma_lookup_keys_membership(e, true, x);
    }
}

/// A key list is closed under katakana companions when every all-kana key
/// in it also appears transliterated to katakana at the same priority.
pub open spec fn kata_closed(s: Seq<(Seq<char>, u32)>) -> bool {
    forall|i: int|
        #![trigger s[i]]
        0 <= i < s.len() && all_kana(s[i].0) ==> s.contains((hira_to_kata(s[i].0), s[i].1))
}

proof fn lemma_kata_closed_add(a: Seq<(Seq<char>, u32)>, b: Seq<(Seq<char>, u32)>)
    requires
        kata_closed(a),
        kata_closed(b),
    ensures
        kata_closed(a + b),
{
    let s = a + b;
    assert forall|i: int| 0 <= i < s.len() && all_kana(#[trigger] s[i].0) implies s.contains(
        (hira_to_kata(s[i].0), s[i].1),
    ) by {
        if i < a.len() {
            assert(s[i] == a[i]);
            crate::sorting::lemma_contains_add_left(a, b, (hira_to_kata(a[i].0), a[i].1));
        } else {
            assert(s[i] == b[i - a.len()]);
            crate::sorting::lemma_contains_add_right(
                a,
                b,
                (hira_to_kata(b[i - a.len()].0), b[i - a.len()].1),
            );
        }
    }
}

proof fn lemma_emit_one_kata_closed(w: Seq<char>, p: u32)
    ensures
        kata_closed(emit_one(w, p)),
{
    let s = emit_one(w, p);
    if all_kana(w) {
        crate::kana::lemma_h2k_all_kana(w);
        crate::kana::lemma_h2k_idempotent(w);
        assert(s[0] == (hira_to_kata(w), p));
        assert forall|i: int| 0 <= i < s.len() && all_kana(#[trigger] s[i].0) implies s.contains(
            (hira_to_kata(s[i].0), s[i].1),
        ) by {
            if i == 0 {
                assert(hira_to_kata(s[0].0) == s[0].0);
                assert(s.contains(s[0]));
            } else {
                assert(s[1] == (w, p));
                assert(s.contains(s[0]));
            }
        }
    }
}

proof fn lemma_emit_endings_kata_closed(stem: Seq<char>, endings: Seq<Seq<char>>, i: int, p: u32)
    ensures
        kata_closed(emit_endings(stem, endings, i, p)),
    decreases i,
{
    if i <= 0 || i > endings.len() {
    } else {
        lemma_emit_endings_kata_closed(stem, endings, i - 1, p);
        lemma_emit_one_kata_closed(stem + endings[i - 1], p);
        lemma_kata_closed_add(
            emit_endings(stem, endings, i - 1, p),
            emit_one(stem + endings[i - 1], p),
        );
    }
}

proof fn lemma_expand_rule_kata_closed(
    w: Seq<char>,
    trail: Seq<char>,
    endings: Seq<Seq<char>>,
    p: u32,
)
    ensures
        kata_closed(expand_rule(w, trail, endings, p)),
{
    lemma_emit_one_kata_closed(w, p);
    if trail.len() > 0 && seq_ends_with(w, trail) {
        lemma_emit_endings_kata_closed(
            w.take((w.len() - trail.len()) as int),
            endings,
            endings.len() as int,
            p,
        );
        lemma_kata_closed_add(
            emit_one(w, p),
            emit_endings(
                w.take((w.len() - trail.len()) as int),
                endings,
                endings.len() as int,
                p,
            ),
        );
    } else {
        lemma_kata_closed_add(emit_one(w, p), Seq::<(Seq<char>, u32)>::empty());
    }
}

proof fn lemma_expand_word_kata_closed(
    w: Seq<char>,
    rules: Seq<(Seq<char>, Seq<Seq<char>>)>,
    i: int,
    p: u32,
)
    ensures
        kata_closed(expand_word(w, rules, i, p)),
    decreases i,
{
    if i <= 0 || i > rules.len() {
    } else {
        lemma_expand_word_kata_closed(w, rules, i - 1, p);
        lemma_expand_rule_kata_closed(w, rules[i - 1].0, rules[i - 1].1, p);
        lemma_kata_closed_add(
            expand_word(w, rules, i - 1, p),
            expand_rule(w, rules[i - 1].0, rules[i - 1].1, p),
        );
    }
}

proof fn lemma_expand_forms_kata_closed(e: WordEntry, forms: Seq<Seq<char>>, i: int, gi: bool)
    ensures
        kata_closed(expand_forms(e, forms, i, gi)),
    decreases i,
{
    if i <= 0 || i > forms.len() {
    } else {
        let rules = rules_for(e.conj, gi);
        lemma_expand_forms_kata_closed(e, forms, i - 1, gi);
        lemma_expand_word_kata_closed(
            forms[i - 1],
            rules,
            rules.len() as int,
            form_priority(e, forms[i - 1]),
        );
        lemma_kata_closed_add(
            expand_forms(e, forms, i - 1, gi),
            expand_word(forms[i - 1], rules, rules.len() as int, form_priority(e, forms[i - 1])),
        );
    }
}

proof fn lemma_kata_closed_same_elements(a: Seq<(Seq<char>, u32)>, b: Seq<(Seq<char>, u32)>)
    requires
        kata_closed(a),
        forall|x: (Seq<char>, u32)| a.contains(x) <==> b.contains(x),
    ensures
        kata_closed(b),
{
    assert forall|i: int| 0 <= i < b.len() && all_kana(#[trigger] b[i].0) implies b.contains(
        (hira_to_kata(b[i].0), b[i].1),
    ) by {
        assert(b.contains(b[i]));
        assert(a.contains(b[i]));
        let j = choose|j: int| 0 <= j < a.len() && a[j] == b[i];
        assert(a.contains((hira_to_kata(a[j].0), a[j].1)));
    }
}

/// Every all-kana key in the final key list is accompanied by its katakana
/// transliteration at the same priority.
pub proof fn lemma_kana_key_companions(e: WordEntry, gi: bool)
    ensures
        kata_closed(spec_lookup_keys(e, gi)),
{
    let forms = candidate_forms(e);
    lemma_expand_forms_kata_closed(e, forms, forms.len() as int, gi);
    assert forall|x: (Seq<char>, u32)|
        lookup_key_seq(e, gi).contains(x) <==> #[trigger] spec_lookup_keys(e, gi).contains(x) by {
        lemma_lookup_keys_membership(e, gi, x);
    }
    lemma_kata_closed_same_elements(lookup_key_seq(e, gi), spec_lookup_keys(e, gi));
}

/// Every priority a key list assigns is at least one.
pub open spec fn all_priorities_positive(s: Seq<(Seq<char>, u32)>) -> bool {
    forall|i: int| #![trigger s[i]] 0 <= i < s.len() ==> s[i].1 >= 1
}

proof fn lemma_form_priority_positive(e: WordEntry, w: Seq<char>)
    requires
        e.priority <= u32::MAX - WORD_PRIORITY_OFFSET,
    ensures
        form_priority(e, w) >= 8,
{
    let jm: u32 = (e.priority + WORD_PRIORITY_OFFSET) as u32;
    let boost = class_boost(e.conj);
    assert(jm >= 256);
    let x: u32 = if all_kana(w) && e.usually_kana {
        jm / KANA_PREFERENCE_DIVISOR
    } else {
        jm
    };
    assert(jm / 8 >= 32) by {
        vstd::arithmetic::div_mod::lemma_div_is_ordered(256, jm as int, 8);
    }
    assert(x >= 32);
    assert(boost == 1 || boost == 2 || boost == 4);
    assert(x / boost >= 8) by {
        if boost == 1 {
            vstd::arithmetic::div_mod::lemma_div_is_ordered(32, x as int, 1);
        } else if boost == 2 {
            vstd::arithmetic::div_mod::lemma_div_is_ordered(32, x as int, 2);
        } else {
            vstd::arithmetic::div_mod::lemma_div_is_ordered(32, x as int, 4);
        }
    }
}

proof fn lemma_positive_add(a: Seq<(Seq<char>, u32)>, b: Seq<(Seq<char>, u32)>)
    requires
        all_priorities_positive(a),
        all_priorities_positive(b),
    ensures
        all_priorities_positive(a + b),
{
    assert forall|i: int| 0 <= i < (a + b).len() implies (#[trigger] (a + b)[i]).1 >= 1 by {
        if i < a.len() {
            assert((a + b)[i] == a[i]);
        } else {
            assert((a + b)[i] == b[i - a.len()]);
        }
    }
}

proof fn lemma_emit_one_positive(w: Seq<char>, p: u32)
    requires
        p >= 1,
    ensures
        all_priorities_positive(emit_one(w, p)),
{
}

proof fn lemma_emit_endings_positive(stem: Seq<char>, endings: Seq<Seq<char>>, i: int, p: u32)
    requires
        p >= 1,
    ensures
        all_priorities_positive(emit_endings(stem, endings, i, p)),
    decreases i,
{
    if i <= 0 || i > endings.len() {
    } else {
        lemma_emit_endings_positive(stem, endings, i - 1, p);
        lemma_emit_one_positive(stem + endings[i - 1], p);
        lemma_positive_add(
            emit_endings(stem, endings, i - 1, p),
            emit_one(stem + endings[i - 1], p),
        );
    }
}

proof fn lemma_expand_word_positive(
    w: Seq<char>,
    rules: Seq<(Seq<char>, Seq<Seq<char>>)>,
    i: int,
    p: u32,
)
    requires
        p >= 1,
    ensures
        all_priorities_positive(expand_word(w, rules, i, p)),
    decreases i,
{
    if i <= 0 || i > rules.len() {
    } else {
        lemma_expand_word_positive(w, rules, i - 1, p);
        let trail = rules[i - 1].0;
        let endings = rules[i - 1].1;
        lemma_emit_one_positive(w, p);
        if trail.len() > 0 && seq_ends_with(w, trail) {
            lemma_emit_endings_positive(
                w.take((w.len() - trail.len()) as int),
                endings,
                endings.len() as int,
                p,
            );
            lemma_positive_add(
                emit_one(w, p),
                emit_endings(
                    w.take((w.len() - trail.len()) as int),
                    endings,
                    endings.len() as int,
                    p,
                ),
            );
        } else {
            lemma_positive_add(emit_one(w, p), Seq::<(Seq<char>, u32)>::empty());
        }
        lemma_positive_add(
            expand_word(w, rules, i - 1, p),
            expand_rule(w, trail, endings, p),
        );
    }
}

proof fn lemma_expand_forms_positive(e: WordEntry, forms: Seq<Seq<char>>, i: int, gi: bool)
    requires
        e.priority <= u32::MAX - WORD_PRIORITY_OFFSET,
    ensures
        all_priorities_positive(expand_forms(e, forms, i, gi)),
    decreases i,
{
    if i <= 0 || i > forms.len() {
    } else {
        let rules = rules_for(e.conj, gi);
        lemma_expand_forms_positive(e, forms, i - 1, gi);
        lemma_form_priority_positive(e, forms[i - 1]);
        lemma_expand_word_positive(
            forms[i - 1],
            rules,
            rules.len() as int,
            form_priority(e, forms[i - 1]),
        );
        lemma_positive_add(
            expand_forms(e, forms, i - 1, gi),
            expand_word(forms[i - 1], rules, rules.len() as int, form_priority(e, forms[i - 1])),
        );
    }
}

/// No word key is ever assigned priority zero: that value is reserved for
/// kanji-character entries.
pub proof fn lemma_word_keys_never_priority_zero(e: WordEntry, gi: bool)
    requires
        e.priority <= u32::MAX - WORD_PRIORITY_OFFSET,
    ensures
        all_priorities_positive(spec_lookup_keys(e, gi)),
{
    let forms = candidate_forms(e);
    lemma_expand_forms_positive(e, forms, forms.len() as int, gi);
    let s = lookup_key_seq(e, gi);
    let out = spec_lookup_keys(e, gi);
    assert forall|i: int| 0 <= i < out.len() implies (#[trigger] out[i]).1 >= 1 by {
        assert(out.contains(out[i]));
        lemma_lookup_keys_membership(e, gi, out[i]);
        let j = choose|j: int| 0 <= j < s.len() && s[j] == out[i];
        assert(s[j].1 >= 1);
    }
}

// ------------------------------------------------------------------
// Entry text rendering.
/// The first `i` items joined with a separator between them.
pub open spec fn join_back(items: Seq<Seq<char>>, i: int, sep: Seq<char>) -> Seq<char>
    decreases i,
{
    if i <= 0 || i > items.len() {
        Seq::<char>::empty()
    } else if i == 1 {
        items[0]
    } else {
        join_back(items, i - 1, sep) + sep + items[i - 1]
    }
}

/// The first `i` items, each preceded by a prefix.
pub open spec fn concat_pre(items: Seq<Seq<char>>, i: int, pre: Seq<char>) -> Seq<char>
    decreases i,
{
    if i <= 0 || i > items.len() {
        Seq::<char>::empty()
    } else {
        concat_pre(items, i - 1, pre) + pre + items[i - 1]
    }
}

/// Appends the items joined with a separator.
fn append_join(text: &mut String, items: &Vec<String>, sep: &str)
    ensures
        final(text)@ == old(text)@ + join_back(items.deep_view(), items@.len() as int, sep@),
{
    let ghost base = text@;
    let mut i: usize = 0;
    while i < items.len()
        invariant
            0 <= i <= items@.len(),
            text@ == base + join_back(items.deep_view(), i as int, sep@),
        decreases items@.len() - i,
    {
        if i > 0 {
            text.append(sep);
        }
        text.append(items[i].as_str());
        proof {
            assert(text@ =~= base + join_back(items.deep_view(), i + 1, sep@));
        }
        i = i + 1;
    }
    proof {
        assert(text@ =~= base + join_back(items.deep_view(), items@.len() as int, sep@));
    }
}

/// Appends the items, each preceded by a prefix.
fn append_each_pre(text: &mut String, items: &Vec<String>, pre: &str)
    ensures
        final(text)@ == old(text)@ + concat_pre(items.deep_view(), items@.len() as int, pre@),
{
    let ghost base = text@;
    let mut i: usize = 0;
    while i < items.len()
        invariant
            0 <= i <= items@.len(),
            text@ == base + concat_pre(items.deep_view(), i as int, pre@),
        decreases items@.len() - i,
    {
        text.append(pre);
        text.append(items[i].as_str());
        proof {
            assert(text@ =~= base + concat_pre(items.deep_view(), i + 1, pre@));
        }
        i = i + 1;
    }
}

/// One grammatical term of the entry headers.
#[derive(Debug, Copy, Clone, Eq, PartialEq, Structural)]
pub enum HeaderTerm {
    Verb,
    IAdjectiveTerm,
    AdjectiveTerm,
    NameTerm,
    Transitive,
    Intransitive,
    Irregular,
    Ichidan,
    Godan,
}

/// The wording of each header term in each language mode.
pub open spec fn spec_header_term(t: HeaderTerm, m: LangMode) -> Seq<char> {
    match t {
        HeaderTerm::Verb => if m is Japanese {
            "動詞"@
        } else {
            "verb"@
        },
        HeaderTerm::IAdjectiveTerm => if m is Japanese {
            "形容詞"@
        } else {
            "i-adjective"@
        },
        HeaderTerm::AdjectiveTerm => if m is Japanese {
            "形容"@
        } else {
            "adjective"@
        },
        HeaderTerm::NameTerm => if m is Japanese {
            "名"@
        } else {
            "name"@
        },
        HeaderTerm::Transitive => match m {
            LangMode::English => ", transitive"@,
            LangMode::EnglishAlt => ", other-move"@,
            LangMode::Japanese => "、他動"@,
        },
        HeaderTerm::Intransitive => match m {
            LangMode::English => ", intransitive"@,
            LangMode::EnglishAlt => ", self-move"@,
            LangMode::Japanese => "、自動"@,
        },
        HeaderTerm::Irregular => if m is Japanese {
            ""@
        } else {
            ", irregular"@
        },
        HeaderTerm::Ichidan => if m is Japanese {
            "、一段"@
        } else {
            ", ichidan"@
        },
        HeaderTerm::Godan => if m is Japanese {
            "、五段"@
        } else {
            ", godan"@
        },
    }
}

/// Looks one header term up in the requested language.
fn header_term(t: HeaderTerm, m: LangMode) -> (r: &'static str)
    ensures
        r@ == spec_header_term(t, m),
{
    match t {
        HeaderTerm::Verb => if matches!(m, LangMode::Japanese) {
            "動詞"
        } else {
            "verb"
        },
        HeaderTerm::IAdjectiveTerm => if matches!(m, LangMode::Japanese) {
            "形容詞"
        } else {
            "i-adjective"
        },
        HeaderTerm::AdjectiveTerm => if matches!(m, LangMode::Japanese) {
            "形容"
        } else {
            "adjective"
        },
        HeaderTerm::NameTerm => if matches!(m, LangMode::Japanese) {
            "名"
        } else {
            "name"
        },
        HeaderTerm::Transitive => match m {
            LangMode::English => ", transitive",
            LangMode::EnglishAlt => ", other-move",
            LangMode::Japanese => "、他動",
        },
        HeaderTerm::Intransitive => match m {
            LangMode::English => ", intransitive",
            LangMode::EnglishAlt => ", self-move",
            LangMode::Japanese => "、自動",
        },
        HeaderTerm::Irregular => if matches!(m, LangMode::Japanese) {
            ""
        } else {
            ", irregular"
        },
        HeaderTerm::Ichidan => if matches!(m, LangMode::Japanese) {
            "、一段"
        } else {
            ", ichidan"
        },
        HeaderTerm::Godan => if matches!(m, LangMode::Japanese) {
            "、五段"
        } else {
            ", godan"
        },
    }
}

/// The style span that opens the word-type note of a header.
pub open spec fn word_type_start() -> Seq<char> {
    " <span style=\"font-size: 0.8em; font-style: italic; margin-left: 0; white-space: nowrap;\">"@
}

/// The closing tag of the word-type note.
pub open spec fn word_type_end() -> Seq<char> {
    "</span>"@
}

/// The first `i` pitch-accent positions rendered as bracketed numbers.
pub open spec fn accents_text(l: Seq<u32>, i: int) -> Seq<char>
    decreases i,
{
    if i <= 0 || i > l.len() {
        Seq::<char>::empty()
    } else {
        accents_text(l, i - 1) + "["@ + crate::text::dec_str(l[i - 1] as nat) + "]"@
    }
}

/// The conjugation note of a verb header: ichidan and godan classes are
/// named, the irregular classes are marked irregular, and anything else
/// gets no note.
pub open spec fn spec_conj_note(c: ConjugationClass, m: LangMode) -> Seq<char> {
    match c {
        ConjugationClass::IchidanVerb => spec_header_term(HeaderTerm::Ichidan, m),
        ConjugationClass::GodanVerbU
        | ConjugationClass::GodanVerbTsu
        | ConjugationClass::GodanVerbRu
        | ConjugationClass::GodanVerbKu
        | ConjugationClass::GodanVerbGu
        | ConjugationClass::GodanVerbNu
        | ConjugationClass::GodanVerbBu
        | ConjugationClass::GodanVerbMu
        | ConjugationClass::GodanVerbSu => spec_header_term(HeaderTerm::Godan, m),
        ConjugationClass::SuruVerb
        | ConjugationClass::SuruVerbSC
        | ConjugationClass::KuruVerb
        | ConjugationClass::IkuVerb
        | ConjugationClass::KureruVerb
        | ConjugationClass::AruVerb
        | ConjugationClass::SharuVerb
        | ConjugationClass::GodanVerbHu
        | ConjugationClass::IrregularVerb => spec_header_term(HeaderTerm::Irregular, m),
        _ => Seq::<char>::empty(),
    }
}

/// The transitivity note of a verb header, from the record's tags.
pub open spec fn spec_transitivity_note(e: WordEntry, m: LangMode) -> Seq<char> {
    let vt = e.tags.deep_view().contains("pos:vt"@);
    let vi = e.tags.deep_view().contains("pos:vi"@);
    if vt && !vi {
        spec_header_term(HeaderTerm::Transitive, m)
    } else if !vt && vi {
        spec_header_term(HeaderTerm::Intransitive, m)
    } else {
        Seq::<char>::empty()
    }
}

/// The word-type note of a header: verbs name their class and
/// transitivity, i-adjectives their adjective kind; anything else gets no
/// note.
pub open spec fn spec_word_type_note(e: WordEntry, m: LangMode) -> Seq<char> {
    match e.pos {
        crate::jmdict::PartOfSpeech::Verb => word_type_start() + spec_header_term(
            HeaderTerm::Verb,
            m,
        ) + spec_transitivity_note(e, m) + spec_conj_note(e.conj, m) + word_type_end(),
        crate::jmdict::PartOfSpeech::Adjective => {
            let kind = if e.conj == ConjugationClass::IAdjective || e.conj
                == ConjugationClass::IrregularIAdjective {
                spec_header_term(HeaderTerm::IAdjectiveTerm, m)
            } else {
                spec_header_term(HeaderTerm::AdjectiveTerm, m)
            };
            let irr = if e.conj == ConjugationClass::IrregularIAdjective {
                spec_header_term(HeaderTerm::Irregular, m)
            } else {
                Seq::<char>::empty()
            };
            word_type_start() + kind + irr + word_type_end()
        },
        _ => Seq::<char>::empty(),
    }
}

/// The pronunciation-and-writings part of a header: the reading converted
/// to the configured kana script, the pitch accents, and the writings
/// between lenticular brackets, led by the primary reading when the word
/// is usually kana or has no writing.
pub open spec fn spec_header_text(
    s: EntrySettings,
    kana: Seq<char>,
    pitch: Option<Seq<u32>>,
    e: WordEntry,
) -> Seq<char> {
    (if s.use_katakana_pronunciation {
        hira_to_kata(kana)
    } else {
        crate::kana::kata_to_hira(kana)
    }) + (match pitch {
        Some(l) => if l.len() > 0 {
            " "@ + accents_text(l, l.len() as int)
        } else {
            Seq::<char>::empty()
        },
        None => Seq::<char>::empty(),
    }) + " &nbsp;&nbsp;&mdash; 【"@ + (if e.usually_kana || e.writings@.len() == 0 {
        e.readings.deep_view()[0] + concat_pre(
            e.writings.deep_view(),
            e.writings@.len() as int,
            "／"@,
        )
    } else {
        join_back(e.writings.deep_view(), e.writings@.len() as int, "／"@)
    }) + "】"@ + spec_word_type_note(e, s.lang_mode)
}

/// Whether the record's tag set holds one tag.
fn has_tag(tags: &Vec<String>, t: &str) -> (r: bool)
    ensures
        r == tags.deep_view().contains(t@),
{
    let want = t.to_owned();
    let mut i: usize = 0;
    while i < tags.len()
        invariant
            0 <= i <= tags@.len(),
            want@ == t@,
            forall|k: int| 0 <= k < i ==> tags.deep_view()[k] != t@,
        decreases tags@.len() - i,
    {
        if tags[i].eq(&want) {
            proof {
                assert(tags.deep_view()[i as int] == t@);
            }
            return true;
        }
        i = i + 1;
    }
    false
}

/// Generates the header text of a word entry.
#[verifier::rlimit(100)]
pub fn generate_header_text(
    entry_settings: EntrySettings,
    kana: &str,
    pitch_accent: Option<&Vec<u32>>,
    jm_entry: &WordEntry,
) -> (r: String)
    requires
        jm_entry.readings@.len() >= 1,
    ensures
        r@ == spec_header_text(
            entry_settings,
            kana@,
            match pitch_accent {
                Some(l) => Some(l@),
                None => None,
            },
            *jm_entry,
        ),
{
    let mut text = if entry_settings.use_katakana_pronunciation {
        hiragana_to_katakana(kana)
    } else {
        crate::kana::katakana_to_hiragana(kana)
    };
    match pitch_accent {
        Some(accent_list) => {
            if accent_list.len() > 0 {
                text.append(" ");
                let ghost base = text@;
                let mut i: usize = 0;
                while i < accent_list.len()
                    invariant
                        0 <= i <= accent_list@.len(),
                        text@ == base + accents_text(accent_list@, i as int),
                    decreases accent_list@.len() - i,
                {
                    text.append("[");
                    let d = crate::text::u32_to_dec_chars(accent_list[i]);
                    let ds = crate::text::string_from_chars(&d);
                    text.append(ds.as_str());
                    text.append("]");
                    proof {
                        assert(text@ =~= base + accents_text(accent_list@, i + 1));
                    }
                    i = i + 1;
                }
            }
        },
        None => {},
    }
    text.append(" &nbsp;&nbsp;&mdash; 【");
    if jm_entry.usually_kana || jm_entry.writings.len() == 0 {
        text.append(jm_entry.readings[0].as_str());
        append_each_pre(&mut text, &jm_entry.writings, "／");
    } else {
        append_join(&mut text, &jm_entry.writings, "／");
    }
    text.append("】");
    append_word_type_note(&mut text, jm_entry, entry_settings.lang_mode);
    proof {
        assert(text@ =~= spec_header_text(
            entry_settings,
            kana@,
            match pitch_accent {
                Some(l) => Some(l@),
                None => None,
            },
            *jm_entry,
        ));
    }
    text
}

/// Appends the word-type note of a header.
#[verifier::rlimit(50)]
fn append_word_type_note(text: &mut String, jm_entry: &WordEntry, m: LangMode)
    ensures
        final(text)@ == old(text)@ + spec_word_type_note(*jm_entry, m),
{
    match jm_entry.pos {
        crate::jmdict::PartOfSpeech::Verb => {
            text.append(
                " <span style=\"font-size: 0.8em; font-style: italic; margin-left: 0; white-space: nowrap;\">",
            );
            text.append(header_term(HeaderTerm::Verb, m));
            let vt = has_tag(&jm_entry.tags, "pos:vt");
            let vi = has_tag(&jm_entry.tags, "pos:vi");
            if vt && !vi {
                text.append(header_term(HeaderTerm::Transitive, m));
            } else if !vt && vi {
                text.append(header_term(HeaderTerm::Intransitive, m));
            }
            let conj_note = match jm_entry.conj {
                ConjugationClass::IchidanVerb => header_term(HeaderTerm::Ichidan, m),
                ConjugationClass::GodanVerbU
                | ConjugationClass::GodanVerbTsu
                | ConjugationClass::GodanVerbRu
                | ConjugationClass::GodanVerbKu
                | ConjugationClass::GodanVerbGu
                | ConjugationClass::GodanVerbNu
                | ConjugationClass::GodanVerbBu
                | ConjugationClass::GodanVerbMu
                | ConjugationClass::GodanVerbSu => header_term(HeaderTerm::Godan, m),
                ConjugationClass::SuruVerb
                | ConjugationClass::SuruVerbSC
                | ConjugationClass::KuruVerb
                | ConjugationClass::IkuVerb
                | ConjugationClass::KureruVerb
                | ConjugationClass::AruVerb
                | ConjugationClass::SharuVerb
                | ConjugationClass::GodanVerbHu
                | ConjugationClass::IrregularVerb => header_term(HeaderTerm::Irregular, m),
                _ => "",
            };
            proof {
                reveal_strlit("");
                assert(conj_note@ == spec_conj_note(jm_entry.conj, m));
            }
            text.append(conj_note);
            text.append("</span>");
            proof {
                assert(final(text)@ =~= old(text)@ + spec_word_type_note(*jm_entry, m));
            }
        },
        crate::jmdict::PartOfSpeech::Adjective => {
            text.append(
                " <span style=\"font-size: 0.8em; font-style: italic; margin-left: 0; white-space: nowrap;\">",
            );
            let is_i = matches!(
                jm_entry.conj,
                ConjugationClass::IAdjective | ConjugationClass::IrregularIAdjective
            );
            if is_i {
                text.append(header_term(HeaderTerm::IAdjectiveTerm, m));
            } else {
                text.append(header_term(HeaderTerm::AdjectiveTerm, m));
            }
            if matches!(jm_entry.conj, ConjugationClass::IrregularIAdjective) {
                text.append(header_term(HeaderTerm::Irregular, m));
            }
            text.append("</span>");
            proof {
                assert(final(text)@ =~= old(text)@ + spec_word_type_note(*jm_entry, m));
            }
        },
        _ => {
            proof {
                assert(final(text)@ =~= old(text)@ + spec_word_type_note(*jm_entry, m));
            }
        },
    }
}

use crate::yomichan::{
    spec_def_is_empty, spec_definition_to_html, spec_depth, KanjiEntry, TermEntry,
};

/// The rendering of the first `i` term-dictionary records as paragraphs;
/// each names its source dictionary when more than one record is shown.
pub open spec fn defs_paragraphs(entries: Seq<TermEntry>, i: int, many: bool) -> Seq<char>
    decreases i,
{
    if i <= 0 || i > entries.len() {
        Seq::<char>::empty()
    } else {
        defs_paragraphs(entries, i - 1, many) + "<p>"@ + (if many {
            entries[i - 1].dict_name@ + ":<br/>"@
        } else {
            Seq::<char>::empty()
        }) + spec_definition_to_html(
            entries[i - 1].definitions,
            spec_depth(entries[i - 1].definitions),
            true,
        ) + "</p>"@
    }
}

/// The definition block of a word entry: every matching term-dictionary
/// record rendered as an ordered-list paragraph.
pub open spec fn spec_definition_text(entries: Seq<TermEntry>) -> Seq<char> {
    "<div style=\"margin-top: 0.7em\">"@ + defs_paragraphs(
        entries,
        entries.len() as int,
        entries.len() > 1,
    ) + "</div>"@
}

/// Generates the definition text of a word entry from its matching
/// term-dictionary records.
pub fn generate_definition_text(yomi_entries: &Vec<TermEntry>) -> (r: String)
    requires
        forall|k: int|
            0 <= k < yomi_entries@.len() ==> spec_depth(
                #[trigger] yomi_entries@[k].definitions,
            ) <= usize::MAX,
    ensures
        r@ == spec_definition_text(yomi_entries@),
{
    let mut text = String::new();
    text.append("<div style=\"margin-top: 0.7em\">");
    let ghost base = text@;
    let many = yomi_entries.len() > 1;
    let mut i: usize = 0;
    while i < yomi_entries.len()
        invariant
            0 <= i <= yomi_entries@.len(),
            many == (yomi_entries@.len() > 1),
            forall|k: int|
                0 <= k < yomi_entries@.len() ==> spec_depth(
                    #[trigger] yomi_entries@[k].definitions,
                ) <= usize::MAX,
            text@ == base + defs_paragraphs(yomi_entries@, i as int, many),
        decreases yomi_entries@.len() - i,
    {
        text.append("<p>");
        let entry = &yomi_entries[i];
        if many {
            text.append(entry.dict_name.as_str());
            text.append(":<br/>");
        }
        let d = entry.definitions.depth();
        let html = crate::yomichan::definition_to_html(&entry.definitions, d, true);
        text.append(html.as_str());
        text.append("</p>");
        proof {
            assert(text@ =~= base + defs_paragraphs(yomi_entries@, i + 1, many));
        }
        i = i + 1;
    }
    text.append("</div>");
    proof {
        assert(text@ =~= spec_definition_text(yomi_entries@));
    }
    text
}

/// The rendered text of a name entry: its reading in the configured kana
/// script, its writing, the name note with its tags, and its definitions
/// as an unordered list.
pub open spec fn spec_name_entry_text(s: EntrySettings, e: TermEntry) -> Seq<char> {
    (if crate::text::trim_seq(e.reading@).len() > 0 {
        (if s.use_katakana_pronunciation {
            hira_to_kata(e.reading@)
        } else {
            crate::kana::kata_to_hira(e.reading@)
        }) + " &nbsp;&nbsp;&mdash; "@
    } else {
        Seq::<char>::empty()
    }) + "【"@ + e.writing@ + "】"@ + word_type_start() + spec_header_term(
        HeaderTerm::NameTerm,
        s.lang_mode,
    ) + (if e.tags@.len() > 0 {
        ": "@ + join_back(e.tags.deep_view(), e.tags@.len() as int, ", "@)
    } else {
        Seq::<char>::empty()
    }) + word_type_end() + (if !spec_def_is_empty(e.definitions) {
        spec_definition_to_html(e.definitions, spec_depth(e.definitions), false)
    } else {
        Seq::<char>::empty()
    })
}

/// Generates the rendered text of a name entry.
#[verifier::rlimit(50)]
pub fn generate_name_entry_text(entry_settings: EntrySettings, entry: &TermEntry) -> (r: String)
    requires
        spec_depth(entry.definitions) <= usize::MAX,
    ensures
        r@ == spec_name_entry_text(entry_settings, *entry),
{
    let mut text = String::new();
    let rc = crate::text::chars_of(entry.reading.as_str());
    let rt = crate::text::trim_chars(&rc);
    if rt.len() > 0 {
        let conv = if entry_settings.use_katakana_pronunciation {
            hiragana_to_katakana(entry.reading.as_str())
        } else {
            crate::kana::katakana_to_hiragana(entry.reading.as_str())
        };
        text.append(conv.as_str());
        text.append(" &nbsp;&nbsp;&mdash; ");
    }
    text.append("【");
    text.append(entry.writing.as_str());
    text.append("】");
    text.append(
        " <span style=\"font-size: 0.8em; font-style: italic; margin-left: 0; white-space: nowrap;\">",
    );
    text.append(header_term(HeaderTerm::NameTerm, entry_settings.lang_mode));
    if entry.tags.len() > 0 {
        text.append(": ");
        append_join(&mut text, &entry.tags, ", ");
    }
    text.append("</span>");
    if !entry.definitions.is_empty() {
        let d = entry.definitions.depth();
        let html = crate::yomichan::definition_to_html(&entry.definitions, d, false);
        text.append(html.as_str());
    }
    proof {
        assert(text@ =~= spec_name_entry_text(entry_settings, *entry));
    }
    text
}

/// The rendered text of a kanji entry: the character in large type with
/// its meanings, then its on-yomi and kun-yomi readings.
pub open spec fn spec_kanji_entry_text(e: KanjiEntry) -> Seq<char> {
    "<p style=\"margin-left: 2.5em; margin-bottom: 1.0em; text-indent: -2.5em;\"><span style=\"font-size: 2.0em;\">"@
        + e.kanji@ + (if e.meanings@.len() > 0 {
        "</span>　"@ + join_back(e.meanings.deep_view(), e.meanings@.len() as int, ", "@)
    } else {
        Seq::<char>::empty()
    }) + "</p>"@ + (if e.onyomi@.len() > 0 {
        "<p style=\"margin-left: 2.5em; text-indent: -2.5em;\">音:　"@ + join_back(
            e.onyomi.deep_view(),
            e.onyomi@.len() as int,
            "／"@,
        ) + "</p>"@
    } else {
        Seq::<char>::empty()
    }) + (if e.kunyomi@.len() > 0 {
        "<p style=\"margin-left: 2.5em; text-indent: -2.5em;\">訓:　"@ + join_back(
            e.kunyomi.deep_view(),
            e.kunyomi@.len() as int,
            "／"@,
        ) + "</p>"@
    } else {
        Seq::<char>::empty()
    })
}

/// Generates the rendered text of a kanji entry.
#[verifier::rlimit(50)]
pub fn generate_kanji_entry_text(entry: &KanjiEntry) -> (r: String)
    ensures
        r@ == spec_kanji_entry_text(*entry),
{
    let mut text = String::new();
    text.append(
        "<p style=\"margin-left: 2.5em; margin-bottom: 1.0em; text-indent: -2.5em;\"><span style=\"font-size: 2.0em;\">",
    );
    text.append(entry.kanji.as_str());
    if entry.meanings.len() > 0 {
        text.append("</span>　");
        append_join(&mut text, &entry.meanings, ", ");
    }
    text.append("</p>");
    if entry.onyomi.len() > 0 {
        text.append("<p style=\"margin-left: 2.5em; text-indent: -2.5em;\">音:　");
        append_join(&mut text, &entry.onyomi, "／");
        text.append("</p>");
    }
    if entry.kunyomi.len() > 0 {
        text.append("<p style=\"margin-left: 2.5em; text-indent: -2.5em;\">訓:　");
        append_join(&mut text, &entry.kunyomi, "／");
        text.append("</p>");
    }
    proof {
        assert(text@ =~= spec_kanji_entry_text(*entry));
    }
    text
}

// ------------------------------------------------------------------
// The entry merger.
/// The mathematical model of an [`Entry`]: its key pairs and its
/// definition text.
#[verifier::ext_equal]
pub struct EntryModel {
    pub keys: Seq<(Seq<char>, u32)>,
    pub definition: Seq<char>,
}

impl DeepView for Entry {
    type V = EntryModel;

    open spec fn deep_view(&self) -> EntryModel {
        EntryModel { keys: self.keys.deep_view(), definition: self.definition@ }
    }
}

/// The first value at or after position `i` whose key matches, if any.
pub open spec fn table_find<V>(
    t: Seq<((String, String), V)>,
    k0: Seq<char>,
    k1: Seq<char>,
    i: int,
) -> Option<V>
    decreases t.len() - i,
{
    if i < 0 || i >= t.len() {
        None
    } else if t[i].0.0@ == k0 && t[i].0.1@ == k1 {
        Some(t[i].1)
    } else {
        table_find(t, k0, k1, i + 1)
    }
}

/// A found table value is one of the table's rows.
proof fn lemma_table_find_member<V>(t: Seq<((String, String), V)>, k0: Seq<char>, k1: Seq<char>, i: int)
    requires
        0 <= i,
        table_find(t, k0, k1, i) is Some,
    ensures
        exists|m: int|
            i <= m < t.len() && (#[trigger] t[m]).1 == table_find(t, k0, k1, i)->Some_0,
    decreases t.len() - i,
{
    if i < t.len() && t[i].0.0@ == k0 && t[i].0.1@ == k1 {
        assert(t[i].1 == table_find(t, k0, k1, i)->Some_0);
    } else {
        lemma_table_find_member(t, k0, k1, i + 1);
    }
}

/// Looks a key up in an association table, returning the first match.
fn table_get<'a, V>(t: &'a Vec<((String, String), V)>, k: &(String, String)) -> (r: Option<&'a V>)
    ensures
        match r {
            Some(v) => table_find(t@, k.0@, k.1@, 0) == Some(*v),
            None => table_find(t@, k.0@, k.1@, 0) is None,
        },
{
    let mut i: usize = 0;
    while i < t.len()
        invariant
            0 <= i <= t@.len(),
            table_find(t@, k.0@, k.1@, 0) == table_find(t@, k.0@, k.1@, i as int),
        decreases t@.len() - i,
    {
        let e = &t[i];
        if e.0.0.eq(&k.0) && e.0.1.eq(&k.1) {
            return Some(&e.1);
        }
        i = i + 1;
    }
    None
}

/// The kanji entries of the first `i` kanji-table rows: one entry per
/// character, keyed at the reserved priority zero, rendered from the
/// first record of each character.
pub open spec fn kanji_part(t: Vec<(String, Vec<KanjiEntry>)>, i: int) -> Seq<EntryModel>
    decreases i,
{
    if i <= 0 || i > t@.len() {
        Seq::<EntryModel>::empty()
    } else {
        kanji_part(t, i - 1) + seq![
            EntryModel {
                keys: seq![(t@[i - 1].0@, 0u32)],
                definition: "<hr/>"@ + spec_kanji_entry_text(t@[i - 1].1@[0]),
            },
        ]
    }
}

/// The term-dictionary records filed under a key, or nothing.
pub open spec fn term_items(
    t: Vec<((String, String), Vec<TermEntry>)>,
    k0: Seq<char>,
    k1: Seq<char>,
) -> Seq<TermEntry> {
    match table_find(t@, k0, k1, 0) {
        Some(v) => v@,
        None => Seq::<TermEntry>::empty(),
    }
}

/// The pitch-accent list filed under a key, if any.
pub open spec fn pitch_view(
    t: Vec<((String, String), Vec<u32>)>,
    k0: Seq<char>,
    k1: Seq<char>,
) -> Option<Seq<u32>> {
    match table_find(t@, k0, k1, 0) {
        Some(v) => Some(v@),
        None => None,
    }
}

/// A grammar record yields an entry only when its key has a pitch-accent
/// entry or at least one term-dictionary definition.
pub open spec fn term_entry_included(
    tt: Vec<((String, String), Vec<TermEntry>)>,
    pa: Vec<((String, String), Vec<u32>)>,
    k0: Seq<char>,
    k1: Seq<char>,
) -> bool {
    pitch_view(pa, k0, k1) is Some || term_items(tt, k0, k1).len() > 0
}

/// The entries of the first `j` grammar records filed under one key.
pub open spec fn term_group(
    s: EntrySettings,
    tt: Vec<((String, String), Vec<TermEntry>)>,
    pa: Vec<((String, String), Vec<u32>)>,
    k0: Seq<char>,
    k1: Seq<char>,
    items: Seq<WordEntry>,
    j: int,
) -> Seq<EntryModel>
    decreases j,
{
    if j <= 0 || j > items.len() {
        Seq::<EntryModel>::empty()
    } else {
        term_group(s, tt, pa, k0, k1, items, j - 1) + (if term_entry_included(tt, pa, k0, k1) {
            seq![
                EntryModel {
                    keys: spec_lookup_keys(items[j - 1], s.generate_inflection_keys),
                    definition: "<hr/>"@ + spec_header_text(
                        s,
                        k1,
                        pitch_view(pa, k0, k1),
                        items[j - 1],
                    ) + spec_definition_text(term_items(tt, k0, k1)),
                },
            ]
        } else {
            Seq::<EntryModel>::empty()
        })
    }
}

/// The word entries of the first `i` grammar-table rows.
pub open spec fn term_part(
    s: EntrySettings,
    tt: Vec<((String, String), Vec<TermEntry>)>,
    pa: Vec<((String, String), Vec<u32>)>,
    jm: Vec<((String, String), Vec<WordEntry>)>,
    i: int,
) -> Seq<EntryModel>
    decreases i,
{
    if i <= 0 || i > jm@.len() {
        Seq::<EntryModel>::empty()
    } else {
        term_part(s, tt, pa, jm, i - 1) + term_group(
            s,
            tt,
            pa,
            jm@[i - 1].0.0@,
            jm@[i - 1].0.1@,
            jm@[i - 1].1@,
            jm@[i - 1].1@.len() as int,
        )
    }
}

/// The name entries of the first `j` records under one writing, keyed at
/// the lowest rank so names sort after words.
pub open spec fn name_group(
    s: EntrySettings,
    writing: Seq<char>,
    items: Seq<TermEntry>,
    j: int,
) -> Seq<EntryModel>
    decreases j,
{
    if j <= 0 || j > items.len() {
        Seq::<EntryModel>::empty()
    } else {
        name_group(s, writing, items, j - 1) + seq![
            EntryModel {
                keys: seq![(writing, u32::MAX)],
                definition: "<hr/>"@ + spec_name_entry_text(s, items[j - 1]),
            },
        ]
    }
}

/// The name entries of the first `i` name-table rows.
pub open spec fn name_part(
    s: EntrySettings,
    nt: Vec<((String, String), Vec<TermEntry>)>,
    i: int,
) -> Seq<EntryModel>
    decreases i,
{
    if i <= 0 || i > nt@.len() {
        Seq::<EntryModel>::empty()
    } else {
        name_part(s, nt, i - 1) + name_group(
            s,
            nt@[i - 1].0.0@,
            nt@[i - 1].1@,
            nt@[i - 1].1@.len() as int,
        )
    }
}

/// All entries before the final ordering: kanji, then words, then names.
pub open spec fn assembled_entries(
    s: EntrySettings,
    tt: Vec<((String, String), Vec<TermEntry>)>,
    nt: Vec<((String, String), Vec<TermEntry>)>,
    kt: Vec<(String, Vec<KanjiEntry>)>,
    jm: Vec<((String, String), Vec<WordEntry>)>,
    pa: Vec<((String, String), Vec<u32>)>,
) -> Seq<EntryModel> {
    kanji_part(kt, kt@.len() as int) + term_part(s, tt, pa, jm, jm@.len() as int) + name_part(
        s,
        nt,
        nt@.len() as int,
    )
}

/// The byte length of an entry's primary key.
pub open spec fn primary_len(em: EntryModel) -> nat {
    if em.keys.len() == 0 {
        0
    } else {
        byte_len(em.keys[0].0)
    }
}

/// The final entry order: primary-key byte length ascending, ties kept in
/// assembly order by the position decoration.
pub open spec fn entry_order() -> spec_fn((usize, EntryModel), (usize, EntryModel)) -> bool {
    |a: (usize, EntryModel), b: (usize, EntryModel)|
        primary_len(a.1) < primary_len(b.1) || (primary_len(a.1) == primary_len(b.1) && a.0 <= b.0)
}

/// The full entry list: the assembled entries stably sorted by the byte
/// length of each entry's primary key.
pub open spec fn spec_generate_entries(
    s: EntrySettings,
    tt: Vec<((String, String), Vec<TermEntry>)>,
    nt: Vec<((String, String), Vec<TermEntry>)>,
    kt: Vec<(String, Vec<KanjiEntry>)>,
    jm: Vec<((String, String), Vec<WordEntry>)>,
    pa: Vec<((String, String), Vec<u32>)>,
) -> Seq<EntryModel> {
    crate::sorting::insertion_sort_by(
        crate::sorting::decorate(assembled_entries(s, tt, nt, kt, jm, pa)),
        entry_order(),
    ).map_values(|p: (usize, EntryModel)| p.1)
}

proof fn lemma_entry_order_props()
    ensures
        vstd::relations::strongly_connected(entry_order()),
        vstd::relations::transitive(entry_order()),
        forall|a: (usize, EntryModel), b: (usize, EntryModel)|
            #[trigger] entry_order()(a, b) && #[trigger] entry_order()(b, a)
                ==> crate::sorting::pair_dec::<EntryModel>()(a) == crate::sorting::pair_dec::<
                EntryModel,
            >()(b),
{
}

/// Generates the full entry list from the source tables: kanji entries,
/// word entries for grammar records with at least one matching definition
/// source, and name entries, stably sorted by primary-key byte length.
#[verifier::rlimit(100)]
pub fn generate_entries(
    yomi_term_table: &Vec<((String, String), Vec<TermEntry>)>,
    yomi_name_table: &Vec<((String, String), Vec<TermEntry>)>,
    yomi_kanji_table: &Vec<(String, Vec<KanjiEntry>)>,
    jm_table: &Vec<((String, String), Vec<WordEntry>)>,
    pa_table: &Vec<((String, String), Vec<u32>)>,
    entry_settings: EntrySettings,
) -> (r: Vec<Entry>)
    requires
        forall|k: int|
            0 <= k < yomi_kanji_table@.len() ==> (#[trigger] yomi_kanji_table@[k]).1@.len() >= 1,
        forall|k: int, j: int|
            0 <= k < jm_table@.len() && 0 <= j < (#[trigger] jm_table@[k]).1@.len() ==> {
                &&& (#[trigger] jm_table@[k].1@[j]).priority <= u32::MAX - WORD_PRIORITY_OFFSET
                &&& jm_table@[k].1@[j].readings@.len() >= 1
            },
        forall|k: int, j: int|
            0 <= k < yomi_term_table@.len() && 0 <= j < (#[trigger] yomi_term_table@[k]).1@.len()
                ==> spec_depth((#[trigger] yomi_term_table@[k].1@[j]).definitions) <= usize::MAX,
        forall|k: int, j: int|
            0 <= k < yomi_name_table@.len() && 0 <= j < (#[trigger] yomi_name_table@[k]).1@.len()
                ==> spec_depth((#[trigger] yomi_name_table@[k].1@[j]).definitions) <= usize::MAX,
    ensures
        r.deep_view() == spec_generate_entries(
            entry_settings,
            *yomi_term_table,
            *yomi_name_table,
            *yomi_kanji_table,
            *jm_table,
            *pa_table,
        ),
{
    let mut entries: Vec<Entry> = Vec::new();

    // Kanji entries.
    let mut i: usize = 0;
    while i < yomi_kanji_table.len()
        invariant
            0 <= i <= yomi_kanji_table@.len(),
            forall|k: int|
                0 <= k < yomi_kanji_table@.len() ==> (#[trigger] yomi_kanji_table@[k]).1@.len()
                    >= 1,
            entries@.len() == i,
            entries.deep_view() == kanji_part(*yomi_kanji_table, i as int),
        decreases yomi_kanji_table@.len() - i,
    {
        let row = &yomi_kanji_table[i];
        let mut entry_text = String::new();
        entry_text.append("<hr/>");
        let body = generate_kanji_entry_text(&row.1[0]);
        entry_text.append(body.as_str());
        let mut keys: Vec<(String, u32)> = Vec::new();
        keys.push((row.0.clone(), 0u32));
        entries.push(Entry { keys, definition: entry_text });
        proof {
            assert(entries.deep_view() =~~= kanji_part(*yomi_kanji_table, i + 1));
        }
        i = i + 1;
    }

    // Word entries.
    let ghost kpart = entries.deep_view();
    let empty_terms: Vec<TermEntry> = Vec::new();
    let mut i: usize = 0;
    while i < jm_table.len()
        invariant
            0 <= i <= jm_table@.len(),
            empty_terms@.len() == 0,
            forall|k: int, j: int|
                0 <= k < jm_table@.len() && 0 <= j < (#[trigger] jm_table@[k]).1@.len() ==> {
                    &&& (#[trigger] jm_table@[k].1@[j]).priority <= u32::MAX
                        - WORD_PRIORITY_OFFSET
                    &&& jm_table@[k].1@[j].readings@.len() >= 1
                },
            forall|k: int, j: int|
                0 <= k < yomi_term_table@.len() && 0 <= j < (
                #[trigger] yomi_term_table@[k]).1@.len() ==> spec_depth(
                    (#[trigger] yomi_term_table@[k].1@[j]).definitions,
                ) <= usize::MAX,
            entries.deep_view() == kpart + term_part(
                entry_settings,
                *yomi_term_table,
                *pa_table,
                *jm_table,
                i as int,
            ),
        decreases jm_table@.len() - i,
    {
        let row = &jm_table[i];
        let ghost k0 = row.0.0@;
        let ghost k1 = row.0.1@;
        let pitch = table_get(pa_table, &row.0);
        let terms_opt = table_get(yomi_term_table, &row.0);
        let yomi_entries = match terms_opt {
            Some(v) => v,
            None => &empty_terms,
        };
        proof {
            assert(yomi_entries@ == term_items(*yomi_term_table, k0, k1));
        }
        let included = pitch.is_some() || yomi_entries.len() > 0;
        proof {
            assert(included == term_entry_included(*yomi_term_table, *pa_table, k0, k1));
        }
        let ghost gpre = entries.deep_view();
        let mut j: usize = 0;
        while j < row.1.len()
            invariant
                0 <= j <= row.1@.len(),
                row == jm_table@[i as int],
                0 <= i < jm_table@.len(),
                empty_terms@.len() == 0,
                k0 == row.0.0@,
                k1 == row.0.1@,
                forall|k: int, jx: int|
                    0 <= k < jm_table@.len() && 0 <= jx < (#[trigger] jm_table@[k]).1@.len()
                        ==> {
                        &&& (#[trigger] jm_table@[k].1@[jx]).priority <= u32::MAX
                            - WORD_PRIORITY_OFFSET
                        &&& jm_table@[k].1@[jx].readings@.len() >= 1
                    },
                forall|k: int, jx: int|
                    0 <= k < yomi_term_table@.len() && 0 <= jx < (
                    #[trigger] yomi_term_table@[k]).1@.len() ==> spec_depth(
                        (#[trigger] yomi_term_table@[k].1@[jx]).definitions,
                    ) <= usize::MAX,
                yomi_entries@ == term_items(*yomi_term_table, k0, k1),
                included == term_entry_included(*yomi_term_table, *pa_table, k0, k1),
                match pitch {
                    Some(v) => pitch_view(*pa_table, k0, k1) == Some(v@),
                    None => pitch_view(*pa_table, k0, k1) is None,
                },
                entries.deep_view() == gpre + term_group(
                    entry_settings,
                    *yomi_term_table,
                    *pa_table,
                    k0,
                    k1,
                    row.1@,
                    j as int,
                ),
            decreases row.1@.len() - j,
        {
            let jm_entry = &row.1[j];
            proof {
                if yomi_entries@.len() > 0 {
                    lemma_table_find_member(yomi_term_table@, k0, k1, 0);
                }
            }
            if included {
                let mut entry_text = String::new();
                entry_text.append("<hr/>");
                let header = generate_header_text(entry_settings, row.0.1.as_str(), pitch, jm_entry);
                entry_text.append(header.as_str());
                let body = generate_definition_text(yomi_entries);
                entry_text.append(body.as_str());
                let keys = generate_lookup_keys(jm_entry, entry_settings.generate_inflection_keys);
                let ghost dpre = entries.deep_view();
                let ghost vpre = entries@;
                let new_entry = Entry { keys, definition: entry_text };
                let ghost m0 = new_entry.deep_view();
                entries.push(new_entry);
                proof {
                    assert(dpre.len() == vpre.len());
                    assert(entries@ == vpre.push(entries@[vpre.len() as int]));
                    assert(entries.deep_view() =~~= dpre.push(m0));
                    let m = EntryModel {
                        keys: spec_lookup_keys(row.1@[j as int], entry_settings.generate_inflection_keys),
                        definition: "<hr/>"@ + spec_header_text(
                            entry_settings,
                            k1,
                            pitch_view(*pa_table, k0, k1),
                            row.1@[j as int],
                        ) + spec_definition_text(term_items(*yomi_term_table, k0, k1)),
                    };
                    assert(m0 =~~= m);
                    assert(term_group(
                        entry_settings,
                        *yomi_term_table,
                        *pa_table,
                        k0,
                        k1,
                        row.1@,
                        j + 1,
                    ) == term_group(
                        entry_settings,
                        *yomi_term_table,
                        *pa_table,
                        k0,
                        k1,
                        row.1@,
                        j as int,
                    ) + seq![m]);
                }
            }
            proof {
                assert(entries.deep_view() =~~= gpre + term_group(
                    entry_settings,
                    *yomi_term_table,
                    *pa_table,
                    k0,
                    k1,
                    row.1@,
                    j + 1,
                ));
            }
            j = j + 1;
        }
        proof {
            assert(entries.deep_view() =~= kpart + term_part(
                entry_settings,
                *yomi_term_table,
                *pa_table,
                *jm_table,
                i + 1,
            ));
        }
        i = i + 1;
    }

    // Name entries.
    let ghost wpart = entries.deep_view();
    let mut i: usize = 0;
    while i < yomi_name_table.len()
        invariant
            0 <= i <= yomi_name_table@.len(),
            forall|k: int, j: int|
                0 <= k < yomi_name_table@.len() && 0 <= j < (
                #[trigger] yomi_name_table@[k]).1@.len() ==> spec_depth(
                    (#[trigger] yomi_name_table@[k].1@[j]).definitions,
                ) <= usize::MAX,
            entries.deep_view() == wpart + name_part(entry_settings, *yomi_name_table, i as int),
        decreases yomi_name_table@.len() - i,
    {
        let row = &yomi_name_table[i];
        let ghost npre = entries.deep_view();
        let mut j: usize = 0;
        while j < row.1.len()
            invariant
                0 <= j <= row.1@.len(),
                row == yomi_name_table@[i as int],
                0 <= i < yomi_name_table@.len(),
                forall|k: int, jx: int|
                    0 <= k < yomi_name_table@.len() && 0 <= jx < (
                    #[trigger] yomi_name_table@[k]).1@.len() ==> spec_depth(
                        (#[trigger] yomi_name_table@[k].1@[jx]).definitions,
                    ) <= usize::MAX,
                entries.deep_view() == npre + name_group(
                    entry_settings,
                    row.0.0@,
                    row.1@,
                    j as int,
                ),
            decreases row.1@.len() - j,
        {
            let item = &row.1[j];
            let mut entry_text = String::new();
            entry_text.append("<hr/>");
            let body = generate_name_entry_text(entry_settings, item);
            entry_text.append(body.as_str());
            let mut keys: Vec<(String, u32)> = Vec::new();
            keys.push((row.0.0.clone(), u32::MAX));
            let ghost dpre = entries.deep_view();
            let ghost vpre = entries@;
            let new_entry = Entry { keys, definition: entry_text };
            let ghost m = new_entry.deep_view();
            entries.push(new_entry);
            proof {
                assert(dpre.len() == vpre.len());
                assert(entries@ == vpre.push(entries@[vpre.len() as int]));
                assert(entries.deep_view() =~~= dpre.push(m));
                assert(m =~~= EntryModel {
                    keys: seq![(row.0.0@, u32::MAX)],
                    definition: "<hr/>"@ + spec_name_entry_text(entry_settings, row.1@[j as int]),
                });
                assert(name_group(entry_settings, row.0.0@, row.1@, j + 1) == name_group(
                    entry_settings,
                    row.0.0@,
                    row.1@,
                    j as int,
                ) + seq![EntryModel {
                    keys: seq![(row.0.0@, u32::MAX)],
                    definition: "<hr/>"@ + spec_name_entry_text(entry_settings, row.1@[j as int]),
                }]);
                assert(entries.deep_view() =~~= npre + name_group(
                    entry_settings,
                    row.0.0@,
                    row.1@,
                    j + 1,
                ));
            }
            j = j + 1;
        }
        proof {
            assert(entries.deep_view() =~= wpart + name_part(
                entry_settings,
                *yomi_name_table,
                i + 1,
            ));
        }
        i = i + 1;
    }
    let ghost assembled = entries.deep_view();
    let n_assembled = entries.len();
    proof {
        assert(assembled.len() == entries@.len());
        assert(assembled.len() == n_assembled);
        assert(assembled == assembled_entries(
            entry_settings,
            *yomi_term_table,
            *yomi_name_table,
            *yomi_kanji_table,
            *jm_table,
            *pa_table,
        ));
    }

    // Decorate each entry with its assembly position, sort stably by
    // primary-key byte length, and drop the decoration.
    let mut tmp: Vec<(usize, Entry)> = Vec::new();
    loop
        invariant
            entries@.len() + tmp@.len() == assembled.len(),
            entries.deep_view() == assembled.take(entries@.len() as int),
            tmp.deep_view() == crate::sorting::decorate(assembled).skip(
                entries@.len() as int,
            ).reverse(),
        ensures
            entries@.len() == 0,
        decreases entries@.len(),
    {
        let ghost epre = entries.deep_view();
        let ghost ev = entries@;
        let ghost tpre = tmp.deep_view();
        match entries.pop() {
            None => {
                break ;
            },
            Some(e) => {
                let idx = entries.len();
                tmp.push((idx, e));
                proof {
                    assert(e == ev.last());
                    assert(epre.last() == ev.last().deep_view());
                    assert(e.deep_view() == epre[idx as int]);
                    assert(e.deep_view() == assembled[idx as int]);
                    assert(entries.deep_view() =~~= assembled.take(entries@.len() as int));
                    assert(tmp.deep_view() =~~= tpre.push((idx, assembled[idx as int])));
                    assert(tmp.deep_view() =~~= crate::sorting::decorate(assembled).skip(
                        entries@.len() as int,
                    ).reverse());
                }
            },
        }
    }
    proof {
        lemma_entry_order_props();
        assert(crate::sorting::decorate(assembled).skip(0) =~= crate::sorting::decorate(assembled));
        crate::sorting::decorate(assembled).lemma_reverse_to_multiset();
    }
    let kcmp = |a: &(usize, Entry), b: &(usize, Entry)| -> (res: bool)
        ensures
            res == entry_order()(a.deep_view(), b.deep_view()),
        {
            proof {
                assert(a.deep_view() == (a.0, a.1.deep_view()));
                assert(b.deep_view() == (b.0, b.1.deep_view()));
            }
            let al = if a.1.keys.len() == 0 {
                0
            } else {
                a.1.keys[0].0.as_str().as_bytes_vec().len()
            };
            let bl = if b.1.keys.len() == 0 {
                0
            } else {
                b.1.keys[0].0.as_str().as_bytes_vec().len()
            };
            proof {
                assert(al == primary_len(a.1.deep_view()));
                assert(bl == primary_len(b.1.deep_view()));
            }
            if al != bl {
                al < bl
            } else {
                a.0 <= b.0
            }
        };
    crate::sorting::sort_by_leq(&mut tmp, &kcmp, Ghost(entry_order()));
    proof {
        let d = crate::sorting::decorate(assembled);
        let spec_sorted = crate::sorting::insertion_sort_by(d, entry_order());
        crate::sorting::lemma_insertion_sort_by_ensures(d, entry_order());
        crate::sorting::lemma_perm_of_decorate_distinct(spec_sorted, assembled);
        crate::sorting::lemma_sorted_unique_decorated(
            spec_sorted,
            tmp.deep_view(),
            entry_order(),
            crate::sorting::pair_dec::<EntryModel>(),
        );
        assert(tmp.deep_view() =~= spec_sorted);
    }

    // Strip the decorations back off.
    let ghost sorted_dv = tmp.deep_view();
    let mut rev: Vec<(usize, Entry)> = Vec::new();
    loop
        invariant
            rev.deep_view() == sorted_dv.skip(tmp@.len() as int).reverse(),
            tmp.deep_view() == sorted_dv.take(tmp@.len() as int),
            tmp@.len() <= sorted_dv.len(),
        ensures
            tmp@.len() == 0,
        decreases tmp@.len(),
    {
        let ghost rpre = rev.deep_view();
        let ghost tv = tmp@;
        let ghost tdpre = tmp.deep_view();
        match tmp.pop() {
            None => {
                break ;
            },
            Some(p) => {
                rev.push(p);
                proof {
                    assert(p == tv.last());
                    assert(tdpre.last() == tv.last().deep_view());
                    assert(p.deep_view() == tdpre[tmp@.len() as int]);
                    assert(tmp.deep_view() =~~= sorted_dv.take(tmp@.len() as int));
                    assert(p.deep_view() == sorted_dv[tmp@.len() as int]);
                    assert(rev.deep_view() =~~= rpre.push(sorted_dv[tmp@.len() as int]));
                    assert(rev.deep_view() =~~= sorted_dv.skip(tmp@.len() as int).reverse());
                }
            },
        }
    }
    let mut out: Vec<Entry> = Vec::new();
    proof {
        assert(sorted_dv.skip(0) =~= sorted_dv);
        assert(rev.deep_view() == sorted_dv.reverse());
    }
    loop
        invariant
            rev.deep_view() == sorted_dv.skip(out@.len() as int).reverse(),
            out.deep_view() == sorted_dv.take(out@.len() as int).map_values(
                |p: (usize, EntryModel)| p.1,
            ),
            out@.len() <= sorted_dv.len(),
        ensures
            rev@.len() == 0,
        decreases rev@.len(),
    {
        let ghost opre = out.deep_view();
        match rev.pop() {
            None => {
                break ;
            },
            Some(p) => {
                let ghost n = out@.len() as int;
                proof {
                    assert(rev.deep_view() =~~= sorted_dv.skip(n).reverse().drop_last());
                    assert(sorted_dv.skip(n).reverse().last() == sorted_dv[n]);
                    assert(p.deep_view() == sorted_dv[n]);
                    assert(sorted_dv.skip(n).reverse().drop_last() =~= sorted_dv.skip(
                        n + 1,
                    ).reverse());
                }
                out.push(p.1);
                proof {
                    assert(out.deep_view() =~~= opre.push(sorted_dv[n].1));
                    assert(out.deep_view() =~~= sorted_dv.take(n + 1).map_values(
                        |q: (usize, EntryModel)| q.1,
                    ));
                }
            },
        }
    }
    proof {
        assert(rev.deep_view().len() == 0);
        assert(out@.len() == sorted_dv.len());
        assert(sorted_dv.take(sorted_dv.len() as int) =~= sorted_dv);
        assert(out.deep_view() =~= spec_generate_entries(
            entry_settings,
            *yomi_term_table,
            *yomi_name_table,
            *yomi_kanji_table,
            *jm_table,
            *pa_table,
        ));
    }
    out
}

proof fn lemma_kanji_part_priorities(kt: Vec<(String, Vec<KanjiEntry>)>, i: int)
    ensures
        forall|p: int|
            0 <= p < kanji_part(kt, i).len() ==> (#[trigger] kanji_part(kt, i)[p]).keys.len() == 1
                && kanji_part(kt, i)[p].keys[0].1 == 0,
    decreases i,
{
    if i <= 0 || i > kt@.len() {
    } else {
        lemma_kanji_part_priorities(kt, i - 1);
        let cur = kanji_part(kt, i);
        let prev = kanji_part(kt, i - 1);
        assert forall|p: int| 0 <= p < cur.len() implies (#[trigger] cur[p]).keys.len() == 1
            && cur[p].keys[0].1 == 0 by {
            if p < prev.len() {
                assert(cur[p] == prev[p]);
            } else {
                assert(p == prev.len());
            }
        }
    }
}

proof fn lemma_term_group_priorities(
    s: EntrySettings,
    tt: Vec<((String, String), Vec<TermEntry>)>,
    pa: Vec<((String, String), Vec<u32>)>,
    k0: Seq<char>,
    k1: Seq<char>,
    items: Seq<WordEntry>,
    j: int,
)
    requires
        forall|jx: int|
            0 <= jx < items.len() ==> (#[trigger] items[jx]).priority <= u32::MAX
                - WORD_PRIORITY_OFFSET,
    ensures
        forall|p: int, q: int|
            #![trigger term_group(s, tt, pa, k0, k1, items, j)[p].keys[q]]
            0 <= p < term_group(s, tt, pa, k0, k1, items, j).len() && 0 <= q < term_group(
                s,
                tt,
                pa,
                k0,
                k1,
                items,
                j,
            )[p].keys.len() ==> term_group(s, tt, pa, k0, k1, items, j)[p].keys[q].1 >= 1,
    decreases j,
{
    if j <= 0 || j > items.len() {
    } else {
        lemma_term_group_priorities(s, tt, pa, k0, k1, items, j - 1);
        let cur = term_group(s, tt, pa, k0, k1, items, j);
        let prev = term_group(s, tt, pa, k0, k1, items, j - 1);
        if term_entry_included(tt, pa, k0, k1) {
            lemma_word_keys_never_priority_zero(items[j - 1], s.generate_inflection_keys);
        }
        assert forall|p: int, q: int|
            #![trigger cur[p].keys[q]]
            0 <= p < cur.len() && 0 <= q < cur[p].keys.len() implies cur[p].keys[q].1 >= 1 by {
            if p < prev.len() {
                assert(cur[p] == prev[p]);
                assert(prev[p].keys[q].1 >= 1);
            } else {
                assert(p == prev.len() && term_entry_included(tt, pa, k0, k1));
                assert(all_priorities_positive(cur[p].keys));
                assert(cur[p].keys[q].1 >= 1);
            }
        }
    }
}

proof fn lemma_term_part_priorities(
    s: EntrySettings,
    tt: Vec<((String, String), Vec<TermEntry>)>,
    pa: Vec<((String, String), Vec<u32>)>,
    jm: Vec<((String, String), Vec<WordEntry>)>,
    i: int,
)
    requires
        forall|k: int, jx: int|
            0 <= k < jm@.len() && 0 <= jx < (#[trigger] jm@[k]).1@.len() ==> (
            #[trigger] jm@[k].1@[jx]).priority <= u32::MAX - WORD_PRIORITY_OFFSET,
    ensures
        forall|p: int, q: int|
            #![trigger term_part(s, tt, pa, jm, i)[p].keys[q]]
            0 <= p < term_part(s, tt, pa, jm, i).len() && 0 <= q < term_part(
                s,
                tt,
                pa,
                jm,
                i,
            )[p].keys.len() ==> term_part(s, tt, pa, jm, i)[p].keys[q].1 >= 1,
    decreases i,
{
    if i <= 0 || i > jm@.len() {
    } else {
        lemma_term_part_priorities(s, tt, pa, jm, i - 1);
        let g = term_group(
            s,
            tt,
            pa,
            jm@[i - 1].0.0@,
            jm@[i - 1].0.1@,
            jm@[i - 1].1@,
            jm@[i - 1].1@.len() as int,
        );
        lemma_term_group_priorities(
            s,
            tt,
            pa,
            jm@[i - 1].0.0@,
            jm@[i - 1].0.1@,
            jm@[i - 1].1@,
            jm@[i - 1].1@.len() as int,
        );
        let cur = term_part(s, tt, pa, jm, i);
        let prev = term_part(s, tt, pa, jm, i - 1);
        assert forall|p: int, q: int|
            #![trigger cur[p].keys[q]]
            0 <= p < cur.len() && 0 <= q < cur[p].keys.len() implies cur[p].keys[q].1 >= 1 by {
            if p < prev.len() {
                assert(cur[p] == prev[p]);
                assert(prev[p].keys[q].1 >= 1);
            } else {
                assert(cur[p] == g[p - prev.len()]);
                assert(g[p - prev.len()].keys[q].1 >= 1);
            }
        }
    }
}

proof fn lemma_name_part_priorities(
    s: EntrySettings,
    nt: Vec<((String, String), Vec<TermEntry>)>,
    i: int,
)
    ensures
        forall|p: int, q: int|
            #![trigger name_part(s, nt, i)[p].keys[q]]
            0 <= p < name_part(s, nt, i).len() && 0 <= q < name_part(s, nt, i)[p].keys.len()
                ==> name_part(s, nt, i)[p].keys[q].1 == u32::MAX,
    decreases i,
{
    if i <= 0 || i > nt@.len() {
    } else {
        lemma_name_part_priorities(s, nt, i - 1);
        let g = name_group(s, nt@[i - 1].0.0@, nt@[i - 1].1@, nt@[i - 1].1@.len() as int);
        lemma_name_group_priorities(s, nt@[i - 1].0.0@, nt@[i - 1].1@, nt@[i - 1].1@.len() as int);
        let cur = name_part(s, nt, i);
        let prev = name_part(s, nt, i - 1);
        assert forall|p: int, q: int|
            #![trigger cur[p].keys[q]]
            0 <= p < cur.len() && 0 <= q < cur[p].keys.len() implies cur[p].keys[q].1 == u32::MAX by {
            if p < prev.len() {
                assert(cur[p] == prev[p]);
                assert(prev[p].keys[q].1 == u32::MAX);
            } else {
                assert(cur[p] == g[p - prev.len()]);
                assert(g[p - prev.len()].keys[q].1 == u32::MAX);
            }
        }
    }
}

proof fn lemma_name_group_priorities(
    s: EntrySettings,
    writing: Seq<char>,
    items: Seq<TermEntry>,
    j: int,
)
    ensures
        forall|p: int, q: int|
            #![trigger name_group(s, writing, items, j)[p].keys[q]]
            0 <= p < name_group(s, writing, items, j).len() && 0 <= q < name_group(
                s,
                writing,
                items,
                j,
            )[p].keys.len() ==> name_group(s, writing, items, j)[p].keys[q].1 == u32::MAX,
    decreases j,
{
    if j <= 0 || j > items.len() {
    } else {
        lemma_name_group_priorities(s, writing, items, j - 1);
        let cur = name_group(s, writing, items, j);
        let prev = name_group(s, writing, items, j - 1);
        assert forall|p: int, q: int|
            #![trigger cur[p].keys[q]]
            0 <= p < cur.len() && 0 <= q < cur[p].keys.len() implies cur[p].keys[q].1 == u32::MAX by {
            if p < prev.len() {
                assert(cur[p] == prev[p]);
                assert(prev[p].keys[q].1 == u32::MAX);
            } else {
                assert(p == prev.len());
            }
        }
    }
}

/// Priority zero is reserved for kanji-character entries: any key of the
/// final entry list carrying priority zero is the sole key of its entry,
/// and word and name entries never emit it.
pub proof fn lemma_priority_zero_reserved(
    s: EntrySettings,
    tt: Vec<((String, String), Vec<TermEntry>)>,
    nt: Vec<((String, String), Vec<TermEntry>)>,
    kt: Vec<(String, Vec<KanjiEntry>)>,
    jm: Vec<((String, String), Vec<WordEntry>)>,
    pa: Vec<((String, String), Vec<u32>)>,
)
    requires
        forall|k: int, jx: int|
            0 <= k < jm@.len() && 0 <= jx < (#[trigger] jm@[k]).1@.len() ==> (
            #[trigger] jm@[k].1@[jx]).priority <= u32::MAX - WORD_PRIORITY_OFFSET,
        assembled_entries(s, tt, nt, kt, jm, pa).len() <= usize::MAX,
    ensures
        forall|i: int, j: int|
            #![trigger spec_generate_entries(s, tt, nt, kt, jm, pa)[i].keys[j]]
            0 <= i < spec_generate_entries(s, tt, nt, kt, jm, pa).len() && 0 <= j
                < spec_generate_entries(s, tt, nt, kt, jm, pa)[i].keys.len()
                && spec_generate_entries(s, tt, nt, kt, jm, pa)[i].keys[j].1 == 0
                ==> spec_generate_entries(s, tt, nt, kt, jm, pa)[i].keys.len() == 1,
{
    broadcast use vstd::seq_lib::group_to_multiset_ensures;

    let assembled = assembled_entries(s, tt, nt, kt, jm, pa);
    let klen = kanji_part(kt, kt@.len() as int).len();
    let tlen = term_part(s, tt, pa, jm, jm@.len() as int).len();
    let d = crate::sorting::decorate(assembled);
    let sorted = crate::sorting::insertion_sort_by(d, entry_order());
    let out = spec_generate_entries(s, tt, nt, kt, jm, pa);
    lemma_entry_order_props();
    crate::sorting::lemma_insertion_sort_by_ensures(d, entry_order());
    lemma_kanji_part_priorities(kt, kt@.len() as int);
    lemma_term_part_priorities(s, tt, pa, jm, jm@.len() as int);
    lemma_name_part_priorities(s, nt, nt@.len() as int);
    assert forall|i: int, j: int|
        #![trigger out[i].keys[j]]
        0 <= i < out.len() && 0 <= j < out[i].keys.len() && out[i].keys[j].1
            == 0 implies out[i].keys.len() == 1 by {
        assert(out[i] == sorted[i].1);
        assert(sorted.contains(sorted[i]));
        assert(d.to_multiset().count(sorted[i]) > 0);
        assert(d.contains(sorted[i]));
        let p = choose|p: int| 0 <= p < d.len() && d[p] == sorted[i];
        assert(d[p].1 == assembled[p]);
        assert(out[i] == assembled[p]);
        if p < klen {
            assert(assembled[p] == kanji_part(kt, kt@.len() as int)[p]);
        } else if p < klen + tlen {
            assert(assembled[p] == term_part(s, tt, pa, jm, jm@.len() as int)[p - klen]);
            assert(assembled[p].keys[j].1 >= 1);
        } else {
            assert(assembled[p] == name_part(s, nt, nt@.len() as int)[p - klen - tlen]);
            assert(assembled[p].keys[j].1 == u32::MAX);
        }
    }
}

} // verus!
