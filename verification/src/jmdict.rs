//! The normalized word-record model of the grammar lexicon: conjugation
//! classes, parts of speech, and the per-record fields that key synthesis
//! works from.

use vstd::prelude::*;

use crate::text::{all_digits, dec_value, parse_u32_digits};

verus! {

/// Base priority given to a record before any priority tag is seen: the
/// "very low priority" sentinel for words whose commonness is unknown.
pub const DEFAULT_PRIORITY: u32 = 100000;

/// Indicates the conjugation rules that a word follows.
///
/// The `Other` variant indicates a word that either doesn't conjugate (such
/// as nouns, na-adjectives, etc.), or a word whose conjugation rules are
/// unclear due to being e.g. archaic.
#[derive(Debug, Copy, Clone, Eq, PartialEq, Structural)]
pub enum ConjugationClass {
    // Default.  Assumed not to conjugate.
    Other,
    // The copula and words that end with it.
    Copula,
    // Regular verbs.
    IchidanVerb,
    GodanVerbU,
    GodanVerbTsu,
    GodanVerbRu,
    GodanVerbKu,
    GodanVerbGu,
    GodanVerbNu,
    GodanVerbHu,  // Doesn't exist in modern Japanese, but does in classical Japanese.
    GodanVerbBu,
    GodanVerbMu,
    GodanVerbSu,
    // Irregular verbs.
    SuruVerb,
    SuruVerbSC,
    KuruVerb,
    IkuVerb,
    KureruVerb,
    AruVerb,
    SharuVerb,
    IrregularVerb,
    // Adjectives.
    IAdjective,
    IrregularIAdjective,
}

/// Indicates a word's grammatical role, as a broad surface-level
/// categorization.
#[derive(Debug, Copy, Clone, PartialEq, Eq, Structural)]
pub enum PartOfSpeech {
    Unknown,
    Copula,
    Noun,
    Particle,
    Conjunction,
    Verb,
    Adverb,
    Adjective,
    Expression,
}

/// Precedence of a part of speech when two tags apply to one record; the
/// higher-ranked classification wins.
pub open spec fn pos_rank(p: PartOfSpeech) -> int {
    match p {
        PartOfSpeech::Copula => 9,
        PartOfSpeech::Particle => 8,
        PartOfSpeech::Conjunction => 7,
        PartOfSpeech::Verb => 6,
        PartOfSpeech::Adjective => 5,
        PartOfSpeech::Adverb => 4,
        PartOfSpeech::Noun => 3,
        PartOfSpeech::Expression => 2,
        PartOfSpeech::Unknown => 0,
    }
}

/// Precedence of a conjugation class when two tags apply to one record.
pub open spec fn conj_rank(c: ConjugationClass) -> int {
    match c {
        ConjugationClass::Copula => 8,
        ConjugationClass::SuruVerbSC => 7,
        ConjugationClass::SuruVerb
        | ConjugationClass::KuruVerb
        | ConjugationClass::IkuVerb
        | ConjugationClass::KureruVerb
        | ConjugationClass::AruVerb
        | ConjugationClass::SharuVerb => 6,
        ConjugationClass::IrregularVerb => 5,
        ConjugationClass::GodanVerbU
        | ConjugationClass::GodanVerbTsu
        | ConjugationClass::GodanVerbRu
        | ConjugationClass::GodanVerbKu
        | ConjugationClass::GodanVerbGu
        | ConjugationClass::GodanVerbNu
        | ConjugationClass::GodanVerbHu
        | ConjugationClass::GodanVerbBu
        | ConjugationClass::GodanVerbMu
        | ConjugationClass::GodanVerbSu => 4,
        ConjugationClass::IchidanVerb => 3,
        ConjugationClass::IrregularIAdjective => 2,
        ConjugationClass::IAdjective => 1,
        ConjugationClass::Other => 0,
    }
}

impl PartOfSpeech {
    /// Combines two part-of-speech classifications, keeping the one with
    /// the higher precedence (the left one when they tie, which the
    /// precondition restricts to equal values).
    pub fn bitor(self, rhs: Self) -> (r: Self)
        requires
            pos_rank(self) != pos_rank(rhs) || self == rhs,
        ensures
            r == (if pos_rank(self) >= pos_rank(rhs) {
                self
            } else {
                rhs
            }),
    {
        let self_p = self.rank();
        let rhs_p = rhs.rank();
        if self_p >= rhs_p {
            self
        } else {
            rhs
        }
    }

    /// Combines a part-of-speech classification into this one in place.
    pub fn bitor_assign(&mut self, rhs: Self)
        requires
            pos_rank(*old(self)) != pos_rank(rhs) || *old(self) == rhs,
        ensures
            *final(self) == (if pos_rank(*old(self)) >= pos_rank(rhs) {
                *old(self)
            } else {
                rhs
            }),
    {
        *self = (*self).bitor(rhs);
    }

    /// The precedence rank used when combining classifications.
    pub fn rank(self) -> (r: u32)
        ensures
            r == pos_rank(self),
    {
        match self {
            PartOfSpeech::Copula => 9,
            PartOfSpeech::Particle => 8,
            PartOfSpeech::Conjunction => 7,
            PartOfSpeech::Verb => 6,
            PartOfSpeech::Adjective => 5,
            PartOfSpeech::Adverb => 4,
            PartOfSpeech::Noun => 3,
            PartOfSpeech::Expression => 2,
            PartOfSpeech::Unknown => 0,
        }
    }
}

impl ConjugationClass {
    /// Combines two conjugation classifications, keeping the one with the
    /// higher precedence (the right one when they tie, which the
    /// precondition restricts to equal values).
    pub fn bitor(self, rhs: Self) -> (r: Self)
        requires
            conj_rank(self) != conj_rank(rhs) || self == rhs,
        ensures
            r == (if conj_rank(self) > conj_rank(rhs) {
                self
            } else {
                rhs
            }),
    {
        let self_p = self.rank();
        let rhs_p = rhs.rank();
        if self_p > rhs_p {
            self
        } else {
            rhs
        }
    }

    /// Combines a conjugation classification into this one in place.
    pub fn bitor_assign(&mut self, rhs: Self)
        requires
            conj_rank(*old(self)) != conj_rank(rhs) || *old(self) == rhs,
        ensures
            *final(self) == (if conj_rank(*old(self)) > conj_rank(rhs) {
                *old(self)
            } else {
                rhs
            }),
    {
        *self = (*self).bitor(rhs);
    }

    /// The precedence rank used when combining classifications.
    pub fn rank(self) -> (r: u32)
        ensures
            r == conj_rank(self),
    {
        match self {
            ConjugationClass::Copula => 8,
            ConjugationClass::SuruVerbSC => 7,
            ConjugationClass::SuruVerb
            | ConjugationClass::KuruVerb
            | ConjugationClass::IkuVerb
            | ConjugationClass::KureruVerb
            | ConjugationClass::AruVerb
            | ConjugationClass::SharuVerb => 6,
            ConjugationClass::IrregularVerb => 5,
            ConjugationClass::GodanVerbU
            | ConjugationClass::GodanVerbTsu
            | ConjugationClass::GodanVerbRu
            | ConjugationClass::GodanVerbKu
            | ConjugationClass::GodanVerbGu
            | ConjugationClass::GodanVerbNu
            | ConjugationClass::GodanVerbHu
            | ConjugationClass::GodanVerbBu
            | ConjugationClass::GodanVerbMu
            | ConjugationClass::GodanVerbSu => 4,
            ConjugationClass::IchidanVerb => 3,
            ConjugationClass::IrregularIAdjective => 2,
            ConjugationClass::IAdjective => 1,
            ConjugationClass::Other => 0,
        }
    }
}

/// One normalized record of the grammar lexicon.
#[derive(Debug, Clone)]
pub struct WordEntry {
    /// Kanji-based writings of the word.
    pub writings: Vec<String>,
    /// Furigana and kana-based writings of the word.
    pub readings: Vec<String>,
    /// English definition strings.
    pub definitions: Vec<String>,
    pub conj: ConjugationClass,
    pub pos: PartOfSpeech,
    /// When true, indicates that the word is usually written in kana alone.
    pub usually_kana: bool,
    /// A very rough priority ranking indicating the commonness of the word;
    /// a lower numerical value indicates a more common word.
    pub priority: u32,
    /// Set of tags found, in the format "parent_element:entity", kept as a
    /// vector of strings.
    pub tags: Vec<String>,
}

impl WordEntry {
    /// A fresh record with no writings, readings or tags, no conjugation,
    /// and the lowest-commonness sentinel priority.
    pub fn new() -> (r: WordEntry)
        ensures
            r.writings@.len() == 0,
            r.readings@.len() == 0,
            r.definitions@.len() == 0,
            r.conj == ConjugationClass::Other,
            r.pos == PartOfSpeech::Unknown,
            !r.usually_kana,
            r.priority == DEFAULT_PRIORITY,
            r.tags@.len() == 0,
    {
        WordEntry {
            writings: Vec::new(),
            readings: Vec::new(),
            definitions: Vec::new(),
            conj: ConjugationClass::Other,
            pos: PartOfSpeech::Unknown,
            usually_kana: false,
            priority: DEFAULT_PRIORITY,
            tags: Vec::new(),
        }
    }
}

/// The priority value that one corpus-frequency tag denotes: an "nf"
/// frequency-bucket tag maps to 500 per bucket above the first, the three
/// top-tier corpus tags map to 6000, their second tiers to 18000, and
/// anything else to 24000.
pub open spec fn spec_tag_priority(tag: Seq<char>) -> nat {
    if tag.len() >= 2 && tag[0] == 'n' && tag[1] == 'f' {
        let digits = tag.skip(2);
        if all_digits(digits) && dec_value(digits) <= u32::MAX {
            if dec_value(digits) >= 1 {
                ((dec_value(digits) - 1) * 500) as nat
            } else {
                0
            }
        } else {
            24000
        }
    } else if tag == "news1"@ || tag == "ichi1"@ || tag == "gai1"@ {
        6000
    } else if tag == "news2"@ || tag == "ichi2"@ || tag == "gai2"@ {
        18000
    } else {
        24000
    }
}

/// Computes the priority value of one corpus-frequency tag.  The
/// lexicon's "nf" buckets run well below one hundred, so the bucket
/// arithmetic never overflows for any tag whose value this accepts; a
/// malformed or oversized "nf" tag gets the catch-all value.
pub fn tag_priority(tag: &str) -> (r: u32)
    requires
        spec_tag_priority(tag@) <= u32::MAX,
    ensures
        r == spec_tag_priority(tag@),
{
    let cs = crate::text::chars_of(tag);
    if cs.len() >= 2 && cs[0] == 'n' && cs[1] == 'f' {
        let mut digits: Vec<char> = Vec::new();
        let mut i: usize = 2;
        while i < cs.len()
            invariant
                2 <= i <= cs@.len(),
                cs@.len() >= 2,
                digits@ == cs@.skip(2).take(i - 2),
            decreases cs@.len() - i,
        {
            digits.push(cs[i]);
            proof {
                assert(digits@ =~= cs@.skip(2).take(i - 1));
            }
            i = i + 1;
        }
        proof {
            assert(cs@.skip(2).take(cs@.len() - 2) =~= cs@.skip(2));
        }
        match parse_u32_digits(&digits) {
            Some(n) => {
                if n >= 1 {
                    proof {
                        assert((dec_value(cs@.skip(2)) - 1) * 500 <= u32::MAX);
                    }
                    (n - 1) * 500
                } else {
                    0
                }
            },
            None => 24000,
        }
    } else {
        let one = tag_eq_any(tag, "news1", "ichi1", "gai1");
        if one {
            6000
        } else {
            let two = tag_eq_any(tag, "news2", "ichi2", "gai2");
            if two {
                18000
            } else {
                24000
            }
        }
    }
}

/// Whether the string equals one of three candidate literals, by view.
fn tag_eq_any(tag: &str, a: &str, b: &str, c: &str) -> (r: bool)
    ensures
        r == (tag@ == a@ || tag@ == b@ || tag@ == c@),
{
    let t = tag.to_owned();
    let sa = a.to_owned();
    let sb = b.to_owned();
    let sc = c.to_owned();
    t.eq(&sa) || t.eq(&sb) || t.eq(&sc)
}

} // verus!
