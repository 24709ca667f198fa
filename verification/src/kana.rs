//! Classification of characters as hiragana / katakana and conversion
//! between the two scripts.
//!
//! All operations work on fixed Unicode codepoint ranges; characters outside
//! the ranges pass through conversions unchanged and are treated as non-kana
//! by the classifiers.

use vstd::prelude::*;

use crate::text::{char_from_u32, chars_of, string_from_chars};

verus! {

broadcast use vstd::utf8::char_is_scalar, vstd::utf8::char_u32_cast;

/// Numerical difference between a hiragana letter and the corresponding
/// katakana letter in Unicode scalar values; hiragana is lower.
pub const KANA_DIFF: u32 = 0x60;

/// A character in one of the kana ranges: hiragana letters, the combining
/// and iterating marks, katakana letters, and the prolonged sound mark.
pub open spec fn is_kana_char(c: char) -> bool {
    let u = c as u32;
    (0x3041 <= u && u <= 0x3096)  // hiragana
    || (0x3099 <= u && u <= 0x309c)  // combining marks
    || (0x309d <= u && u <= 0x309e)  // hiragana iterating marks
    || (0x30a1 <= u && u <= 0x30f6)  // katakana
    || u == 0x30fc  // prolonged sound mark
    || (0x30fd <= u && u <= 0x30fe)  // katakana iterating marks
}

/// A character counted as hiragana: hiragana letters and marks, plus the
/// script-neutral prolonged sound mark.
pub open spec fn is_hiragana_char(c: char) -> bool {
    let u = c as u32;
    (0x3041 <= u && u <= 0x3096)  // hiragana
    || (0x3099 <= u && u <= 0x309c)  // combining marks
    || (0x309d <= u && u <= 0x309e)  // hiragana iterating marks
    || u == 0x30fc  // prolonged sound mark
    || (0x30fd <= u && u <= 0x30fe)  // katakana iterating marks
}

/// Hiragana-to-katakana conversion of a single character; characters outside
/// the convertible hiragana ranges are left unchanged.
pub open spec fn hira_to_kata_char(c: char) -> char {
    let u = c as u32;
    if (0x3041 <= u && u <= 0x3096) || (0x309d <= u && u <= 0x309e) {
        (u + KANA_DIFF) as char
    } else {
        c
    }
}

/// Katakana-to-hiragana conversion of a single character; characters outside
/// the convertible katakana ranges are left unchanged.
pub open spec fn kata_to_hira_char(c: char) -> char {
    let u = c as u32;
    if (0x30a1 <= u && u <= 0x30f6) || (0x30fd <= u && u <= 0x30fe) {
        (u - KANA_DIFF) as char
    } else {
        c
    }
}

/// Hiragana-to-katakana conversion of a character sequence, pointwise.
pub open spec fn hira_to_kata(s: Seq<char>) -> Seq<char> {
    s.map_values(|c: char| hira_to_kata_char(c))
}

/// Katakana-to-hiragana conversion of a character sequence, pointwise.
pub open spec fn kata_to_hira(s: Seq<char>) -> Seq<char> {
    s.map_values(|c: char| kata_to_hira_char(c))
}

/// Every character of the sequence is kana.
pub open spec fn all_kana(s: Seq<char>) -> bool {
    forall|i: int| 0 <= i < s.len() ==> is_kana_char(#[trigger] s[i])
}

/// Every character of the sequence is hiragana.
pub open spec fn all_hiragana(s: Seq<char>) -> bool {
    forall|i: int| 0 <= i < s.len() ==> is_hiragana_char(#[trigger] s[i])
}

/// The kana characters of the sequence, in order.
pub open spec fn kana_only(s: Seq<char>) -> Seq<char> {
    s.filter(|c: char| is_kana_char(c))
}

/// A hiragana character on which katakana conversion round-trips: the
/// katakana iterating marks are counted as hiragana by the classifier but
/// are themselves the image of the hiragana iterating marks, so they are
/// excluded here.
pub open spec fn in_conversion_range(c: char) -> bool {
    is_hiragana_char(c) && !(0x30fd <= c as u32 && c as u32 <= 0x30fe)
}

/// Converting one hiragana character in the conversion range to katakana
/// and back yields the original character.
pub proof fn lemma_kata_hira_char_round_trip(c: char)
    requires
        in_conversion_range(c),
    ensures
        kata_to_hira_char(hira_to_kata_char(c)) == c,
{
    let u = c as u32;
    if (0x3041 <= u && u <= 0x3096) || (0x309d <= u && u <= 0x309e) {
        let k = hira_to_kata_char(c);
        assert(k as u32 == u + KANA_DIFF);
        assert(kata_to_hira_char(k) == (k as u32 - KANA_DIFF) as char);
        vstd::utf8::char_u32_cast(c, u);
    }
}

/// Hiragana-to-katakana conversion keeps a kana character kana.
pub proof fn lemma_h2k_char_kana(c: char)
    requires
        is_kana_char(c),
    ensures
        is_kana_char(hira_to_kata_char(c)),
{
    let u = c as u32;
    if (0x3041 <= u && u <= 0x3096) || (0x309d <= u && u <= 0x309e) {
        assert(hira_to_kata_char(c) as u32 == u + KANA_DIFF);
    }
}

/// Hiragana-to-katakana conversion of a single character is idempotent.
pub proof fn lemma_h2k_char_idempotent(c: char)
    ensures
        hira_to_kata_char(hira_to_kata_char(c)) == hira_to_kata_char(c),
{
    let u = c as u32;
    if (0x3041 <= u && u <= 0x3096) || (0x309d <= u && u <= 0x309e) {
        assert(hira_to_kata_char(c) as u32 == u + KANA_DIFF);
    }
}

/// Round trip: converting an all-hiragana string whose characters lie in
/// the conversion range to katakana and back yields the original string.
pub proof fn lemma_kata_hira_round_trip(s: Seq<char>)
    requires
        forall|i: int| 0 <= i < s.len() ==> in_conversion_range(#[trigger] s[i]),
    ensures
        kata_to_hira(hira_to_kata(s)) == s,
{
    assert forall|i: int| 0 <= i < s.len() implies kata_to_hira_char(
        hira_to_kata_char(#[trigger] s[i]),
    ) == s[i] by {
        lemma_kata_hira_char_round_trip(s[i]);
    }
    assert(kata_to_hira(hira_to_kata(s)) =~= s);
}

/// Hiragana-to-katakana conversion keeps an all-kana string all-kana.
pub proof fn lemma_h2k_all_kana(s: Seq<char>)
    requires
        all_kana(s),
    ensures
        all_kana(hira_to_kata(s)),
{
    assert forall|i: int| 0 <= i < hira_to_kata(s).len() implies is_kana_char(
        #[trigger] hira_to_kata(s)[i],
    ) by {
        lemma_h2k_char_kana(s[i]);
    }
}

/// Hiragana-to-katakana conversion of a string is idempotent.
pub proof fn lemma_h2k_idempotent(s: Seq<char>)
    ensures
        hira_to_kata(hira_to_kata(s)) == hira_to_kata(s),
{
    assert forall|i: int| 0 <= i < s.len() implies hira_to_kata_char(
        hira_to_kata_char(#[trigger] s[i]),
    ) == hira_to_kata_char(s[i]) by {
        lemma_h2k_char_idempotent(s[i]);
    }
    assert(hira_to_kata(hira_to_kata(s)) =~= hira_to_kata(s));
}

pub fn is_kana(ch: char) -> (r: bool)
    ensures
        r == is_kana_char(ch),
{
    let c = ch as u32;
    (c >= 0x3041 && c <= 0x3096)
    || (c >= 0x3099 && c <= 0x309c)
    || (c >= 0x309d && c <= 0x309e)
    || (c >= 0x30a1 && c <= 0x30f6)
    || c == 0x30fc
    || (c >= 0x30fd && c <= 0x30fe)
}

pub fn is_hiragana(ch: char) -> (r: bool)
    ensures
        r == is_hiragana_char(ch),
{
    let c = ch as u32;
    (c >= 0x3041 && c <= 0x3096)
    || (c >= 0x3099 && c <= 0x309c)
    || (c >= 0x309d && c <= 0x309e)
    || c == 0x30fc
    || (c >= 0x30fd && c <= 0x30fe)
}

/// Removes all non-kana characters from a string.
pub fn strip_non_kana(text: &str) -> (r: String)
    ensures
        r@ == kana_only(text@),
{
    let cs = chars_of(text);
    let mut out: Vec<char> = Vec::new();
    let mut i: usize = 0;
    while i < cs.len()
        invariant
            0 <= i <= cs@.len(),
            cs@ == text@,
            out@ == cs@.subrange(0, i as int).filter(|c: char| is_kana_char(c)),
        decreases cs@.len() - i,
    {
        let ch = cs[i];
        if is_kana(ch) {
            out.push(ch);
        }
        proof {
            let pre = cs@.subrange(0, i as int);
            let ext = cs@.subrange(0, i + 1);
            assert(ext =~= pre.push(cs@[i as int]));
            reveal_with_fuel(Seq::filter, 2);
            assert(ext.drop_last() =~= pre);
            assert(out@ =~= ext.filter(|c: char| is_kana_char(c)));
        }
        i = i + 1;
    }
    proof {
        assert(cs@.subrange(0, cs@.len() as int) =~= cs@);
    }
    string_from_chars(&out)
}

pub fn hiragana_to_katakana(text: &str) -> (r: String)
    ensures
        r@ == hira_to_kata(text@),
{
    let cs = chars_of(text);
    let mut out: Vec<char> = Vec::new();
    let mut i: usize = 0;
    while i < cs.len()
        invariant
            0 <= i <= cs@.len(),
            cs@ == text@,
            out@ == cs@.subrange(0, i as int).map_values(|c: char| hira_to_kata_char(c)),
        decreases cs@.len() - i,
    {
        let ch = cs[i];
        let c = ch as u32;
        if (c >= 0x3041 && c <= 0x3096) || (c >= 0x309d && c <= 0x309e) {
            match char_from_u32(c + KANA_DIFF) {
                Some(k) => {
                    proof {
                        vstd::utf8::char_u32_cast(k, k as u32);
                        assert(k == hira_to_kata_char(ch));
                    }
                    out.push(k);
                },
                None => out.push(ch),
            }
        } else {
            out.push(ch);
        }
        proof {
            assert(out@ =~= cs@.subrange(0, i + 1).map_values(
                |c: char| hira_to_kata_char(c),
            ));
        }
        i = i + 1;
    }
    proof {
        assert(cs@.subrange(0, cs@.len() as int) =~= cs@);
    }
    string_from_chars(&out)
}

pub fn katakana_to_hiragana(text: &str) -> (r: String)
    ensures
        r@ == kata_to_hira(text@),
{
    let cs = chars_of(text);
    let mut out: Vec<char> = Vec::new();
    let mut i: usize = 0;
    while i < cs.len()
        invariant
            0 <= i <= cs@.len(),
            cs@ == text@,
            out@ == cs@.subrange(0, i as int).map_values(|c: char| kata_to_hira_char(c)),
        decreases cs@.len() - i,
    {
        let ch = cs[i];
        let c = ch as u32;
        if (c >= 0x30a1 && c <= 0x30f6) || (c >= 0x30fd && c <= 0x30fe) {
            match char_from_u32(c - KANA_DIFF) {
                Some(k) => {
                    proof {
                        vstd::utf8::char_u32_cast(k, k as u32);
                        assert(k == kata_to_hira_char(ch));
                    }
                    out.push(k);
                },
                None => out.push(ch),
            }
        } else {
            out.push(ch);
        }
        proof {
            assert(out@ =~= cs@.subrange(0, i + 1).map_values(
                |c: char| kata_to_hira_char(c),
            ));
        }
        i = i + 1;
    }
    proof {
        assert(cs@.subrange(0, cs@.len() as int) =~= cs@);
    }
    string_from_chars(&out)
}

pub fn is_all_kana(text: &str) -> (r: bool)
    ensures
        r == all_kana(text@),
{
    let cs = chars_of(text);
    let mut i: usize = 0;
    while i < cs.len()
        invariant
            0 <= i <= cs@.len(),
            cs@ == text@,
            forall|j: int| 0 <= j < i ==> is_kana_char(#[trigger] cs@[j]),
        decreases cs@.len() - i,
    {
        if !is_kana(cs[i]) {
            return false;
        }
        i = i + 1;
    }
    true
}

pub fn is_all_hiragana(text: &str) -> (r: bool)
    ensures
        r == all_hiragana(text@),
{
    let cs = chars_of(text);
    let mut i: usize = 0;
    while i < cs.len()
        invariant
            0 <= i <= cs@.len(),
            cs@ == text@,
            forall|j: int| 0 <= j < i ==> is_hiragana_char(#[trigger] cs@[j]),
        decreases cs@.len() - i,
    {
        if !is_hiragana(cs[i]) {
            return false;
        }
        i = i + 1;
    }
    true
}

} // verus!
