//! Small text utilities shared by the rest of the crate: moving between
//! `String` and `Vec<char>`, and constructing characters from scalar values.

use vstd::prelude::*;

verus! {

/// Collects the characters of a string slice into a vector, one element per
/// character.
pub fn chars_of(s: &str) -> (r: Vec<char>)
    ensures
        r@ == s@,
{
    let n = s.unicode_len();
    let mut r: Vec<char> = Vec::new();
    let mut i: usize = 0;
    while i < n
        invariant
            0 <= i <= n,
            n == s@.len(),
            r@ == s@.subrange(0, i as int),
        decreases n - i,
    {
        r.push(s.get_char(i));
        i = i + 1;
        proof {
            assert(r@ =~= s@.subrange(0, i as int));
        }
    }
    proof {
        assert(r@ =~= s@);
    }
    r
}

/// Relies on `String`'s `FromIterator` implementation: collecting a sequence
/// of characters yields the string made of exactly those characters.
#[verifier::external_body]
pub(crate) fn string_from_chars(v: &Vec<char>) -> (r: String)
    ensures
        r@ == v@,
{
    v.iter().collect()
}

/// Lexicographic order on byte sequences; a proper prefix sorts before its
/// extensions.  This is the order `Ord` gives byte strings.
pub open spec fn bytes_leq(a: Seq<u8>, b: Seq<u8>) -> bool
    decreases a.len(),
{
    if a.len() == 0 {
        true
    } else if b.len() == 0 {
        false
    } else if a[0] != b[0] {
        a[0] < b[0]
    } else {
        bytes_leq(a.drop_first(), b.drop_first())
    }
}

/// The byte order relates every pair of sequences one way or the other.
pub proof fn lemma_bytes_leq_connected(a: Seq<u8>, b: Seq<u8>)
    ensures
        bytes_leq(a, b) || bytes_leq(b, a),
    decreases a.len(),
{
    if a.len() == 0 || b.len() == 0 {
    } else if a[0] == b[0] {
        lemma_bytes_leq_connected(a.drop_first(), b.drop_first());
    }
}

/// Two sequences each at most the other in byte order are equal.
pub proof fn lemma_bytes_leq_antisymmetric(a: Seq<u8>, b: Seq<u8>)
    requires
        bytes_leq(a, b),
        bytes_leq(b, a),
    ensures
        a == b,
    decreases a.len(),
{
    if a.len() == 0 {
        assert(b.len() == 0);
        assert(a =~= b);
    } else {
        assert(a[0] == b[0]);
        lemma_bytes_leq_antisymmetric(a.drop_first(), b.drop_first());
        assert(a =~= seq![a[0]] + a.drop_first());
        assert(b =~= seq![b[0]] + b.drop_first());
    }
}

/// The byte order is transitive.
pub proof fn lemma_bytes_leq_transitive(a: Seq<u8>, b: Seq<u8>, c: Seq<u8>)
    requires
        bytes_leq(a, b),
        bytes_leq(b, c),
    ensures
        bytes_leq(a, c),
    decreases a.len(),
{
    if a.len() == 0 || b.len() == 0 || c.len() == 0 {
    } else if a[0] == b[0] && b[0] == c[0] {
        lemma_bytes_leq_transitive(a.drop_first(), b.drop_first(), c.drop_first());
    }
}

/// Decides the lexicographic order on two byte vectors.
pub fn bytes_vec_leq(a: &Vec<u8>, b: &Vec<u8>) -> (r: bool)
    ensures
        r == bytes_leq(a@, b@),
{
    let mut i: usize = 0;
    let alen = a.len();
    let blen = b.len();
    proof {
        assert(a@.skip(0) =~= a@);
        assert(b@.skip(0) =~= b@);
    }
    while i < alen && i < blen
        invariant
            0 <= i <= alen,
            0 <= i <= blen,
            alen == a@.len(),
            blen == b@.len(),
            bytes_leq(a@, b@) == bytes_leq(a@.skip(i as int), b@.skip(i as int)),
        decreases alen - i,
    {
        let x = a[i];
        let y = b[i];
        if x != y {
            proof {
                assert(bytes_leq(a@.skip(i as int), b@.skip(i as int)) == (x < y));
            }
            return x < y;
        }
        proof {
            let sa = a@.skip(i as int);
            let sb = b@.skip(i as int);
            assert(sa[0] == x && sb[0] == y);
            assert(sa.drop_first() =~= a@.skip(i + 1));
            assert(sb.drop_first() =~= b@.skip(i + 1));
        }
        i = i + 1;
    }
    proof {
        let sa = a@.skip(i as int);
        let sb = b@.skip(i as int);
        if i >= alen {
            assert(sa.len() == 0);
        } else {
            assert(sb.len() == 0 && sa.len() > 0);
        }
    }
    alen <= blen
}

/// Order on strings through the byte order of their UTF-8 encodings: the
/// order in which `Ord` ranks `String`s.
pub open spec fn str_view_leq(a: Seq<char>, b: Seq<char>) -> bool {
    bytes_leq(vstd::utf8::encode_utf8(a), vstd::utf8::encode_utf8(b))
}

/// The string order relates every pair one way or the other.
pub proof fn lemma_str_view_leq_connected(a: Seq<char>, b: Seq<char>)
    ensures
        str_view_leq(a, b) || str_view_leq(b, a),
{
    lemma_bytes_leq_connected(vstd::utf8::encode_utf8(a), vstd::utf8::encode_utf8(b));
}

/// Two strings each at most the other in string order are equal.
pub proof fn lemma_str_view_leq_antisymmetric(a: Seq<char>, b: Seq<char>)
    requires
        str_view_leq(a, b),
        str_view_leq(b, a),
    ensures
        a == b,
{
    lemma_bytes_leq_antisymmetric(vstd::utf8::encode_utf8(a), vstd::utf8::encode_utf8(b));
    vstd::utf8::encode_utf8_decode_utf8(a);
    vstd::utf8::encode_utf8_decode_utf8(b);
}

/// The string order is transitive.
pub proof fn lemma_str_view_leq_transitive(a: Seq<char>, b: Seq<char>, c: Seq<char>)
    requires
        str_view_leq(a, b),
        str_view_leq(b, c),
    ensures
        str_view_leq(a, c),
{
    lemma_bytes_leq_transitive(
        vstd::utf8::encode_utf8(a),
        vstd::utf8::encode_utf8(b),
        vstd::utf8::encode_utf8(c),
    );
}

/// Decides the string order on two strings.
pub fn str_leq(a: &str, b: &str) -> (r: bool)
    ensures
        r == str_view_leq(a@, b@),
{
    let av = a.as_bytes_vec();
    let bv = b.as_bytes_vec();
    bytes_vec_leq(&av, &bv)
}

/// The byte length of a string's UTF-8 encoding.
pub open spec fn byte_len(s: Seq<char>) -> nat {
    vstd::utf8::encode_utf8(s).len()
}

/// An ASCII decimal digit.
pub open spec fn is_digit_char(c: char) -> bool {
    48 <= c as u32 && c as u32 <= 57
}

/// The numeric value of an ASCII decimal digit.
pub open spec fn digit_val(c: char) -> nat {
    (c as u32 - 48) as nat
}

/// The ASCII digit character for a value below ten.
pub open spec fn digit_char(d: nat) -> char {
    ((d + 48) as u32) as char
}

/// A non-empty sequence of ASCII decimal digits.
pub open spec fn all_digits(s: Seq<char>) -> bool {
    s.len() > 0 && forall|i: int| 0 <= i < s.len() ==> is_digit_char(#[trigger] s[i])
}

/// The number denoted by a sequence of decimal digits.
pub open spec fn dec_value(s: Seq<char>) -> nat
    decreases s.len(),
{
    if s.len() == 0 {
        0
    } else {
        dec_value(s.drop_last()) * 10 + digit_val(s.last())
    }
}

/// The decimal digit string of a number, without leading zeros (except for
/// zero itself).
pub open spec fn dec_str(n: nat) -> Seq<char>
    decreases n,
{
    if n < 10 {
        seq![digit_char(n)]
    } else {
        dec_str(n / 10).push(digit_char(n % 10))
    }
}

/// Appending digits to a digit string never shrinks its value.
proof fn lemma_dec_value_prefix(s: Seq<char>, k: int)
    requires
        0 <= k <= s.len(),
    ensures
        dec_value(s.subrange(0, k)) <= dec_value(s),
    decreases s.len() - k,
{
    if k == s.len() {
        assert(s.subrange(0, k) =~= s);
    } else {
        lemma_dec_value_prefix(s, k + 1);
        let t = s.subrange(0, k + 1);
        assert(t.drop_last() =~= s.subrange(0, k));
        assert(dec_value(s.subrange(0, k)) * 10 + digit_val(t.last()) == dec_value(t));
    }
}

/// Parses a non-empty all-digit character vector as a decimal number.
/// Returns `None` when the vector is empty, holds a non-digit, or denotes a
/// value above `u32::MAX`.
pub fn parse_u32_digits(v: &Vec<char>) -> (r: Option<u32>)
    ensures
        r is Some <==> (all_digits(v@) && dec_value(v@) <= u32::MAX),
        r is Some ==> r->Some_0 == dec_value(v@),
{
    if v.len() == 0 {
        return None;
    }
    let mut acc: u32 = 0;
    let mut i: usize = 0;
    while i < v.len()
        invariant
            0 <= i <= v@.len(),
            v@.len() > 0,
            forall|k: int| 0 <= k < i ==> is_digit_char(#[trigger] v@[k]),
            acc == dec_value(v@.subrange(0, i as int)),
        decreases v@.len() - i,
    {
        let c = v[i];
        let u = c as u32;
        if u < 48 || u > 57 {
            return None;
        }
        let d = u - 48;
        if acc > (u32::MAX - d) / 10 {
            // The value no longer fits; by monotonicity the whole string
            // does not either.
            proof {
                let t = v@.subrange(0, i + 1);
                assert(t.drop_last() =~= v@.subrange(0, i as int));
                assert(dec_value(t) == acc * 10 + d);
                assert(dec_value(t) > u32::MAX);
                lemma_dec_value_prefix(v@, i + 1);
            }
            return None;
        }
        proof {
            let t = v@.subrange(0, i + 1);
            assert(t.drop_last() =~= v@.subrange(0, i as int));
            assert(dec_value(t) == acc * 10 + d);
        }
        acc = acc * 10 + d;
        i = i + 1;
    }
    proof {
        assert(v@.subrange(0, v@.len() as int) =~= v@);
    }
    Some(acc)
}

/// Writes a number as its decimal digit characters.
pub fn u32_to_dec_chars(n: u32) -> (r: Vec<char>)
    ensures
        r@ == dec_str(n as nat),
{
    let mut digits: Vec<char> = Vec::new();
    let mut m: u32 = n;
    // Collect digits least-significant first.
    loop
        invariant_except_break
            dec_str(n as nat) == dec_str(m as nat) + digits@.reverse(),
        ensures
            dec_str(n as nat) == digits@.reverse(),
        decreases m,
    {
        let d = m % 10;
        let next = m / 10;
        let ghost pre = digits@;
        match char_from_u32(d + 48) {
            Some(c) => {
                proof {
                    vstd::utf8::char_u32_cast(c, c as u32);
                    assert(c == digit_char(d as nat));
                }
                digits.push(c);
            },
            None => {
                proof {
                    assert(d + 48 < 0xD800);
                    assert(false);
                }
                digits.push(' ');
            },
        }
        proof {
            assert(digits@ =~= pre.push(digit_char(d as nat)));
            assert(digits@.reverse() =~= seq![digit_char(d as nat)] + pre.reverse());
        }
        if next == 0 {
            proof {
                assert(m < 10);
                assert(dec_str(m as nat) == seq![digit_char(m as nat)]);
                assert(dec_str(m as nat) + pre.reverse() =~= digits@.reverse());
            }
            break ;
        }
        proof {
            assert(m >= 10);
            assert(dec_str(m as nat) == dec_str((m / 10) as nat).push(digit_char((m % 10) as nat)));
            assert(dec_str((m / 10) as nat).push(digit_char((m % 10) as nat)) + pre.reverse()
                =~= dec_str(next as nat) + digits@.reverse());
        }
        m = next;
    }
    // Pop them back off into most-significant-first order.
    let mut r: Vec<char> = Vec::new();
    proof {
        assert(dec_str(n as nat) =~= r@ + digits@.reverse());
    }
    loop
        invariant
            dec_str(n as nat) == r@ + digits@.reverse(),
        ensures
            digits@.len() == 0,
        decreases digits@.len(),
    {
        let ghost dpre = digits@;
        let ghost rpre = r@;
        match digits.pop() {
            None => {
                break ;
            },
            Some(c) => {
                r.push(c);
                proof {
                    assert(digits@ =~= dpre.drop_last());
                    assert(dpre.reverse() =~= seq![dpre.last()] + dpre.drop_last().reverse());
                    assert(rpre.push(c) + digits@.reverse() =~= rpre + dpre.reverse());
                }
            },
        }
    }
    proof {
        assert(r@ + digits@.reverse() =~= r@);
    }
    r
}

/// Writes a wider number as its decimal digit characters.
pub fn u64_to_dec_chars(n: u64) -> (r: Vec<char>)
    ensures
        r@ == dec_str(n as nat),
{
    let mut digits: Vec<char> = Vec::new();
    let mut m: u64 = n;
    // Collect digits least-significant first.
    loop
        invariant_except_break
            dec_str(n as nat) == dec_str(m as nat) + digits@.reverse(),
        ensures
            dec_str(n as nat) == digits@.reverse(),
        decreases m,
    {
        let d = m % 10;
        let next = m / 10;
        let ghost pre = digits@;
        match char_from_u32((d + 48) as u32) {
            Some(c) => {
                proof {
                    vstd::utf8::char_u32_cast(c, c as u32);
                    assert(c == digit_char(d as nat));
                }
                digits.push(c);
            },
            None => {
                proof {
                    assert(d + 48 < 0xD800);
                    assert(false);
                }
                digits.push(' ');
            },
        }
        proof {
            assert(digits@ =~= pre.push(digit_char(d as nat)));
            assert(digits@.reverse() =~= seq![digit_char(d as nat)] + pre.reverse());
        }
        if next == 0 {
            proof {
                assert(m < 10);
                assert(dec_str(m as nat) == seq![digit_char(m as nat)]);
                assert(dec_str(m as nat) + pre.reverse() =~= digits@.reverse());
            }
            break ;
        }
        proof {
            assert(m >= 10);
            assert(dec_str(m as nat) == dec_str((m / 10) as nat).push(digit_char((m % 10) as nat)));
            assert(dec_str((m / 10) as nat).push(digit_char((m % 10) as nat)) + pre.reverse()
                =~= dec_str(next as nat) + digits@.reverse());
        }
        m = next;
    }
    // Pop them back off into most-significant-first order.
    let mut r: Vec<char> = Vec::new();
    proof {
        assert(dec_str(n as nat) =~= r@ + digits@.reverse());
    }
    loop
        invariant
            dec_str(n as nat) == r@ + digits@.reverse(),
        ensures
            digits@.len() == 0,
        decreases digits@.len(),
    {
        let ghost dpre = digits@;
        let ghost rpre = r@;
        match digits.pop() {
            None => {
                break ;
            },
            Some(c) => {
                r.push(c);
                proof {
                    assert(digits@ =~= dpre.drop_last());
                    assert(dpre.reverse() =~= seq![dpre.last()] + dpre.drop_last().reverse());
                    assert(rpre.push(c) + digits@.reverse() =~= rpre + dpre.reverse());
                }
            },
        }
    }
    proof {
        assert(r@ + digits@.reverse() =~= r@);
    }
    r
}

/// A Unicode whitespace character (the `White_Space` property).
pub open spec fn is_space_char(c: char) -> bool {
    let u = c as u32;
    (0x09 <= u && u <= 0x0d) || u == 0x20 || u == 0x85 || u == 0xa0 || u == 0x1680 || (0x2000 <= u
        && u <= 0x200a) || u == 0x2028 || u == 0x2029 || u == 0x202f || u == 0x205f || u == 0x3000
}

/// The sequence with leading whitespace removed.
pub open spec fn trim_front(s: Seq<char>) -> Seq<char>
    decreases s.len(),
{
    if s.len() > 0 && is_space_char(s[0]) {
        trim_front(s.drop_first())
    } else {
        s
    }
}

/// The sequence with trailing whitespace removed.
pub open spec fn trim_back(s: Seq<char>) -> Seq<char>
    decreases s.len(),
{
    if s.len() > 0 && is_space_char(s.last()) {
        trim_back(s.drop_last())
    } else {
        s
    }
}

/// The sequence with leading and trailing whitespace removed.
pub open spec fn trim_seq(s: Seq<char>) -> Seq<char> {
    trim_back(trim_front(s))
}

proof fn lemma_trim_front_skip(s: Seq<char>, k: int)
    requires
        0 <= k <= s.len(),
        forall|i: int| 0 <= i < k ==> is_space_char(#[trigger] s[i]),
        k < s.len() ==> !is_space_char(s[k]),
    ensures
        trim_front(s) == s.skip(k),
    decreases k,
{
    if k == 0 {
        assert(s.skip(0) =~= s);
    } else {
        assert(is_space_char(s[0]));
        lemma_trim_front_skip(s.drop_first(), k - 1);
        assert(s.drop_first().skip(k - 1) =~= s.skip(k));
    }
}

proof fn lemma_trim_back_take(s: Seq<char>, k: int)
    requires
        0 <= k <= s.len(),
        forall|i: int| k <= i < s.len() ==> is_space_char(#[trigger] s[i]),
        k > 0 ==> !is_space_char(s[k - 1]),
    ensures
        trim_back(s) == s.take(k),
    decreases s.len() - k,
{
    if k == s.len() {
        assert(s.take(k) =~= s);
    } else {
        assert(is_space_char(s.last()));
        lemma_trim_back_take(s.drop_last(), k);
        assert(s.drop_last().take(k) =~= s.take(k));
    }
}

/// Removes leading and trailing whitespace from a character vector.
pub fn trim_chars(v: &Vec<char>) -> (r: Vec<char>)
    ensures
        r@ == trim_seq(v@),
{
    let n = v.len();
    let mut a: usize = 0;
    while a < n && is_space(v[a])
        invariant
            0 <= a <= n,
            n == v@.len(),
            forall|i: int| 0 <= i < a ==> is_space_char(#[trigger] v@[i]),
        decreases n - a,
    {
        a = a + 1;
    }
    proof {
        lemma_trim_front_skip(v@, a as int);
    }
    let mut b: usize = n;
    while b > a && is_space(v[b - 1])
        invariant
            a <= b <= n,
            n == v@.len(),
            forall|i: int| b <= i < n ==> is_space_char(#[trigger] v@[i]),
        decreases b,
    {
        b = b - 1;
    }
    let ghost f = v@.skip(a as int);
    proof {
        if b == a {
            // Everything after the leading spaces is also space.
            lemma_trim_back_take(f, 0);
        } else {
            lemma_trim_back_take(f, b - a);
        }
        assert(f.take(b - a) =~= v@.subrange(a as int, b as int));
    }
    let mut r: Vec<char> = Vec::new();
    let mut i: usize = a;
    while i < b
        invariant
            a <= i <= b <= n,
            n == v@.len(),
            r@ == v@.subrange(a as int, i as int),
        decreases b - i,
    {
        r.push(v[i]);
        proof {
            assert(r@ =~= v@.subrange(a as int, i + 1));
        }
        i = i + 1;
    }
    r
}

/// Whether a character is Unicode whitespace.
pub fn is_space(c: char) -> (r: bool)
    ensures
        r == is_space_char(c),
{
    let u = c as u32;
    (u >= 0x09 && u <= 0x0d) || u == 0x20 || u == 0x85 || u == 0xa0 || u == 0x1680 || (u >= 0x2000
        && u <= 0x200a) || u == 0x2028 || u == 0x2029 || u == 0x202f || u == 0x205f || u == 0x3000
}

/// Relies on `char::from_u32`: it returns `Some` exactly for the valid
/// Unicode scalar values (everything up to 0x10FFFF except the surrogate
/// range), and the character returned has the given scalar value.
#[verifier::external_body]
pub(crate) fn char_from_u32(u: u32) -> (r: Option<char>)
    ensures
        r is Some <==> (u < 0xD800 || (0xE000 <= u && u <= 0x10FFFF)),
        r is Some ==> r->Some_0 as u32 == u,
{
    char::from_u32(u)
}

} // verus!
