//! Types and functions for building the StarDict dictionary layout: the
//! concatenated definition blob, the sorted binary index, and the
//! metadata file.

use vstd::prelude::*;
use vstd::utf8::encode_utf8;

use crate::generic_dict::{Entry, EntryModel};
use crate::text::{bytes_leq, dec_str};

verus! {

broadcast use vstd::seq_lib::group_to_multiset_ensures;

// ------------------------------------------------------------------
// The comparator.
/// A byte sequence with its ASCII letters lowercased.
pub open spec fn ascii_lower(bs: Seq<u8>) -> Seq<u8> {
    bs.map_values(
        |b: u8|
            if 65 <= b && b <= 90 {
                (b + 32) as u8
            } else {
                b
            },
    )
}

/// Three-way lexicographic comparison of byte sequences.
pub open spec fn bytes_cmp(a: Seq<u8>, b: Seq<u8>) -> core::cmp::Ordering
    decreases a.len(),
{
    if a.len() == 0 && b.len() == 0 {
        core::cmp::Ordering::Equal
    } else if a.len() == 0 {
        core::cmp::Ordering::Less
    } else if b.len() == 0 {
        core::cmp::Ordering::Greater
    } else if a[0] < b[0] {
        core::cmp::Ordering::Less
    } else if a[0] > b[0] {
        core::cmp::Ordering::Greater
    } else {
        bytes_cmp(a.drop_first(), b.drop_first())
    }
}

/// The StarDict comparison of two key strings: their lowercased UTF-8
/// bytes compare first, their original bytes only break ties.
pub open spec fn spec_stardict_cmp(a: Seq<char>, b: Seq<char>) -> core::cmp::Ordering {
    let la = ascii_lower(encode_utf8(a));
    let lb = ascii_lower(encode_utf8(b));
    if la == lb {
        bytes_cmp(encode_utf8(a), encode_utf8(b))
    } else {
        bytes_cmp(la, lb)
    }
}

/// A three-way byte comparison returning `Equal` means the sequences are
/// equal, and `Less` means the first is no greater in the byte order.
pub proof fn lemma_bytes_cmp_props(a: Seq<u8>, b: Seq<u8>)
    ensures
        (bytes_cmp(a, b) is Equal) <==> a == b,
        (bytes_cmp(a, b) is Less) ==> (bytes_leq(a, b) && a != b),
        (bytes_cmp(a, b) is Greater) ==> (bytes_leq(b, a) && a != b),
    decreases a.len(),
{
    if a.len() == 0 && b.len() == 0 {
        assert(a =~= b);
    } else if a.len() == 0 || b.len() == 0 {
    } else if a[0] == b[0] {
        lemma_bytes_cmp_props(a.drop_first(), b.drop_first());
        if bytes_cmp(a, b) is Equal {
            assert(a =~= seq![a[0]] + a.drop_first());
            assert(b =~= seq![b[0]] + b.drop_first());
        }
        if a == b {
            assert(a.drop_first() =~= b.drop_first());
        }
    }
}

/// Lowercases the ASCII letters of a byte vector.
fn ascii_lower_bytes(v: &Vec<u8>) -> (r: Vec<u8>)
    ensures
        r@ == ascii_lower(v@),
{
    let mut r: Vec<u8> = Vec::new();
    let mut i: usize = 0;
    while i < v.len()
        invariant
            0 <= i <= v@.len(),
            r@ == ascii_lower(v@.take(i as int)),
        decreases v@.len() - i,
    {
        let b = v[i];
        if b >= 65 && b <= 90 {
            r.push(b + 32);
        } else {
            r.push(b);
        }
        proof {
            assert(r@ =~= ascii_lower(v@.take(i + 1)));
        }
        i = i + 1;
    }
    proof {
        assert(v@.take(v@.len() as int) =~= v@);
    }
    r
}

/// Three-way comparison of two byte vectors.
fn bytes_vec_cmp(a: &Vec<u8>, b: &Vec<u8>) -> (r: core::cmp::Ordering)
    ensures
        r == bytes_cmp(a@, b@),
{
    let mut i: usize = 0;
    proof {
        assert(a@.skip(0) =~= a@);
        assert(b@.skip(0) =~= b@);
    }
    while i < a.len() && i < b.len()
        invariant
            0 <= i <= a@.len(),
            0 <= i <= b@.len(),
            bytes_cmp(a@, b@) == bytes_cmp(a@.skip(i as int), b@.skip(i as int)),
        decreases a@.len() - i,
    {
        let x = a[i];
        let y = b[i];
        proof {
            let sa = a@.skip(i as int);
            let sb = b@.skip(i as int);
            assert(sa[0] == x && sb[0] == y);
            assert(sa.drop_first() =~= a@.skip(i + 1));
            assert(sb.drop_first() =~= b@.skip(i + 1));
        }
        if x < y {
            return core::cmp::Ordering::Less;
        }
        if x > y {
            return core::cmp::Ordering::Greater;
        }
        i = i + 1;
    }
    proof {
        let sa = a@.skip(i as int);
        let sb = b@.skip(i as int);
        if i >= a.len() && i >= b.len() {
            assert(sa.len() == 0 && sb.len() == 0);
        } else if i >= a.len() {
            assert(sa.len() == 0 && sb.len() > 0);
        } else {
            assert(sb.len() == 0 && sa.len() > 0);
        }
    }
    if a.len() == b.len() {
        core::cmp::Ordering::Equal
    } else if a.len() < b.len() {
        core::cmp::Ordering::Less
    } else {
        core::cmp::Ordering::Greater
    }
}

/// A StarDict-compatible string comparison for sorting index keys:
/// case-insensitive first, case-sensitive only to break ties.
pub fn stardict_strcmp(a: &str, b: &str) -> (r: core::cmp::Ordering)
    ensures
        r == spec_stardict_cmp(a@, b@),
{
    let ab = a.as_bytes_vec();
    let bb = b.as_bytes_vec();
    let la = ascii_lower_bytes(&ab);
    let lb = ascii_lower_bytes(&bb);
    let first = bytes_vec_cmp(&la, &lb);
    match first {
        core::cmp::Ordering::Equal => {
            proof {
                lemma_bytes_cmp_props(la@, lb@);
            }
            bytes_vec_cmp(&ab, &bb)
        },
        _ => {
            proof {
                lemma_bytes_cmp_props(la@, lb@);
            }
            first
        },
    }
}

// ------------------------------------------------------------------
// The index order and its laws.
/// One index key: the string, its weight, and its entry's position.
pub open spec fn sd_key_leq(a: (Seq<char>, u32, usize), b: (Seq<char>, u32, usize)) -> bool {
    if !(spec_stardict_cmp(a.0, b.0) is Equal) {
        spec_stardict_cmp(a.0, b.0) is Less
    } else {
        a.1 < b.1 || (a.1 == b.1 && a.2 <= b.2)
    }
}

/// The index order as a relation value.
pub open spec fn sd_key_leq_rel() -> spec_fn((Seq<char>, u32, usize), (Seq<char>, u32, usize)) -> bool {
    |a: (Seq<char>, u32, usize), b: (Seq<char>, u32, usize)| sd_key_leq(a, b)
}

/// The index order is a total order: reflexive, antisymmetric, transitive
/// and connected.  In particular the strict part of the order is a strict
/// total order consistent with case-insensitive-then-case-sensitive
/// comparison.
pub proof fn lemma_sd_key_leq_total()
    ensures
        vstd::relations::total_ordering(sd_key_leq_rel()),
{
    let r = sd_key_leq_rel();
    assert forall|a: (Seq<char>, u32, usize), b: (Seq<char>, u32, usize)| #[trigger] r(a, b)
        || #[trigger] r(b, a) by {
        lemma_cmp_antisym(a.0, b.0);
    }
    assert forall|a: (Seq<char>, u32, usize), b: (Seq<char>, u32, usize)|
        #[trigger] r(a, b) && #[trigger] r(b, a) implies a == b by {
        lemma_cmp_antisym(a.0, b.0);
        assert(spec_stardict_cmp(a.0, b.0) is Equal);
        lemma_cmp_equal_means_equal(a.0, b.0);
        assert(a.0 == b.0 && a.1 == b.1 && a.2 == b.2);
    }
    assert forall|a: (Seq<char>, u32, usize), b: (Seq<char>, u32, usize), c: (
        Seq<char>,
        u32,
        usize,
    )| #[trigger] r(a, b) && #[trigger] r(b, c) implies r(a, c) by {
        lemma_cmp_trans(a.0, b.0, c.0);
    }
}

/// Comparison answers reverse when the arguments swap.
proof fn lemma_cmp_antisym(a: Seq<char>, b: Seq<char>)
    ensures
        (spec_stardict_cmp(a, b) is Equal) <==> (spec_stardict_cmp(b, a) is Equal),
        (spec_stardict_cmp(a, b) is Less) <==> (spec_stardict_cmp(b, a) is Greater),
{
    lemma_bytes_cmp_swap(ascii_lower(encode_utf8(a)), ascii_lower(encode_utf8(b)));
    lemma_bytes_cmp_swap(encode_utf8(a), encode_utf8(b));
}

proof fn lemma_bytes_cmp_swap(a: Seq<u8>, b: Seq<u8>)
    ensures
        (bytes_cmp(a, b) is Equal) <==> (bytes_cmp(b, a) is Equal),
        (bytes_cmp(a, b) is Less) <==> (bytes_cmp(b, a) is Greater),
    decreases a.len(),
{
    if a.len() > 0 && b.len() > 0 && a[0] == b[0] {
        lemma_bytes_cmp_swap(a.drop_first(), b.drop_first());
    }
}

/// Keys that compare equal are equal strings.
proof fn lemma_cmp_equal_means_equal(a: Seq<char>, b: Seq<char>)
    requires
        spec_stardict_cmp(a, b) is Equal,
    ensures
        a == b,
{
    let la = ascii_lower(encode_utf8(a));
    let lb = ascii_lower(encode_utf8(b));
    if la == lb {
        lemma_bytes_cmp_props(encode_utf8(a), encode_utf8(b));
        vstd::utf8::encode_utf8_decode_utf8(a);
        vstd::utf8::encode_utf8_decode_utf8(b);
    } else {
        lemma_bytes_cmp_props(la, lb);
    }
}

proof fn lemma_bytes_cmp_trans(a: Seq<u8>, b: Seq<u8>, c: Seq<u8>)
    requires
        !(bytes_cmp(a, b) is Greater),
        !(bytes_cmp(b, c) is Greater),
    ensures
        !(bytes_cmp(a, c) is Greater),
        (bytes_cmp(a, b) is Less) && !(bytes_cmp(b, c) is Greater) ==> (bytes_cmp(a, c) is Less),
        !(bytes_cmp(a, b) is Greater) && (bytes_cmp(b, c) is Less) ==> (bytes_cmp(a, c) is Less),
    decreases a.len() + b.len() + c.len(),
{
    if a.len() > 0 && b.len() > 0 && c.len() > 0 {
        if a[0] == b[0] && b[0] == c[0] {
            lemma_bytes_cmp_trans(a.drop_first(), b.drop_first(), c.drop_first());
        }
    }
}

/// The comparison is transitive through the two-level scheme.
proof fn lemma_cmp_trans(a: Seq<char>, b: Seq<char>, c: Seq<char>)
    requires
        (spec_stardict_cmp(a, b) is Less) || (spec_stardict_cmp(a, b) is Equal),
        (spec_stardict_cmp(b, c) is Less) || (spec_stardict_cmp(b, c) is Equal),
    ensures
        (spec_stardict_cmp(a, c) is Less) || (spec_stardict_cmp(a, c) is Equal),
        (spec_stardict_cmp(a, b) is Less) || (spec_stardict_cmp(b, c) is Less) ==> (
        spec_stardict_cmp(a, c) is Less),
{
    let ea = encode_utf8(a);
    let eb = encode_utf8(b);
    let ec = encode_utf8(c);
    let la = ascii_lower(ea);
    let lb = ascii_lower(eb);
    let lc = ascii_lower(ec);
    lemma_bytes_cmp_props(la, lb);
    lemma_bytes_cmp_props(lb, lc);
    lemma_bytes_cmp_props(la, lc);
    lemma_bytes_cmp_props(ea, eb);
    lemma_bytes_cmp_props(eb, ec);
    lemma_bytes_cmp_props(ea, ec);
    lemma_bytes_cmp_trans(la, lb, lc);
    if la == lb && lb == lc {
        lemma_bytes_cmp_trans(ea, eb, ec);
    }
}

/// Sorting the index keys twice yields the same sequence as sorting once.
pub proof fn lemma_sd_sort_idempotent(keys: Seq<(Seq<char>, u32, usize)>)
    ensures
        crate::sorting::insertion_sort_by(
            crate::sorting::insertion_sort_by(keys, sd_key_leq_rel()),
            sd_key_leq_rel(),
        ) == crate::sorting::insertion_sort_by(keys, sd_key_leq_rel()),
{
    lemma_sd_key_leq_total();
    crate::sorting::lemma_insertion_sort_idempotent(keys, sd_key_leq_rel());
}

// ------------------------------------------------------------------
// Building the three files.
/// The index keys of the first `j` keys of one entry: each key string
/// with its weight (priority subtracted from the maximum) and its entry's
/// position.
pub open spec fn entry_index_keys(e: EntryModel, idx: usize, j: int, maxp: u32) -> Seq<
    (Seq<char>, u32, usize),
>
    decreases j,
{
    if j <= 0 || j > e.keys.len() {
        Seq::<(Seq<char>, u32, usize)>::empty()
    } else {
        entry_index_keys(e, idx, j - 1, maxp) + seq![
            (e.keys[j - 1].0, ((maxp - e.keys[j - 1].1) as u32), idx),
        ]
    }
}

/// The index keys of the first `i` entries.
pub open spec fn all_index_keys(s: Seq<EntryModel>, i: int, maxp: u32) -> Seq<
    (Seq<char>, u32, usize),
>
    decreases i,
{
    if i <= 0 || i > s.len() {
        Seq::<(Seq<char>, u32, usize)>::empty()
    } else {
        all_index_keys(s, i - 1, maxp) + entry_index_keys(
            s[i - 1],
            (i - 1) as usize,
            s[i - 1].keys.len() as int,
            maxp,
        )
    }
}

/// Every index key, sorted by the StarDict comparator with weight and
/// entry position breaking ties.
pub open spec fn spec_index_keys(s: Seq<EntryModel>) -> Seq<(Seq<char>, u32, usize)> {
    crate::sorting::insertion_sort_by(
        all_index_keys(s, s.len() as int, crate::kobo::spec_max_priority(s)),
        sd_key_leq_rel(),
    )
}

/// The definition blob of the first `i` entries: their UTF-8 bytes
/// concatenated.
pub open spec fn dict_data(s: Seq<EntryModel>, i: int) -> Seq<u8>
    decreases i,
{
    if i <= 0 || i > s.len() {
        Seq::<u8>::empty()
    } else {
        dict_data(s, i - 1) + encode_utf8(s[i - 1].definition)
    }
}

/// The big-endian bytes of a 32-bit value.
pub open spec fn be32(n: u32) -> Seq<u8> {
    seq![
        (n / 0x1000000) as u8,
        ((n / 0x10000) % 256) as u8,
        ((n / 0x100) % 256) as u8,
        (n % 256) as u8,
    ]
}

/// One index record: the key's bytes, a zero terminator, and the entry's
/// byte offset and length, big-endian.  Keys longer than 255 bytes are
/// excluded from the index, as the format cannot carry them.
pub open spec fn index_record(s: Seq<EntryModel>, k: (Seq<char>, u32, usize)) -> Seq<u8> {
    if encode_utf8(k.0).len() <= 255 {
        encode_utf8(k.0) + seq![0u8] + be32(dict_data(s, k.2 as int).len() as u32) + be32(
            encode_utf8(s[k.2 as int].definition).len() as u32,
        )
    } else {
        Seq::<u8>::empty()
    }
}

/// The index bytes of the first `i` sorted keys.
pub open spec fn index_bytes(s: Seq<EntryModel>, keys: Seq<(Seq<char>, u32, usize)>, i: int) -> Seq<
    u8,
>
    decreases i,
{
    if i <= 0 || i > keys.len() {
        Seq::<u8>::empty()
    } else {
        index_bytes(s, keys, i - 1) + index_record(s, keys[i - 1])
    }
}

/// How many of the first `i` sorted keys the index carries.
pub open spec fn index_count(keys: Seq<(Seq<char>, u32, usize)>, i: int) -> nat
    decreases i,
{
    if i <= 0 || i > keys.len() {
        0
    } else {
        index_count(keys, i - 1) + (if encode_utf8(keys[i - 1].0).len() <= 255 {
            1nat
        } else {
            0nat
        })
    }
}

/// The metadata file of the archive.
pub open spec fn spec_ifo_text(name: Seq<char>, wordcount: nat, idxsize: nat) -> Seq<char> {
    "StarDict's dict ifo file\nversion=3.0.0\nbookname="@ + name + "\nwordcount="@ + dec_str(
        wordcount,
    ) + "\nidxfilesize="@ + dec_str(idxsize) + "\nsametypesequence=h\nlang=ja-en\n"@
}

/// Every index key names a valid entry position.
proof fn lemma_all_index_keys_bound(s: Seq<EntryModel>, i: int, maxp: u32)
    requires
        i <= s.len(),
    ensures
        forall|k: int|
            0 <= k < all_index_keys(s, i, maxp).len() ==> (#[trigger] all_index_keys(
                s,
                i,
                maxp,
            )[k]).2 < i,
    decreases i,
{
    if i <= 0 {
    } else {
        lemma_all_index_keys_bound(s, i - 1, maxp);
        let cur = all_index_keys(s, i, maxp);
        let prev = all_index_keys(s, i - 1, maxp);
        let g = entry_index_keys(s[i - 1], (i - 1) as usize, s[i - 1].keys.len() as int, maxp);
        lemma_entry_index_keys_idx(s[i - 1], (i - 1) as usize, s[i - 1].keys.len() as int, maxp);
        assert forall|k: int| 0 <= k < cur.len() implies (#[trigger] cur[k]).2 < i by {
            if k < prev.len() {
                assert(cur[k] == prev[k]);
            } else {
                assert(cur[k] == g[k - prev.len()]);
            }
        }
    }
}

proof fn lemma_entry_index_keys_idx(e: EntryModel, idx: usize, j: int, maxp: u32)
    ensures
        forall|k: int|
            0 <= k < entry_index_keys(e, idx, j, maxp).len() ==> (#[trigger] entry_index_keys(
                e,
                idx,
                j,
                maxp,
            )[k]).2 == idx,
    decreases j,
{
    if j <= 0 || j > e.keys.len() {
    } else {
        lemma_entry_index_keys_idx(e, idx, j - 1, maxp);
        let cur = entry_index_keys(e, idx, j, maxp);
        let prev = entry_index_keys(e, idx, j - 1, maxp);
        assert forall|k: int| 0 <= k < cur.len() implies (#[trigger] cur[k]).2 == idx by {
            if k < prev.len() {
                assert(cur[k] == prev[k]);
            } else {
                assert(k == prev.len());
            }
        }
    }
}

/// Builds the three StarDict files: the definition blob, the sorted
/// binary index, and the metadata text.
#[verifier::rlimit(100)]
pub fn build_stardict_files(entries: &Vec<Entry>, dict_name: &str) -> (r: (Vec<u8>, Vec<u8>, String))
    ensures
        r.0@ == dict_data(entries.deep_view(), entries.deep_view().len() as int),
        r.1@ == index_bytes(
            entries.deep_view(),
            spec_index_keys(entries.deep_view()),
            spec_index_keys(entries.deep_view()).len() as int,
        ),
        r.2@ == spec_ifo_text(
            dict_name@,
            index_count(
                spec_index_keys(entries.deep_view()),
                spec_index_keys(entries.deep_view()).len() as int,
            ),
            index_bytes(
                entries.deep_view(),
                spec_index_keys(entries.deep_view()),
                spec_index_keys(entries.deep_view()).len() as int,
            ).len(),
        ),
{
    let ghost s = entries.deep_view();

    // The maximum priority over all keys.
    let mut maxp: u32 = 0;
    let mut i: usize = 0;
    while i < entries.len()
        invariant
            0 <= i <= entries@.len(),
            s == entries.deep_view(),
            s.len() == entries@.len(),
            maxp == crate::kobo::entries_max(s, i as int),
        decreases entries@.len() - i,
    {
        let ks = &entries[i].keys;
        proof {
            assert(ks.deep_view() == s[i as int].keys);
        }
        let mut j: usize = 0;
        let mut km: u32 = 0;
        while j < ks.len()
            invariant
                0 <= j <= ks@.len(),
                0 <= i < s.len(),
                ks.deep_view() == s[i as int].keys,
                ks@.len() == s[i as int].keys.len(),
                km == crate::kobo::keys_max(s[i as int].keys, j as int),
            decreases ks@.len() - j,
        {
            let p = ks[j].1;
            proof {
                assert(s[i as int].keys[j as int].1 == p);
            }
            if p > km {
                km = p;
            }
            j = j + 1;
        }
        if km > maxp {
            maxp = km;
        }
        i = i + 1;
    }
    proof {
        assert(maxp == crate::kobo::spec_max_priority(s));
        lemma_sd_key_leq_total();
    }

    // Collect and sort the index keys.
    let mut keys: Vec<(String, u32, usize)> = Vec::new();
    let mut i: usize = 0;
    while i < entries.len()
        invariant
            0 <= i <= entries@.len(),
            s == entries.deep_view(),
            s.len() == entries@.len(),
            maxp == crate::kobo::spec_max_priority(s),
            keys@.len() == all_index_keys(s, i as int, maxp).len(),
            keys.deep_view() == all_index_keys(s, i as int, maxp),
        decreases entries@.len() - i,
    {
        let e = &entries[i];
        proof {
            assert(e.deep_view() == s[i as int]);
            crate::kobo::lemma_entries_max_bounds(s, s.len() as int, i as int);
        }
        let mut j: usize = 0;
        while j < e.keys.len()
            invariant
                0 <= j <= e.keys@.len(),
                0 <= i < s.len(),
                e.deep_view() == s[i as int],
                e.keys@.len() == s[i as int].keys.len(),
                maxp == crate::kobo::spec_max_priority(s),
                forall|q: int|
                    0 <= q < s[i as int].keys.len() ==> (#[trigger] s[i as int].keys[q]).1 <= maxp,
                keys@.len() == (all_index_keys(s, i as int, maxp) + entry_index_keys(
                    s[i as int],
                    i,
                    j as int,
                    maxp,
                )).len(),
                keys.deep_view() == all_index_keys(s, i as int, maxp) + entry_index_keys(
                    s[i as int],
                    i,
                    j as int,
                    maxp,
                ),
            decreases e.keys@.len() - j,
        {
            let kj = &e.keys[j];
            proof {
                assert(s[i as int].keys[j as int] == (kj.0@, kj.1));
                assert(kj.1 <= maxp);
            }
            let ghost kpre = keys.deep_view();
            let ghost kv = keys@;
            keys.push((kj.0.clone(), maxp - kj.1, i));
            proof {
                assert(kpre.len() == kv.len());
                assert(keys@ == kv.push(keys@[kv.len() as int]));
                assert(keys.deep_view() =~~= kpre.push(
                    (kj.0@, ((maxp - kj.1) as u32), i),
                ));
                assert(keys.deep_view() =~~= all_index_keys(s, i as int, maxp)
                    + entry_index_keys(s[i as int], i, j + 1, maxp));
            }
            j = j + 1;
        }
        proof {
            assert(keys.deep_view() =~= all_index_keys(s, i + 1, maxp));
        }
        i = i + 1;
    }
    let sdcmp = |a: &(String, u32, usize), b: &(String, u32, usize)| -> (res: bool)
        ensures
            res == sd_key_leq(a.deep_view(), b.deep_view()),
        {
            proof {
                assert(a.deep_view() == (a.0@, a.1, a.2));
                assert(b.deep_view() == (b.0@, b.1, b.2));
            }
            match stardict_strcmp(a.0.as_str(), b.0.as_str()) {
                core::cmp::Ordering::Less => true,
                core::cmp::Ordering::Greater => false,
                core::cmp::Ordering::Equal => a.1 < b.1 || (a.1 == b.1 && a.2 <= b.2),
            }
        };
    crate::sorting::sort_by_leq(&mut keys, &sdcmp, Ghost(sd_key_leq_rel()));
    proof {
        assert(keys.deep_view() == spec_index_keys(s));
    }

    // The definition blob and each entry's byte offset and length.
    let mut data: Vec<u8> = Vec::new();
    let mut offsets: Vec<(usize, usize)> = Vec::new();
    let mut i: usize = 0;
    while i < entries.len()
        invariant
            0 <= i <= entries@.len(),
            s == entries.deep_view(),
            s.len() == entries@.len(),
            data@ == dict_data(s, i as int),
            offsets@.len() == i,
            forall|k: int|
                0 <= k < i ==> (#[trigger] offsets@[k]).0 == dict_data(s, k).len() && offsets@[k].1
                    == encode_utf8(s[k].definition).len(),
        decreases entries@.len() - i,
    {
        let e = &entries[i];
        proof {
            assert(e.deep_view() == s[i as int]);
        }
        let bytes = e.definition.as_str().as_bytes_vec();
        let start = data.len();
        let blen = bytes.len();
        let mut k: usize = 0;
        while k < bytes.len()
            invariant
                0 <= k <= bytes@.len(),
                bytes@ == encode_utf8(s[i as int].definition),
                0 <= i < s.len(),
                data@ == dict_data(s, i as int) + bytes@.take(k as int),
            decreases bytes@.len() - k,
        {
            data.push(bytes[k]);
            proof {
                assert(data@ =~= dict_data(s, i as int) + bytes@.take(k + 1));
            }
            k = k + 1;
        }
        proof {
            assert(bytes@.take(bytes@.len() as int) =~= bytes@);
            assert(data@ =~= dict_data(s, i + 1));
        }
        offsets.push((start, blen));
        i = i + 1;
    }

    // The index bytes.
    let ghost skeys = keys.deep_view();
    proof {
        lemma_all_index_keys_bound(s, s.len() as int, maxp);
        crate::sorting::lemma_insertion_sort_by_ensures(
            all_index_keys(s, s.len() as int, maxp),
            sd_key_leq_rel(),
        );
    }
    let mut idx: Vec<u8> = Vec::new();
    let mut count: usize = 0;
    let mut i: usize = 0;
    while i < keys.len()
        invariant
            0 <= i <= keys@.len(),
            s == entries.deep_view(),
            s.len() == entries@.len(),
            skeys == keys.deep_view(),
            skeys.len() == keys@.len(),
            skeys.to_multiset() == all_index_keys(s, s.len() as int, maxp).to_multiset(),
            forall|k: int|
                0 <= k < all_index_keys(s, s.len() as int, maxp).len() ==> (
                #[trigger] all_index_keys(s, s.len() as int, maxp)[k]).2 < s.len(),
            offsets@.len() == s.len(),
            forall|k: int|
                0 <= k < s.len() ==> (#[trigger] offsets@[k]).0 == dict_data(s, k).len()
                    && offsets@[k].1 == encode_utf8(s[k].definition).len(),
            count <= i,
            count == index_count(skeys, i as int),
            idx@ == index_bytes(s, skeys, i as int),
        decreases keys@.len() - i,
    {
        let kr = &keys[i];
        proof {
            assert(skeys[i as int] == (kr.0@, kr.1, kr.2));
            assert(skeys.contains(skeys[i as int]));
            assert(all_index_keys(s, s.len() as int, maxp).to_multiset().count(skeys[i as int])
                > 0);
            assert(all_index_keys(s, s.len() as int, maxp).contains(skeys[i as int]));
            let w = choose|w: int|
                0 <= w < all_index_keys(s, s.len() as int, maxp).len() && all_index_keys(
                    s,
                    s.len() as int,
                    maxp,
                )[w] == skeys[i as int];
            assert(skeys[i as int].2 < s.len());
        }
        let kb = kr.0.as_str().as_bytes_vec();
        if kb.len() <= 255 {
            let mut k: usize = 0;
            let ghost ipre = idx@;
            while k < kb.len()
                invariant
                    0 <= k <= kb@.len(),
                    kb@ == encode_utf8(skeys[i as int].0),
                    idx@ == ipre + kb@.take(k as int),
                decreases kb@.len() - k,
            {
                idx.push(kb[k]);
                proof {
                    assert(idx@ =~= ipre + kb@.take(k + 1));
                }
                k = k + 1;
            }
            proof {
                assert(kb@.take(kb@.len() as int) =~= kb@);
            }
            idx.push(0);
            let off = offsets[kr.2];
            let off32 = off.0 as u32;
            let len32 = off.1 as u32;
            proof {
                assert(off.0 == dict_data(s, kr.2 as int).len());
                assert(off.1 == encode_utf8(s[kr.2 as int].definition).len());
            }
            idx.push((off32 / 0x1000000) as u8);
            idx.push(((off32 / 0x10000) % 256) as u8);
            idx.push(((off32 / 0x100) % 256) as u8);
            idx.push((off32 % 256) as u8);
            idx.push((len32 / 0x1000000) as u8);
            idx.push(((len32 / 0x10000) % 256) as u8);
            idx.push(((len32 / 0x100) % 256) as u8);
            idx.push((len32 % 256) as u8);
            count = count + 1;
            proof {
                assert(idx@ =~= index_bytes(s, skeys, i as int) + index_record(
                    s,
                    skeys[i as int],
                ));
                assert(idx@ =~= index_bytes(s, skeys, i + 1));
            }
        } else {
            proof {
                assert(index_record(s, skeys[i as int]) =~= Seq::<u8>::empty());
                assert(idx@ =~= index_bytes(s, skeys, i + 1));
            }
        }
        i = i + 1;
    }

    // The metadata text.
    let mut ifo = String::new();
    ifo.append("StarDict's dict ifo file\nversion=3.0.0\nbookname=");
    ifo.append(dict_name);
    ifo.append("\nwordcount=");
    let cd = crate::text::u64_to_dec_chars(count as u64);
    let cds = crate::text::string_from_chars(&cd);
    ifo.append(cds.as_str());
    ifo.append("\nidxfilesize=");
    let sd = crate::text::u64_to_dec_chars(idx.len() as u64);
    let sds = crate::text::string_from_chars(&sd);
    ifo.append(sds.as_str());
    ifo.append("\nsametypesequence=h\nlang=ja-en\n");
    proof {
        assert(idx@.len() == index_bytes(s, skeys, skeys.len() as int).len());
        assert(ifo@ =~= spec_ifo_text(
            dict_name@,
            index_count(skeys, skeys.len() as int),
            index_bytes(s, skeys, skeys.len() as int).len(),
        ));
    }
    (data, idx, ifo)
}

} // verus!
