//! Types and functions for building the Kobo dictionary layout: the
//! weighted word list, the script-aware shard prefixes, and the merged,
//! compressed per-shard definition files.

use vstd::pervasive::VecAdditionalExecFns;
use vstd::prelude::*;

use crate::generic_dict::EntryModel;
use crate::text::{byte_len, dec_str, str_view_leq, trim_seq};

verus! {

/// One output dictionary record, as the Kobo writer consumes it.  A lower
/// priority value indicates a more common word.
#[derive(Clone, Debug)]
pub struct Entry {
    pub keys: Vec<(String, u32)>,
    pub definition: String,
}

impl DeepView for Entry {
    type V = EntryModel;

    open spec fn deep_view(&self) -> EntryModel {
        EntryModel { keys: self.keys.deep_view(), definition: self.definition@ }
    }
}

// ------------------------------------------------------------------
// The weighted word list.
/// The greater of two priorities.
pub open spec fn umax(a: u32, b: u32) -> u32 {
    if a >= b {
        a
    } else {
        b
    }
}

/// The greatest priority among the first `j` keys.
pub open spec fn keys_max(ks: Seq<(Seq<char>, u32)>, j: int) -> u32
    decreases j,
{
    if j <= 0 || j > ks.len() {
        0
    } else {
        umax(keys_max(ks, j - 1), ks[j - 1].1)
    }
}

/// The greatest key priority among the first `i` entries.
pub open spec fn entries_max(s: Seq<EntryModel>, i: int) -> u32
    decreases i,
{
    if i <= 0 || i > s.len() {
        0
    } else {
        umax(entries_max(s, i - 1), keys_max(s[i - 1].keys, s[i - 1].keys.len() as int))
    }
}

/// The greatest priority of any key of any entry.
pub open spec fn spec_max_priority(s: Seq<EntryModel>) -> u32 {
    entries_max(s, s.len() as int)
}

/// The `(key, weight)` pairs of the first `j` keys of one entry, with the
/// priority turned into a weight by subtracting it from the maximum, so
/// that a larger weight means a more common word.
pub open spec fn entry_pairs(ks: Seq<(Seq<char>, u32)>, j: int, maxp: u32) -> Seq<(Seq<char>, u32)>
    decreases j,
{
    if j <= 0 || j > ks.len() {
        Seq::<(Seq<char>, u32)>::empty()
    } else {
        entry_pairs(ks, j - 1, maxp) + seq![(ks[j - 1].0, ((maxp - ks[j - 1].1) as u32))]
    }
}

/// The `(key, weight)` pairs of the first `i` entries.
pub open spec fn all_pairs(s: Seq<EntryModel>, i: int, maxp: u32) -> Seq<(Seq<char>, u32)>
    decreases i,
{
    if i <= 0 || i > s.len() {
        Seq::<(Seq<char>, u32)>::empty()
    } else {
        all_pairs(s, i - 1, maxp) + entry_pairs(s[i - 1].keys, s[i - 1].keys.len() as int, maxp)
    }
}

/// The first position holding a key, or the length.
pub open spec fn key_index(acc: Seq<(Seq<char>, u32)>, k: Seq<char>, i: int) -> int
    decreases acc.len() - i,
{
    if i < 0 || i >= acc.len() {
        acc.len() as int
    } else if acc[i].0 == k {
        i
    } else {
        key_index(acc, k, i + 1)
    }
}

/// Files one pair into the distinct-key list: a known key keeps the larger
/// weight, a new key is appended.
pub open spec fn upsert(acc: Seq<(Seq<char>, u32)>, k: Seq<char>, w: u32) -> Seq<(Seq<char>, u32)> {
    let ix = key_index(acc, k, 0);
    if ix < acc.len() {
        acc.update(ix, (k, umax(acc[ix].1, w)))
    } else {
        acc.push((k, w))
    }
}

/// Files the first `i` pairs into the distinct-key list.
pub open spec fn fold_upsert(pairs: Seq<(Seq<char>, u32)>, i: int) -> Seq<(Seq<char>, u32)>
    decreases i,
{
    if i <= 0 || i > pairs.len() {
        Seq::<(Seq<char>, u32)>::empty()
    } else {
        upsert(fold_upsert(pairs, i - 1), pairs[i - 1].0, pairs[i - 1].1)
    }
}

/// The word-list order: key strings in byte order, weights breaking ties.
pub open spec fn word_pair_leq(a: (Seq<char>, u32), b: (Seq<char>, u32)) -> bool {
    if a.0 != b.0 {
        str_view_leq(a.0, b.0)
    } else {
        a.1 <= b.1
    }
}

/// The word-list order as a relation value.
pub open spec fn word_pair_leq_rel() -> spec_fn((Seq<char>, u32), (Seq<char>, u32)) -> bool {
    |a: (Seq<char>, u32), b: (Seq<char>, u32)| word_pair_leq(a, b)
}

/// The word list: every distinct key string with its weight (the maximum
/// over its occurrences), sorted by the word-list order.
pub open spec fn spec_word_list(s: Seq<EntryModel>) -> Seq<(Seq<char>, u32)> {
    let maxp = spec_max_priority(s);
    crate::sorting::insertion_sort_by(
        fold_upsert(all_pairs(s, s.len() as int, maxp), all_pairs(s, s.len() as int, maxp).len() as int),
        word_pair_leq_rel(),
    )
}

proof fn lemma_word_pair_leq_props()
    ensures
        vstd::relations::strongly_connected(word_pair_leq_rel()),
        vstd::relations::transitive(word_pair_leq_rel()),
{
    let r = word_pair_leq_rel();
    assert forall|a: (Seq<char>, u32), b: (Seq<char>, u32)| #[trigger] r(a, b) || #[trigger] r(
        b,
        a,
    ) by {
        crate::text::lemma_str_view_leq_connected(a.0, b.0);
        if a.0 != b.0 && str_view_leq(a.0, b.0) && str_view_leq(b.0, a.0) {
            crate::text::lemma_str_view_leq_antisymmetric(a.0, b.0);
        }
    }
    assert forall|a: (Seq<char>, u32), b: (Seq<char>, u32), c: (Seq<char>, u32)|
        #[trigger] r(a, b) && #[trigger] r(b, c) implies r(a, c) by {
        if str_view_leq(a.0, b.0) && str_view_leq(b.0, c.0) {
            crate::text::lemma_str_view_leq_transitive(a.0, b.0, c.0);
        }
        if a.0 != b.0 && b.0 == c.0 {
            assert(str_view_leq(a.0, c.0) == str_view_leq(a.0, b.0));
        }
        if a.0 == b.0 && b.0 != c.0 {
            assert(str_view_leq(a.0, c.0) == str_view_leq(b.0, c.0));
        }
        if a.0 != b.0 && b.0 != c.0 && a.0 == c.0 {
            crate::text::lemma_str_view_leq_antisymmetric(a.0, b.0);
        }
    }
}

/// Computes the greatest key priority of the entry list.
pub fn max_priority(entries: &Vec<Entry>) -> (r: u32)
    ensures
        r == spec_max_priority(entries.deep_view()),
{
    let ghost s = entries.deep_view();
    let mut m: u32 = 0;
    let mut i: usize = 0;
    while i < entries.len()
        invariant
            0 <= i <= entries@.len(),
            s == entries.deep_view(),
            s.len() == entries@.len(),
            m == entries_max(s, i as int),
        decreases entries@.len() - i,
    {
        let ks = &entries[i].keys;
        proof {
            assert(ks.deep_view() == s[i as int].keys);
        }
        let mut j: usize = 0;
        let mut km: u32 = 0;
        while j < ks.len()
            invariant
                0 <= j <= ks@.len(),
                ks.deep_view() == s[i as int].keys,
                ks@.len() == s[i as int].keys.len(),
                0 <= i < s.len(),
                km == keys_max(s[i as int].keys, j as int),
            decreases ks@.len() - j,
        {
            let p = ks[j].1;
            proof {
                assert(s[i as int].keys[j as int].1 == p);
            }
            if p > km {
                km = p;
            }
            j = j + 1;
        }
        if km > m {
            m = km;
        }
        i = i + 1;
    }
    m
}

/// Builds the weighted word list of the entry list: every distinct key
/// with the weight of its most common occurrence, sorted.
pub fn build_word_list(entries: &Vec<Entry>) -> (r: Vec<(String, u32)>)
    ensures
        r.deep_view() == spec_word_list(entries.deep_view()),
{
    let ghost s = entries.deep_view();
    let maxp = max_priority(entries);

    // Collect every (key, weight) pair in entry order.
    let mut pairs: Vec<(String, u32)> = Vec::new();
    let mut i: usize = 0;
    while i < entries.len()
        invariant
            0 <= i <= entries@.len(),
            s == entries.deep_view(),
            s.len() == entries@.len(),
            maxp == spec_max_priority(s),
            pairs@.len() == all_pairs(s, i as int, maxp).len(),
            pairs.deep_view() == all_pairs(s, i as int, maxp),
        decreases entries@.len() - i,
    {
        let ks = &entries[i].keys;
        proof {
            assert(ks.deep_view() == s[i as int].keys);
            lemma_entries_max_bounds(s, s.len() as int, i as int);
        }
        let mut j: usize = 0;
        while j < ks.len()
            invariant
                0 <= j <= ks@.len(),
                0 <= i < s.len(),
                ks.deep_view() == s[i as int].keys,
                ks@.len() == s[i as int].keys.len(),
                maxp == spec_max_priority(s),
                forall|q: int|
                    0 <= q < s[i as int].keys.len() ==> (#[trigger] s[i as int].keys[q]).1 <= maxp,
                pairs@.len() == (all_pairs(s, i as int, maxp) + entry_pairs(
                    s[i as int].keys,
                    j as int,
                    maxp,
                )).len(),
                pairs.deep_view() == all_pairs(s, i as int, maxp) + entry_pairs(
                    s[i as int].keys,
                    j as int,
                    maxp,
                ),
            decreases ks@.len() - j,
        {
            let kj = &ks[j];
            proof {
                assert(s[i as int].keys[j as int] == (kj.0@, kj.1));
                assert(kj.1 <= maxp);
            }
            let ghost ppre = pairs.deep_view();
            let ghost pv = pairs@;
            pairs.push((kj.0.clone(), maxp - kj.1));
            proof {
                assert(ppre.len() == pv.len());
                assert(pairs@ == pv.push(pairs@[pv.len() as int]));
                assert(pairs.deep_view() =~~= ppre.push(((kj.0@, ((maxp - kj.1) as u32)))));
                assert(pairs.deep_view() =~~= all_pairs(s, i as int, maxp) + entry_pairs(
                    s[i as int].keys,
                    j + 1,
                    maxp,
                ));
            }
            j = j + 1;
        }
        proof {
            assert(pairs.deep_view() =~= all_pairs(s, i + 1, maxp));
        }
        i = i + 1;
    }

    // Fold the pairs into a distinct-key list, keeping the best weight.
    let ghost ap = pairs.deep_view();
    let mut acc: Vec<(String, u32)> = Vec::new();
    let mut i: usize = 0;
    while i < pairs.len()
        invariant
            0 <= i <= pairs@.len(),
            ap == pairs.deep_view(),
            ap.len() == pairs@.len(),
            acc@.len() == fold_upsert(ap, i as int).len(),
            acc.deep_view() == fold_upsert(ap, i as int),
        decreases pairs@.len() - i,
    {
        let pi = &pairs[i];
        proof {
            assert(ap[i as int] == (pi.0@, pi.1));
        }
        let ghost apre = acc.deep_view();
        // Find the key if already present.
        let mut ix: usize = 0;
        let mut found = false;
        while ix < acc.len() && !found
            invariant
                0 <= ix <= acc@.len(),
                acc@.len() == apre.len(),
                acc.deep_view() == apre,
                found ==> 0 <= ix < apre.len() && apre[ix as int].0 == pi.0@ && key_index(
                    apre,
                    pi.0@,
                    0,
                ) == ix,
                !found ==> key_index(apre, pi.0@, 0) == key_index(apre, pi.0@, ix as int),
            decreases acc@.len() - ix + (if found {
                0int
            } else {
                1int
            }),
        {
            if acc[ix].0.eq(&pi.0) {
                found = true;
            } else {
                ix = ix + 1;
            }
        }
        if found {
            let cur = acc[ix].1;
            let w = if cur >= pi.1 {
                cur
            } else {
                pi.1
            };
            let newkey = pi.0.clone();
            acc.set(ix, (newkey, w));
            proof {
                assert(acc.deep_view() =~~= apre.update(ix as int, (pi.0@, umax(apre[ix as int].1, pi.1))));
                assert(acc.deep_view() =~~= fold_upsert(ap, i + 1));
            }
        } else {
            acc.push((pi.0.clone(), pi.1));
            proof {
                assert(key_index(apre, pi.0@, ix as int) == apre.len());
                assert(acc.deep_view() =~~= apre.push((pi.0@, pi.1)));
                assert(acc.deep_view() =~~= fold_upsert(ap, i + 1));
            }
        }
        i = i + 1;
    }

    // Sort by key, then weight.
    proof {
        lemma_word_pair_leq_props();
    }
    let wcmp = |a: &(String, u32), b: &(String, u32)| -> (res: bool)
        ensures
            res == word_pair_leq(a.deep_view(), b.deep_view()),
        {
            proof {
                assert(a.deep_view() == (a.0@, a.1));
                assert(b.deep_view() == (b.0@, b.1));
            }
            if !a.0.eq(&b.0) {
                crate::text::str_leq(a.0.as_str(), b.0.as_str())
            } else {
                a.1 <= b.1
            }
        };
    crate::sorting::sort_by_leq(&mut acc, &wcmp, Ghost(word_pair_leq_rel()));
    proof {
        assert(acc.deep_view() == spec_word_list(s));
    }
    acc
}

/// Every key priority is at most the maximum over the whole list.
pub(crate) proof fn lemma_entries_max_bounds(s: Seq<EntryModel>, i: int, e: int)
    requires
        0 <= e < i <= s.len(),
    ensures
        forall|q: int| 0 <= q < s[e].keys.len() ==> (#[trigger] s[e].keys[q]).1 <= entries_max(s, i),
    decreases i,
{
    if e == i - 1 {
        lemma_keys_max_bounds(s[e].keys, s[e].keys.len() as int);
    } else {
        lemma_entries_max_bounds(s, i - 1, e);
    }
}

proof fn lemma_keys_max_bounds(ks: Seq<(Seq<char>, u32)>, j: int)
    requires
        j <= ks.len(),
    ensures
        forall|q: int| 0 <= q < j ==> (#[trigger] ks[q]).1 <= keys_max(ks, j),
    decreases j,
{
    if j > 0 {
        lemma_keys_max_bounds(ks, j - 1);
    }
}

/// The textual word list: one `key<TAB>weight` line per word.
pub open spec fn wl_text(list: Seq<(Seq<char>, u32)>, i: int) -> Seq<char>
    decreases i,
{
    if i <= 0 || i > list.len() {
        Seq::<char>::empty()
    } else {
        wl_text(list, i - 1) + list[i - 1].0 + "\t"@ + dec_str(list[i - 1].1 as nat) + "\n"@
    }
}

/// Renders the word list as newline-separated `key<TAB>weight` lines.
pub fn word_list_text(list: &Vec<(String, u32)>) -> (r: String)
    ensures
        r@ == wl_text(list.deep_view(), list@.len() as int),
{
    let mut text = String::new();
    let mut i: usize = 0;
    while i < list.len()
        invariant
            0 <= i <= list@.len(),
            text@ == wl_text(list.deep_view(), i as int),
        decreases list@.len() - i,
    {
        let li = &list[i];
        proof {
            assert(list.deep_view()[i as int] == (li.0@, li.1));
        }
        text.append(li.0.as_str());
        text.append("\t");
        let d = crate::text::u32_to_dec_chars(li.1);
        let ds = crate::text::string_from_chars(&d);
        text.append(ds.as_str());
        text.append("\n");
        proof {
            assert(text@ =~= wl_text(list.deep_view(), i + 1));
        }
        i = i + 1;
    }
    text
}

// ------------------------------------------------------------------
// Shard prefixes.
/// The Unicode-lowercased form of a string, named after the outside
/// function that computes it.
pub uninterp spec fn lower_of(s: Seq<char>) -> Seq<char>;

/// Relies on `str::to_lowercase`: the result depends on the characters
/// alone.
#[verifier::external_body]
fn lowercase(s: &str) -> (r: String)
    ensures
        r@ == lower_of(s@),
{
    s.to_lowercase()
}

/// Whether a character is in the Unicode letter category, named after the
/// outside classification that decides it.
pub uninterp spec fn unicode_letter(c: char) -> bool;

/// Relies on `unicode_categories`' `is_letter`: the category of a
/// character depends on the character alone.
#[verifier::external_body]
fn char_is_letter(c: char) -> (r: bool)
    ensures
        r == unicode_letter(c),
{
    unicode_categories::UnicodeCategories::is_letter(c)
}

/// The shard prefix of a lowercased, trimmed key: Cyrillic and kana keep
/// two characters, CJK ideographs one, Latin-letter pairs two (padded with
/// `a` when the key is one letter), and everything else falls into the
/// catch-all `11` shard.
pub open spec fn prefix_of(t: Seq<char>) -> Seq<char> {
    if t.len() == 0 {
        "11"@
    } else {
        let u = t[0] as u32;
        let two = if t.len() >= 2 {
            t.take(2)
        } else {
            t.take(1)
        };
        if (0x0400 <= u && u <= 0x052f) || (0x2de0 <= u && u <= 0x2dff) || (0xa640 <= u && u
            <= 0xa69f) || (0x3040 <= u && u <= 0x30ff) {
            two
        } else if (0x3400 <= u && u <= 0x4dbf) || (0x4e00 <= u && u <= 0x9fff) {
            t.take(1)
        } else if unicode_letter(t[0]) {
            if t.len() == 1 {
                t.take(1) + seq!['a']
            } else if unicode_letter(t[1]) {
                t.take(2)
            } else {
                "11"@
            }
        } else {
            "11"@
        }
    }
}

/// The shard prefix of a key.
pub open spec fn spec_dictionary_prefix(key: Seq<char>) -> Seq<char> {
    prefix_of(trim_seq(lower_of(key)))
}

/// Computes the 1-2 character shard prefix a key's definitions are filed
/// under.
pub fn dictionary_prefix(key: &str) -> (r: String)
    ensures
        r@ == spec_dictionary_prefix(key@),
{
    let low = lowercase(key);
    let lc = crate::text::chars_of(low.as_str());
    let t = crate::text::trim_chars(&lc);
    if t.len() == 0 {
        return "11".to_owned();
    }
    let c0 = t[0];
    let u = c0 as u32;
    let mut two: Vec<char> = Vec::new();
    two.push(c0);
    if t.len() >= 2 {
        two.push(t[1]);
        proof {
            assert(two@ =~= t@.take(2));
        }
    } else {
        proof {
            assert(two@ =~= t@.take(1));
        }
    }
    if (u >= 0x0400 && u <= 0x052f) || (u >= 0x2de0 && u <= 0x2dff) || (u >= 0xa640 && u <= 0xa69f)
        || (u >= 0x3040 && u <= 0x30ff) {
        crate::text::string_from_chars(&two)
    } else if (u >= 0x3400 && u <= 0x4dbf) || (u >= 0x4e00 && u <= 0x9fff) {
        let mut one: Vec<char> = Vec::new();
        one.push(c0);
        proof {
            assert(one@ =~= t@.take(1));
        }
        crate::text::string_from_chars(&one)
    } else if char_is_letter(c0) {
        if t.len() == 1 {
            let mut padded: Vec<char> = Vec::new();
            padded.push(c0);
            padded.push('a');
            proof {
                assert(padded@ =~= t@.take(1) + seq!['a']);
            }
            crate::text::string_from_chars(&padded)
        } else if char_is_letter(t[1]) {
            crate::text::string_from_chars(&two)
        } else {
            "11".to_owned()
        }
    } else {
        "11".to_owned()
    }
}

// ------------------------------------------------------------------
// Shards: grouping, merging, ordering.
/// One shard item: a key, its entry's definition, and the key's priority.
pub open spec fn item_key(it: (Seq<char>, Seq<char>, u32)) -> Seq<char> {
    it.0
}

/// The shard-source items of the first `j` keys of one entry.
pub open spec fn entry_items(e: EntryModel, j: int) -> Seq<
    (Seq<char>, (Seq<char>, Seq<char>, u32)),
>
    decreases j,
{
    if j <= 0 || j > e.keys.len() {
        Seq::<(Seq<char>, (Seq<char>, Seq<char>, u32))>::empty()
    } else {
        entry_items(e, j - 1) + seq![
            (
                spec_dictionary_prefix(e.keys[j - 1].0),
                (e.keys[j - 1].0, e.definition, e.keys[j - 1].1),
            ),
        ]
    }
}

/// The shard-source items of the first `i` entries: each key of each
/// entry, tagged with its shard prefix.
pub open spec fn shard_source(s: Seq<EntryModel>, i: int) -> Seq<
    (Seq<char>, (Seq<char>, Seq<char>, u32)),
>
    decreases i,
{
    if i <= 0 || i > s.len() {
        Seq::<(Seq<char>, (Seq<char>, Seq<char>, u32))>::empty()
    } else {
        shard_source(s, i - 1) + entry_items(s[i - 1], s[i - 1].keys.len() as int)
    }
}

/// The order shard items are sorted in before merging: key strings in
/// byte order, priorities breaking ties.
pub open spec fn item_kp_leq(a: (Seq<char>, Seq<char>, u32), b: (Seq<char>, Seq<char>, u32)) -> bool {
    if a.0 != b.0 {
        str_view_leq(a.0, b.0)
    } else {
        a.2 <= b.2
    }
}

/// That order as a relation value.
pub open spec fn item_kp_leq_rel() -> spec_fn(
    (Seq<char>, Seq<char>, u32),
    (Seq<char>, Seq<char>, u32),
) -> bool {
    |a: (Seq<char>, Seq<char>, u32), b: (Seq<char>, Seq<char>, u32)| item_kp_leq(a, b)
}

/// The final order within a shard: priority ascending, then definition
/// byte length descending, so more detailed higher-priority entries come
/// first.
pub open spec fn item_pl_leq(a: (Seq<char>, Seq<char>, u32), b: (Seq<char>, Seq<char>, u32)) -> bool {
    a.2 < b.2 || (a.2 == b.2 && byte_len(a.1) >= byte_len(b.1))
}

/// That order as a relation value.
pub open spec fn item_pl_leq_rel() -> spec_fn(
    (Seq<char>, Seq<char>, u32),
    (Seq<char>, Seq<char>, u32),
) -> bool {
    |a: (Seq<char>, Seq<char>, u32), b: (Seq<char>, Seq<char>, u32)| item_pl_leq(a, b)
}

/// Merges adjacent items with the same key: their definitions are
/// concatenated and their priority becomes the better (smaller) one.
pub open spec fn merge_adjacent(s: Seq<(Seq<char>, Seq<char>, u32)>) -> Seq<
    (Seq<char>, Seq<char>, u32),
>
    decreases s.len(),
{
    if s.len() <= 1 {
        s
    } else {
        let m = merge_adjacent(s.drop_last());
        let x = s.last();
        if m.len() > 0 && m.last().0 == x.0 {
            m.update(
                m.len() - 1,
                (m.last().0, m.last().1 + x.1, (if m.last().2 <= x.2 {
                    m.last().2
                } else {
                    x.2
                })),
            )
        } else {
            m.push(x)
        }
    }
}

/// After merging, no two adjacent items share a key.
pub proof fn lemma_merge_adjacent_distinct(s: Seq<(Seq<char>, Seq<char>, u32)>)
    ensures
        forall|i: int|
            0 < i < merge_adjacent(s).len() ==> (#[trigger] merge_adjacent(s)[i]).0
                != merge_adjacent(s)[i - 1].0,
    decreases s.len(),
{
    if s.len() <= 1 {
    } else {
        lemma_merge_adjacent_distinct(s.drop_last());
        let m = merge_adjacent(s.drop_last());
        let x = s.last();
        let out = merge_adjacent(s);
        if m.len() > 0 && m.last().0 == x.0 {
            assert forall|i: int| 0 < i < out.len() implies (#[trigger] out[i]).0 != out[i - 1].0 by {
                if i < out.len() - 1 {
                    assert(out[i] == m[i] && out[i - 1] == m[i - 1]);
                } else {
                    assert(out[i].0 == m.last().0);
                    assert(out[i - 1] == m[i - 1]);
                }
            }
        } else {
            assert forall|i: int| 0 < i < out.len() implies (#[trigger] out[i]).0 != out[i - 1].0 by {
                if i < out.len() - 1 {
                    assert(out[i] == m[i] && out[i - 1] == m[i - 1]);
                } else {
                    assert(out[i] == x && out[i - 1] == m[i - 1]);
                }
            }
        }
    }
}

/// Merging a list whose adjacent items already have distinct keys leaves
/// it unchanged.
pub proof fn lemma_merge_adjacent_of_distinct(s: Seq<(Seq<char>, Seq<char>, u32)>)
    requires
        forall|i: int| 0 < i < s.len() ==> (#[trigger] s[i]).0 != s[i - 1].0,
    ensures
        merge_adjacent(s) == s,
    decreases s.len(),
{
    if s.len() <= 1 {
    } else {
        assert forall|i: int| 0 < i < s.drop_last().len() implies (#[trigger] s.drop_last()[i]).0
            != s.drop_last()[i - 1].0 by {
            assert(s.drop_last()[i] == s[i] && s.drop_last()[i - 1] == s[i - 1]);
        }
        lemma_merge_adjacent_of_distinct(s.drop_last());
        assert(merge_adjacent(s.drop_last()).push(s.last()) =~= s);
    }
}

/// Shard merging is idempotent: merging an already-merged item list again
/// changes nothing.
pub proof fn lemma_merge_adjacent_idempotent(s: Seq<(Seq<char>, Seq<char>, u32)>)
    ensures
        merge_adjacent(merge_adjacent(s)) == merge_adjacent(s),
{
    lemma_merge_adjacent_distinct(s);
    lemma_merge_adjacent_of_distinct(merge_adjacent(s));
}

/// The predicate selecting the source items of one shard.
pub open spec fn prefix_pred(p: Seq<char>) -> spec_fn((Seq<char>, (Seq<char>, Seq<char>, u32))) -> bool {
    |it: (Seq<char>, (Seq<char>, Seq<char>, u32))| it.0 == p
}

/// The payload of a source item, without its prefix tag.
pub open spec fn item_payload() -> spec_fn((Seq<char>, (Seq<char>, Seq<char>, u32))) -> (
    Seq<char>,
    Seq<char>,
    u32,
) {
    |it: (Seq<char>, (Seq<char>, Seq<char>, u32))| it.1
}

/// The item list of one shard: the source items with the shard's prefix,
/// sorted by key and priority, merged, and ordered by priority then
/// detail.
pub open spec fn spec_shard_items(s: Seq<EntryModel>, prefix: Seq<char>) -> Seq<
    (Seq<char>, Seq<char>, u32),
> {
    let mine = shard_source(s, s.len() as int).filter(prefix_pred(prefix)).map_values(
        item_payload(),
    );
    crate::sorting::insertion_sort_by(
        merge_adjacent(crate::sorting::insertion_sort_by(mine, item_kp_leq_rel())),
        item_pl_leq_rel(),
    )
}

/// The distinct shard prefixes of the entry list, sorted.
pub open spec fn spec_shard_prefixes(s: Seq<EntryModel>) -> Seq<Seq<char>> {
    crate::sorting::dedup_adjacent(
        crate::sorting::insertion_sort_by(
            shard_source(s, s.len() as int).map_values(
                |it: (Seq<char>, (Seq<char>, Seq<char>, u32))| it.0,
            ),
            crate::generic_dict::str_leq_rel(),
        ),
    )
}

proof fn lemma_item_pl_leq_props()
    ensures
        vstd::relations::strongly_connected(item_pl_leq_rel()),
        vstd::relations::transitive(item_pl_leq_rel()),
{
}

proof fn lemma_item_kp_leq_props()
    ensures
        vstd::relations::strongly_connected(item_kp_leq_rel()),
        vstd::relations::transitive(item_kp_leq_rel()),
{
    let r = item_kp_leq_rel();
    assert forall|a: (Seq<char>, Seq<char>, u32), b: (Seq<char>, Seq<char>, u32)| #[trigger] r(
        a,
        b,
    ) || #[trigger] r(b, a) by {
        crate::text::lemma_str_view_leq_connected(a.0, b.0);
    }
    assert forall|a: (Seq<char>, Seq<char>, u32), b: (Seq<char>, Seq<char>, u32), c: (
        Seq<char>,
        Seq<char>,
        u32,
    )| #[trigger] r(a, b) && #[trigger] r(b, c) implies r(a, c) by {
        if str_view_leq(a.0, b.0) && str_view_leq(b.0, c.0) {
            crate::text::lemma_str_view_leq_transitive(a.0, b.0, c.0);
        }
        if a.0 != b.0 && b.0 == c.0 {
            assert(str_view_leq(a.0, c.0) == str_view_leq(a.0, b.0));
        }
        if a.0 == b.0 && b.0 != c.0 {
            assert(str_view_leq(a.0, c.0) == str_view_leq(b.0, c.0));
        }
        if a.0 != b.0 && b.0 != c.0 && a.0 == c.0 {
            crate::text::lemma_str_view_leq_antisymmetric(a.0, b.0);
        }
    }
}

/// Builds the item lists of every shard: each shard prefix in sorted
/// order, with its merged and ordered `(key, definition, priority)` items.
#[verifier::rlimit(100)]
pub fn build_shards(entries: &Vec<Entry>) -> (r: Vec<(String, Vec<(String, String, u32)>)>)
    ensures
        r.deep_view().len() == spec_shard_prefixes(entries.deep_view()).len(),
        forall|i: int|
            0 <= i < r.deep_view().len() ==> #[trigger] r.deep_view()[i] == (
                spec_shard_prefixes(entries.deep_view())[i],
                spec_shard_items(entries.deep_view(), spec_shard_prefixes(entries.deep_view())[i]),
            ),
{
    let ghost s = entries.deep_view();

    // Tag every key of every entry with its shard prefix.
    let mut source: Vec<(String, (String, String, u32))> = Vec::new();
    let mut i: usize = 0;
    while i < entries.len()
        invariant
            0 <= i <= entries@.len(),
            s == entries.deep_view(),
            s.len() == entries@.len(),
            source@.len() == shard_source(s, i as int).len(),
            source.deep_view() == shard_source(s, i as int),
        decreases entries@.len() - i,
    {
        let e = &entries[i];
        proof {
            assert(e.deep_view() == s[i as int]);
        }
        let mut j: usize = 0;
        while j < e.keys.len()
            invariant
                0 <= j <= e.keys@.len(),
                0 <= i < s.len(),
                e.deep_view() == s[i as int],
                e.keys@.len() == s[i as int].keys.len(),
                source@.len() == (shard_source(s, i as int) + entry_items(
                    s[i as int],
                    j as int,
                )).len(),
                source.deep_view() == shard_source(s, i as int) + entry_items(
                    s[i as int],
                    j as int,
                ),
            decreases e.keys@.len() - j,
        {
            let kj = &e.keys[j];
            proof {
                assert(s[i as int].keys[j as int] == (kj.0@, kj.1));
            }
            let prefix = dictionary_prefix(kj.0.as_str());
            let ghost spre = source.deep_view();
            let ghost sv = source@;
            source.push((prefix, (kj.0.clone(), e.definition.clone(), kj.1)));
            proof {
                assert(spre.len() == sv.len());
                assert(source@ == sv.push(source@[sv.len() as int]));
                assert(source.deep_view() =~~= spre.push(
                    (
                        spec_dictionary_prefix(s[i as int].keys[j as int].0),
                        (s[i as int].keys[j as int].0, s[i as int].definition, kj.1),
                    ),
                ));
                assert(source.deep_view() =~~= shard_source(s, i as int) + entry_items(
                    s[i as int],
                    j + 1,
                ));
            }
            j = j + 1;
        }
        proof {
            assert(source.deep_view() =~= shard_source(s, i + 1));
        }
        i = i + 1;
    }
    let ghost src = source.deep_view();
    proof {
        assert(src == shard_source(s, s.len() as int));
    }

    // The sorted, distinct shard prefixes.
    let mut prefixes: Vec<String> = Vec::new();
    let mut i: usize = 0;
    while i < source.len()
        invariant
            0 <= i <= source@.len(),
            src == source.deep_view(),
            src.len() == source@.len(),
            prefixes@.len() == i,
            prefixes.deep_view() == src.take(i as int).map_values(
                |it: (Seq<char>, (Seq<char>, Seq<char>, u32))| it.0,
            ),
        decreases source@.len() - i,
    {
        let ghost prepre = prefixes.deep_view();
        let ghost prev = prefixes@;
        prefixes.push(source[i].0.clone());
        proof {
            assert(prepre.len() == prev.len());
            assert(prefixes@ == prev.push(prefixes@[prev.len() as int]));
            assert(prefixes.deep_view() =~~= prepre.push(src[i as int].0));
            assert(prefixes.deep_view() =~~= src.take(i + 1).map_values(
                |it: (Seq<char>, (Seq<char>, Seq<char>, u32))| it.0,
            ));
        }
        i = i + 1;
    }
    proof {
        assert(src.take(src.len() as int) =~= src);
        crate::generic_dict::lemma_str_leq_total();
    }
    let scmp = |a: &String, b: &String| -> (res: bool)
        ensures
            res == str_view_leq(a@, b@),
        { crate::text::str_leq(a.as_str(), b.as_str()) };
    crate::sorting::sort_by_leq(&mut prefixes, &scmp, Ghost(crate::generic_dict::str_leq_rel()));
    let seqf = |a: &String, b: &String| -> (res: bool)
        ensures
            res == (a.deep_view() == b.deep_view()),
        { a.eq(b) };
    let prefixes = crate::sorting::dedup_adjacent_by(prefixes, &seqf);
    proof {
        assert(prefixes.deep_view() == spec_shard_prefixes(s));
    }

    // Build each shard's item list.
    proof {
        lemma_item_kp_leq_props();
        lemma_item_pl_leq_props();
    }
    let mut out: Vec<(String, Vec<(String, String, u32)>)> = Vec::new();
    let mut pi: usize = 0;
    while pi < prefixes.len()
        invariant
            0 <= pi <= prefixes@.len(),
            s == entries.deep_view(),
            src == source.deep_view(),
            src.len() == source@.len(),
            src == shard_source(s, s.len() as int),
            prefixes@.len() == prefixes.deep_view().len(),
            prefixes.deep_view() == spec_shard_prefixes(s),
            out@.len() == pi,
            forall|q: int|
                0 <= q < pi ==> #[trigger] out.deep_view()[q] == (
                    spec_shard_prefixes(s)[q],
                    spec_shard_items(s, spec_shard_prefixes(s)[q]),
                ),
        decreases prefixes@.len() - pi,
    {
        let prefix = &prefixes[pi];
        proof {
            lemma_item_kp_leq_props();
            lemma_item_pl_leq_props();
        }
        let ghost pv = prefix@;
        let ghost pred = prefix_pred(pv);
        let mut mine: Vec<(String, String, u32)> = Vec::new();
        let mut k: usize = 0;
        while k < source.len()
            invariant
                0 <= k <= source@.len(),
                src == source.deep_view(),
                src.len() == source@.len(),
                pv == prefix@,
                pred == prefix_pred(pv),
                mine@.len() == src.take(k as int).filter(pred).len(),
                mine.deep_view() == src.take(k as int).filter(pred).map_values(item_payload()),
            decreases source@.len() - k,
        {
            let it = &source[k];
            proof {
                assert(src[k as int] == (it.0@, (it.1.0@, it.1.1@, it.1.2)));
            }
            let ghost mpre = mine.deep_view();
            let ghost mv = mine@;
            if it.0.eq(prefix) {
                mine.push((it.1.0.clone(), it.1.1.clone(), it.1.2));
            }
            proof {
                let ext = src.take(k + 1);
                assert(ext.drop_last() =~= src.take(k as int));
                assert(ext.last() == src[k as int]);
                reveal_with_fuel(Seq::filter, 2);
                if src[k as int].0 == pv {
                    assert(mpre.len() == mv.len());
                    assert(mine@ == mv.push(mine@[mv.len() as int]));
                    assert(mine.deep_view() =~~= mpre.push(src[k as int].1));
                    assert(ext.filter(pred) =~= src.take(k as int).filter(pred).push(
                        src[k as int],
                    ));
                    assert(mine.deep_view() =~~= ext.filter(pred).map_values(item_payload()));
                } else {
                    assert(ext.filter(pred) =~= src.take(k as int).filter(pred));
                }
            }
            k = k + 1;
        }
        let ghost mine0 = mine.deep_view();
        proof {
            assert(src.take(src.len() as int) =~= src);
            assert(mine0 == src.filter(pred).map_values(item_payload()));
        }
        // Sort by key then priority, merge equal keys, then order by
        // priority and detail.
        let kcmp = |a: &(String, String, u32), b: &(String, String, u32)| -> (res: bool)
            ensures
                res == item_kp_leq(a.deep_view(), b.deep_view()),
            {
                proof {
                    assert(a.deep_view() == (a.0@, a.1@, a.2));
                    assert(b.deep_view() == (b.0@, b.1@, b.2));
                }
                if !a.0.eq(&b.0) {
                    crate::text::str_leq(a.0.as_str(), b.0.as_str())
                } else {
                    a.2 <= b.2
                }
            };
        crate::sorting::sort_by_leq(&mut mine, &kcmp, Ghost(item_kp_leq_rel()));
        let ghost mine1 = mine.deep_view();
        proof {
            assert(mine1 == crate::sorting::insertion_sort_by(mine0, item_kp_leq_rel()));
        }
        let merged = merge_items(mine);
        let ghost mine2 = merged.deep_view();
        proof {
            assert(mine2 == merge_adjacent(mine1));
        }
        let mut shard = merged;
        let plcmp = |a: &(String, String, u32), b: &(String, String, u32)| -> (res: bool)
            ensures
                res == item_pl_leq(a.deep_view(), b.deep_view()),
            {
                proof {
                    assert(a.deep_view() == (a.0@, a.1@, a.2));
                    assert(b.deep_view() == (b.0@, b.1@, b.2));
                }
                if a.2 != b.2 {
                    a.2 < b.2
                } else {
                    let av = a.1.as_str().as_bytes_vec();
                    let bv = b.1.as_str().as_bytes_vec();
                    av.len() >= bv.len()
                }
            };
        crate::sorting::sort_by_leq(&mut shard, &plcmp, Ghost(item_pl_leq_rel()));
        proof {
            assert(shard.deep_view() == crate::sorting::insertion_sort_by(
                mine2,
                item_pl_leq_rel(),
            ));
            assert(shard.deep_view() == spec_shard_items(s, pv));
        }
        let ghost opre = out.deep_view();
        let ghost ov = out@;
        out.push((prefix.clone(), shard));
        proof {
            assert(opre.len() == ov.len());
            assert(out@ == ov.push(out@[ov.len() as int]));
            assert(out.deep_view() =~~= opre.push((pv, spec_shard_items(s, pv))));
            assert forall|q: int| 0 <= q < pi + 1 implies #[trigger] out.deep_view()[q] == (
                spec_shard_prefixes(s)[q],
                spec_shard_items(s, spec_shard_prefixes(s)[q]),
            ) by {
                if q < pi {
                    assert(out.deep_view()[q] == opre[q]);
                } else {
                    assert(out.deep_view()[q] == (pv, spec_shard_items(s, pv)));
                    assert(pv == spec_shard_prefixes(s)[pi as int]);
                }
            }
        }
        pi = pi + 1;
    }
    out
}

/// Merges adjacent items with equal keys, concatenating their definitions
/// and keeping the better priority.
fn merge_items(items: Vec<(String, String, u32)>) -> (r: Vec<(String, String, u32)>)
    ensures
        r.deep_view() == merge_adjacent(items.deep_view()),
{
    let ghost s = items.deep_view();
    let items_len = items.len();
    let mut out: Vec<(String, String, u32)> = Vec::new();
    let mut i: usize = 0;
    let mut iter = items;
    // Walk the items in order, folding each into the accumulator.
    let mut idx: usize = 0;
    while idx < items_len
        invariant
            0 <= idx <= items_len,
            iter.deep_view() == s,
            iter@.len() == items_len,
            s.len() == items_len,
            out@.len() == merge_adjacent(s.take(idx as int)).len(),
            out.deep_view() == merge_adjacent(s.take(idx as int)),
        decreases items_len - idx,
    {
        let it = &iter[idx];
        proof {
            assert(s[idx as int] == (it.0@, it.1@, it.2));
        }
        let ghost opre = out.deep_view();
        let same = if out.len() > 0 {
            out[out.len() - 1].0.eq(&it.0)
        } else {
            false
        };
        if same {
            match out.pop() {
                Some(prev) => {
                    proof {
                        assert(prev.deep_view() == opre.last());
                    }
                    let mut d = prev.1;
                    d.append(it.1.as_str());
                    let p = if prev.2 <= it.2 {
                        prev.2
                    } else {
                        it.2
                    };
                    let ghost o2 = out.deep_view();
                    let ghost o2v = out@;
                    out.push((prev.0, d, p));
                    proof {
                        assert(o2 =~= opre.drop_last());
                        assert(o2.len() == o2v.len());
                        assert(out@ == o2v.push(out@[o2v.len() as int]));
                        assert(out.deep_view() =~~= o2.push(
                            (
                                opre.last().0,
                                opre.last().1 + s[idx as int].1,
                                (if opre.last().2 <= s[idx as int].2 {
                                    opre.last().2
                                } else {
                                    s[idx as int].2
                                }),
                            ),
                        ));
                        let ext = s.take(idx + 1);
                        assert(ext.drop_last() =~= s.take(idx as int));
                        assert(ext.last() == s[idx as int]);
                        assert(out.deep_view() =~~= opre.update(
                            opre.len() - 1,
                            (
                                opre.last().0,
                                opre.last().1 + s[idx as int].1,
                                (if opre.last().2 <= s[idx as int].2 {
                                    opre.last().2
                                } else {
                                    s[idx as int].2
                                }),
                            ),
                        ));
                        assert(out.deep_view() =~~= merge_adjacent(ext));
                    }
                },
                None => {
                    proof {
                        assert(false);
                    }
                },
            }
        } else {
            let ghost ov = out@;
            out.push((it.0.clone(), it.1.clone(), it.2));
            proof {
                assert(opre.len() == ov.len());
                assert(out@ == ov.push(out@[ov.len() as int]));
                assert(out.deep_view() =~~= opre.push(s[idx as int]));
                let ext = s.take(idx + 1);
                assert(ext.drop_last() =~= s.take(idx as int));
                assert(ext.last() == s[idx as int]);
                assert(out.deep_view() =~~= merge_adjacent(ext));
            }
        }
        idx = idx + 1;
    }
    proof {
        assert(s.take(s.len() as int) =~= s);
    }
    out
}

// ------------------------------------------------------------------
// Shard HTML and compression.
/// The HTML of the first `i` items of a shard: one anchored paragraph per
/// key.
pub open spec fn shard_html_items(items: Seq<(Seq<char>, Seq<char>, u32)>, i: int) -> Seq<char>
    decreases i,
{
    if i <= 0 || i > items.len() {
        Seq::<char>::empty()
    } else {
        shard_html_items(items, i - 1) + "<w><p><a name=\""@ + items[i - 1].0 + "\" />"@
            + items[i - 1].1 + "</p></w>"@
    }
}

/// The full HTML document of a shard.
pub open spec fn spec_shard_html(items: Seq<(Seq<char>, Seq<char>, u32)>) -> Seq<char> {
    "<?xml version=\"1.0\" encoding=\"utf-8\"?><html>"@ + shard_html_items(
        items,
        items.len() as int,
    ) + "</html>"@
}

/// Renders one shard's items as its HTML document.
pub fn shard_html(items: &Vec<(String, String, u32)>) -> (r: String)
    ensures
        r@ == spec_shard_html(items.deep_view()),
{
    let mut html = String::new();
    html.append("<?xml version=\"1.0\" encoding=\"utf-8\"?><html>");
    let ghost base = html@;
    let mut i: usize = 0;
    while i < items.len()
        invariant
            0 <= i <= items@.len(),
            html@ == base + shard_html_items(items.deep_view(), i as int),
        decreases items@.len() - i,
    {
        let it = &items[i];
        proof {
            assert(items.deep_view()[i as int] == (it.0@, it.1@, it.2));
        }
        html.append("<w><p><a name=\"");
        html.append(it.0.as_str());
        html.append("\" />");
        html.append(it.1.as_str());
        html.append("</p></w>");
        proof {
            assert(html@ =~= base + shard_html_items(items.deep_view(), i + 1));
        }
        i = i + 1;
    }
    html.append("</html>");
    proof {
        assert(html@ =~= spec_shard_html(items.deep_view()));
    }
    html
}

/// The gzip stream of a byte sequence at the fast compression level,
/// named after the outside compressor that produces it.
pub uninterp spec fn gzip_of(data: Seq<u8>) -> Seq<u8>;

/// Relies on flate2's `read::GzEncoder` at `Compression::fast()`: the
/// stream it produces is a pure function of the input bytes (flate2 fixes
/// the gzip header's timestamp to zero and its operating-system byte to a
/// constant for cross-platform reproducibility), and reading from an
/// in-memory slice cannot fail.
#[verifier::external_body]
fn gzip_bytes(data: &Vec<u8>) -> (r: Vec<u8>)
    ensures
        r@ == gzip_of(data@),
{
    let mut gz = flate2::read::GzEncoder::new(&data[..], flate2::Compression::fast());
    let mut out = Vec::new();
    std::io::Read::read_to_end(&mut gz, &mut out).unwrap();
    out
}

/// Builds every shard file of the archive: for each shard prefix in
/// sorted order, its file name and the gzip-compressed bytes of its HTML
/// document.
pub fn shard_files(entries: &Vec<Entry>) -> (r: Vec<(String, Vec<u8>)>)
    ensures
        r.deep_view().len() == spec_shard_prefixes(entries.deep_view()).len(),
        forall|i: int|
            0 <= i < r.deep_view().len() ==> #[trigger] r.deep_view()[i] == (
                spec_shard_prefixes(entries.deep_view())[i] + ".html"@,
                gzip_of(
                    vstd::utf8::encode_utf8(
                        spec_shard_html(
                            spec_shard_items(
                                entries.deep_view(),
                                spec_shard_prefixes(entries.deep_view())[i],
                            ),
                        ),
                    ),
                ),
            ),
{
    let ghost s = entries.deep_view();
    let shards = build_shards(entries);
    let mut out: Vec<(String, Vec<u8>)> = Vec::new();
    let mut i: usize = 0;
    while i < shards.len()
        invariant
            0 <= i <= shards@.len(),
            s == entries.deep_view(),
            shards@.len() == shards.deep_view().len(),
            shards.deep_view().len() == spec_shard_prefixes(s).len(),
            forall|q: int|
                0 <= q < shards.deep_view().len() ==> #[trigger] shards.deep_view()[q] == (
                    spec_shard_prefixes(s)[q],
                    spec_shard_items(s, spec_shard_prefixes(s)[q]),
                ),
            out@.len() == i,
            forall|q: int|
                0 <= q < i ==> #[trigger] out.deep_view()[q] == (
                    spec_shard_prefixes(s)[q] + ".html"@,
                    gzip_of(
                        vstd::utf8::encode_utf8(
                            spec_shard_html(spec_shard_items(s, spec_shard_prefixes(s)[q])),
                        ),
                    ),
                ),
        decreases shards@.len() - i,
    {
        let sh = &shards[i];
        proof {
            assert(shards.deep_view()[i as int] == (sh.0.deep_view(), sh.1.deep_view()));
            assert(sh.0@ == spec_shard_prefixes(s)[i as int]);
            assert(sh.1.deep_view() == spec_shard_items(s, spec_shard_prefixes(s)[i as int]));
        }
        let mut name = sh.0.clone();
        name.append(".html");
        let html = shard_html(&sh.1);
        let bytes = html.as_str().as_bytes_vec();
        let gz = gzip_bytes(&bytes);
        let ghost opre = out.deep_view();
        let ghost ov = out@;
        out.push((name, gz));
        proof {
            assert(opre.len() == ov.len());
            assert(out@ == ov.push(out@[ov.len() as int]));
            assert forall|q: int| 0 <= q < i + 1 implies #[trigger] out.deep_view()[q] == (
                spec_shard_prefixes(s)[q] + ".html"@,
                gzip_of(
                    vstd::utf8::encode_utf8(
                        spec_shard_html(spec_shard_items(s, spec_shard_prefixes(s)[q])),
                    ),
                ),
            ) by {
                if q < i {
                    assert(out.deep_view()[q] == opre[q]);
                } else {
                    assert(out.deep_view()[q] == (
                        spec_shard_prefixes(s)[q] + ".html"@,
                        gzip_of(
                            vstd::utf8::encode_utf8(
                                spec_shard_html(spec_shard_items(s, spec_shard_prefixes(s)[q])),
                            ),
                        ),
                    ));
                }
            }
        }
        i = i + 1;
    }
    out
}

} // verus!
