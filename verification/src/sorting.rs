//! Generic, comparator-driven insertion sort and adjacent de-duplication
//! over vectors, specified against the elements' deep views.

use vstd::multiset::Multiset;
use vstd::prelude::*;
use vstd::relations::{sorted_by, strongly_connected, transitive};
use vstd::seq_lib::lemma_multiset_commutative;

verus! {

broadcast use vstd::seq_lib::group_to_multiset_ensures;

/// Removes the element at one position of a sequence and re-inserts it
/// elsewhere without changing the multiset of elements.
proof fn lemma_insert_to_multiset<A>(s: Seq<A>, j: int, x: A)
    requires
        0 <= j <= s.len(),
    ensures
        s.insert(j, x).to_multiset() == s.to_multiset().insert(x),
{
    broadcast use vstd::multiset::group_multiset_axioms;

    let a = s.subrange(0, j);
    let b = s.subrange(j, s.len() as int);
    assert(s =~= a + b);
    assert(s.insert(j, x) =~= a + (seq![x] + b));
    lemma_multiset_commutative(a, b);
    lemma_multiset_commutative(a, seq![x] + b);
    lemma_multiset_commutative(seq![x], b);
    assert(seq![x] =~= Seq::<A>::empty().push(x));
    assert(Seq::<A>::empty().push(x).to_multiset() =~= Multiset::<A>::empty().insert(x));
    assert(s.insert(j, x).to_multiset() =~= s.to_multiset().insert(x));
}

/// Inserts an element into a sequence after every leading element that is
/// at most the new one: the insertion step of a stable insertion sort.
pub open spec fn ordered_insert<A>(s: Seq<A>, x: A, leq: spec_fn(A, A) -> bool) -> Seq<A>
    decreases s.len(),
{
    if s.len() == 0 {
        seq![x]
    } else if leq(s[0], x) {
        seq![s[0]] + ordered_insert(s.drop_first(), x, leq)
    } else {
        seq![x] + s
    }
}

/// A stable insertion sort: elements the order ranks equally keep their
/// relative position.
pub open spec fn insertion_sort_by<A>(s: Seq<A>, leq: spec_fn(A, A) -> bool) -> Seq<A>
    decreases s.len(),
{
    if s.len() == 0 {
        s
    } else {
        ordered_insert(insertion_sort_by(s.drop_last(), leq), s.last(), leq)
    }
}

/// The insertion step places the element exactly at the first position
/// whose occupant is not at most the new one.
pub proof fn lemma_ordered_insert_at<A>(s: Seq<A>, x: A, leq: spec_fn(A, A) -> bool, j: int)
    requires
        0 <= j <= s.len(),
        forall|m: int| 0 <= m < j ==> leq(#[trigger] s[m], x),
        j < s.len() ==> !leq(s[j], x),
    ensures
        ordered_insert(s, x, leq) == s.insert(j, x),
    decreases s.len(),
{
    if s.len() == 0 {
        assert(ordered_insert(s, x, leq) =~= s.insert(0, x));
    } else if j == 0 {
        assert(!leq(s[0], x));
        assert(ordered_insert(s, x, leq) =~= s.insert(0, x));
    } else {
        assert(leq(s[0], x));
        assert forall|m: int| 0 <= m < j - 1 implies leq(#[trigger] s.drop_first()[m], x) by {
            assert(s.drop_first()[m] == s[m + 1]);
        }
        assert(j - 1 < s.drop_first().len() ==> !leq(s.drop_first()[j - 1], x));
        lemma_ordered_insert_at(s.drop_first(), x, leq, j - 1);
        assert(seq![s[0]] + s.drop_first().insert(j - 1, x) =~= s.insert(j, x));
    }
}

/// What the insertion step guarantees: the result stays sorted and gains
/// exactly the new element.
pub proof fn lemma_ordered_insert_ensures<A>(s: Seq<A>, x: A, leq: spec_fn(A, A) -> bool)
    requires
        sorted_by(s, leq),
        strongly_connected(leq),
        transitive(leq),
    ensures
        sorted_by(ordered_insert(s, x, leq), leq),
        ordered_insert(s, x, leq).to_multiset() == s.to_multiset().insert(x),
        ordered_insert(s, x, leq).len() == s.len() + 1,
{
    // Find the first non-fitting index.
    let k = first_not_leq(s, x, leq, 0);
    lemma_first_not_leq(s, x, leq, 0);
    lemma_ordered_insert_at(s, x, leq, k);
    assert(ordered_insert(s, x, leq) == s.insert(k, x));
    lemma_insert_to_multiset(s, k, x);
    let out = s.insert(k, x);
    assert forall|p: int, q: int| 0 <= p < q < out.len() implies leq(
        #[trigger] out[p],
        #[trigger] out[q],
    ) by {
        if p < k && q == k {
            assert(out[p] == s[p] && out[q] == x);
        } else if p == k && q > k {
            assert(out[p] == x && out[q] == s[q - 1]);
            assert(k < s.len() && !leq(s[k], x));
            assert(leq(x, s[k]));
            if q - 1 > k {
                assert(leq(s[k], s[q - 1]));
            }
        } else if p < k && q > k {
            assert(out[p] == s[p] && out[q] == s[q - 1]);
            if q - 1 == p {
                assert(p < k && k <= q - 1);
                assert(false);
            }
        } else if p < k && q < k {
            assert(out[p] == s[p] && out[q] == s[q]);
        } else {
            assert(p > k && q > k);
            assert(out[p] == s[p - 1] && out[q] == s[q - 1]);
        }
    }
}

/// The first index whose element is not at most `x`, or the length.
spec fn first_not_leq<A>(s: Seq<A>, x: A, leq: spec_fn(A, A) -> bool, i: int) -> int
    decreases s.len() - i,
{
    if i < 0 || i >= s.len() {
        s.len() as int
    } else if !leq(s[i], x) {
        i
    } else {
        first_not_leq(s, x, leq, i + 1)
    }
}

proof fn lemma_first_not_leq<A>(s: Seq<A>, x: A, leq: spec_fn(A, A) -> bool, i: int)
    requires
        0 <= i <= s.len(),
        forall|m: int| 0 <= m < i ==> leq(#[trigger] s[m], x),
    ensures
        i <= first_not_leq(s, x, leq, i) <= s.len(),
        forall|m: int| 0 <= m < first_not_leq(s, x, leq, i) ==> leq(#[trigger] s[m], x),
        first_not_leq(s, x, leq, i) < s.len() ==> !leq(s[first_not_leq(s, x, leq, i)], x),
    decreases s.len() - i,
{
    if i < s.len() && leq(s[i], x) {
        lemma_first_not_leq(s, x, leq, i + 1);
    }
}

/// What a stable insertion sort guarantees: the result is sorted and holds
/// the same elements.
pub proof fn lemma_insertion_sort_by_ensures<A>(s: Seq<A>, leq: spec_fn(A, A) -> bool)
    requires
        strongly_connected(leq),
        transitive(leq),
    ensures
        sorted_by(insertion_sort_by(s, leq), leq),
        insertion_sort_by(s, leq).to_multiset() == s.to_multiset(),
        insertion_sort_by(s, leq).len() == s.len(),
    decreases s.len(),
{
    if s.len() == 0 {
    } else {
        lemma_insertion_sort_by_ensures(s.drop_last(), leq);
        lemma_ordered_insert_ensures(insertion_sort_by(s.drop_last(), leq), s.last(), leq);
        assert(s.drop_last().to_multiset().insert(s.last()) =~= s.to_multiset()) by {
            assert(s.drop_last().push(s.last()) =~= s);
        }
    }
}

/// A stable insertion sort holds an element exactly when its input does.
pub proof fn lemma_insertion_sort_by_contains<A>(s: Seq<A>, leq: spec_fn(A, A) -> bool, x: A)
    requires
        strongly_connected(leq),
        transitive(leq),
    ensures
        insertion_sort_by(s, leq).contains(x) <==> s.contains(x),
{
    lemma_insertion_sort_by_ensures(s, leq);
    assert(s.contains(x) <==> s.to_multiset().count(x) > 0);
    assert(insertion_sort_by(s, leq).contains(x) <==> insertion_sort_by(s, leq).to_multiset().count(
        x,
    ) > 0);
}

/// Sorts the vector so that its deep view is exactly the stable insertion
/// sort of the input by `leq`; the exec closure `cmp` decides `leq` on the
/// views of two elements.
pub(crate) fn sort_by_leq<T: DeepView, F: Fn(&T, &T) -> bool>(
    v: &mut Vec<T>,
    cmp: &F,
    Ghost(leq): Ghost<spec_fn(T::V, T::V) -> bool>,
)
    requires
        strongly_connected(leq),
        transitive(leq),
        forall|x: &T, y: &T| #[trigger] cmp.requires((x, y)),
        forall|x: &T, y: &T, r: bool|
            #[trigger] cmp.ensures((x, y), r) ==> r == leq(x.deep_view(), y.deep_view()),
    ensures
        final(v).deep_view() == insertion_sort_by(old(v).deep_view(), leq),
        final(v).deep_view().to_multiset() == old(v).deep_view().to_multiset(),
        sorted_by(final(v).deep_view(), leq),
{
    let ghost orig: Seq<T::V> = v.deep_view();
    proof {
        lemma_insertion_sort_by_ensures(orig, leq);
    }
    if v.len() < 2 {
        proof {
            if orig.len() == 1 {
                assert(orig.drop_last().len() == 0);
                assert(insertion_sort_by(orig.drop_last(), leq) == orig.drop_last());
                assert(ordered_insert(orig.drop_last(), orig.last(), leq) =~= seq![orig.last()]);
                assert(insertion_sort_by(orig, leq) =~= orig);
            }
        }
        return ;
    }
    proof {
        let t1 = orig.take(1);
        assert(t1.drop_last().len() == 0);
        assert(insertion_sort_by(t1.drop_last(), leq) == t1.drop_last());
        assert(ordered_insert(t1.drop_last(), t1.last(), leq) =~= seq![t1.last()]);
        assert(insertion_sort_by(t1, leq) =~= t1);
        assert(insertion_sort_by(orig.take(1), leq) + orig.skip(1) =~= orig);
    }
    let mut i: usize = 1;
    while i < v.len()
        invariant
            1 <= i <= v@.len(),
            v@.len() == orig.len(),
            strongly_connected(leq),
            transitive(leq),
            forall|x: &T, y: &T| #[trigger] cmp.requires((x, y)),
            forall|x: &T, y: &T, r: bool|
                #[trigger] cmp.ensures((x, y), r) ==> r == leq(x.deep_view(), y.deep_view()),
            v.deep_view() == insertion_sort_by(orig.take(i as int), leq) + orig.skip(i as int),
        decreases v@.len() - i,
    {
        let ghost pre: Seq<T::V> = insertion_sort_by(orig.take(i as int), leq);
        let ghost s0: Seq<T::V> = v.deep_view();
        proof {
            lemma_insertion_sort_by_ensures(orig.take(i as int), leq);
            assert(pre.len() == i);
            assert(s0[i as int] == orig.skip(i as int)[0]);
            assert(s0[i as int] == orig[i as int]);
        }
        let x = v.remove(i);
        let ghost dvx: T::V = x.deep_view();
        let ghost s1: Seq<T::V> = v.deep_view();
        proof {
            assert(s1 =~= s0.remove(i as int));
            assert(dvx == orig[i as int]);
            assert(forall|k: int| 0 <= k < i ==> s1[k] == pre[k]);
        }
        let mut j: usize = 0;
        while j < i && cmp(&v[j], &x)
            invariant
                0 <= j <= i,
                i < v@.len() + 1,
                v.deep_view() == s1,
                i <= s1.len(),
                forall|x0: &T, y0: &T| #[trigger] cmp.requires((x0, y0)),
                forall|x0: &T, y0: &T, r: bool|
                    #[trigger] cmp.ensures((x0, y0), r) ==> r == leq(
                        x0.deep_view(),
                        y0.deep_view(),
                    ),
                x.deep_view() == dvx,
                forall|k: int| 0 <= k < j ==> leq(#[trigger] s1[k], dvx),
            decreases i - j,
        {
            j = j + 1;
        }
        proof {
            if j < i {
                assert(!leq(s1[j as int], dvx));
            }
        }
        v.insert(j, x);
        proof {
            let s2 = v.deep_view();
            assert(s2 =~= s1.insert(j as int, dvx));
            assert forall|m: int| 0 <= m < j implies leq(#[trigger] pre[m], dvx) by {
                assert(pre[m] == s1[m]);
            }
            assert(j < i ==> !leq(pre[j as int], dvx));
            lemma_ordered_insert_at(pre, dvx, leq, j as int);
            assert(ordered_insert(pre, dvx, leq) == pre.insert(j as int, dvx));
            assert(orig.take(i + 1).drop_last() =~= orig.take(i as int));
            assert(orig.take(i + 1).last() == orig[i as int]);
            assert(insertion_sort_by(orig.take(i + 1), leq) == ordered_insert(pre, dvx, leq));
            assert(s2 =~= pre.insert(j as int, dvx) + orig.skip(i + 1));
        }
        i = i + 1;
    }
    proof {
        assert(orig.take(orig.len() as int) =~= orig);
        assert(orig.skip(orig.len() as int).len() == 0);
        assert(insertion_sort_by(orig, leq) + orig.skip(orig.len() as int) =~= insertion_sort_by(
            orig,
            leq,
        ));
    }
}

/// Inserting an element no smaller than every element of a sequence
/// appends it.
proof fn lemma_ordered_insert_at_end<A>(s: Seq<A>, x: A, leq: spec_fn(A, A) -> bool)
    requires
        forall|m: int| 0 <= m < s.len() ==> leq(#[trigger] s[m], x),
    ensures
        ordered_insert(s, x, leq) == s.push(x),
{
    lemma_ordered_insert_at(s, x, leq, s.len() as int);
    assert(s.insert(s.len() as int, x) =~= s.push(x));
}

/// Sorting an already-sorted sequence leaves it unchanged.
pub proof fn lemma_insertion_sort_of_sorted<A>(s: Seq<A>, leq: spec_fn(A, A) -> bool)
    requires
        sorted_by(s, leq),
    ensures
        insertion_sort_by(s, leq) == s,
    decreases s.len(),
{
    if s.len() == 0 {
    } else {
        assert forall|i: int, j: int| 0 <= i < j < s.drop_last().len() implies leq(
            #[trigger] s.drop_last()[i],
            #[trigger] s.drop_last()[j],
        ) by {
            assert(s.drop_last()[i] == s[i] && s.drop_last()[j] == s[j]);
        }
        lemma_insertion_sort_of_sorted(s.drop_last(), leq);
        assert forall|m: int| 0 <= m < s.drop_last().len() implies leq(
            #[trigger] s.drop_last()[m],
            s.last(),
        ) by {
            assert(s.drop_last()[m] == s[m]);
        }
        lemma_ordered_insert_at_end(s.drop_last(), s.last(), leq);
        assert(s.drop_last().push(s.last()) =~= s);
    }
}

/// A stable insertion sort is idempotent: sorting its result again
/// changes nothing.
pub proof fn lemma_insertion_sort_idempotent<A>(s: Seq<A>, leq: spec_fn(A, A) -> bool)
    requires
        strongly_connected(leq),
        transitive(leq),
    ensures
        insertion_sort_by(insertion_sort_by(s, leq), leq) == insertion_sort_by(s, leq),
{
    lemma_insertion_sort_by_ensures(s, leq);
    lemma_insertion_sort_of_sorted(insertion_sort_by(s, leq), leq);
}

/// Membership carries from the left half into a concatenation.
pub proof fn lemma_contains_add_left<A>(a: Seq<A>, b: Seq<A>, x: A)
    requires
        a.contains(x),
    ensures
        (a + b).contains(x),
{
    let j = choose|j: int| 0 <= j < a.len() && a[j] == x;
    assert((a + b)[j] == x);
}

/// Membership carries from the right half into a concatenation.
pub proof fn lemma_contains_add_right<A>(a: Seq<A>, b: Seq<A>, x: A)
    requires
        b.contains(x),
    ensures
        (a + b).contains(x),
{
    let j = choose|j: int| 0 <= j < b.len() && b[j] == x;
    assert((a + b)[a.len() + j] == x);
}

/// Positions in the sequence carry pairwise distinct decorations.
pub open spec fn distinct_decorations<T>(s: Seq<T>, dec: spec_fn(T) -> int) -> bool {
    forall|i: int, j: int| 0 <= i < j < s.len() ==> dec(#[trigger] s[i]) != dec(#[trigger] s[j])
}

/// Two sequences sorted by an order that is antisymmetric up to a
/// decoration, holding the same elements with pairwise distinct
/// decorations, are equal.  This pins down a stable sort: decorating each
/// element with its input position makes the sorted sequence unique.
pub proof fn lemma_sorted_unique_decorated<T>(
    x: Seq<T>,
    y: Seq<T>,
    leq: spec_fn(T, T) -> bool,
    dec: spec_fn(T) -> int,
)
    requires
        sorted_by(x, leq),
        sorted_by(y, leq),
        x.to_multiset() == y.to_multiset(),
        distinct_decorations(x, dec),
        strongly_connected(leq),
        forall|a: T, b: T| #[trigger] leq(a, b) && #[trigger] leq(b, a) ==> dec(a) == dec(b),
    ensures
        x =~= y,
    decreases x.len(),
{
    broadcast use vstd::seq_lib::group_to_multiset_ensures;

    if x.len() == 0 || y.len() == 0 {
        assert(x.to_multiset().len() == x.len());
        assert(y.to_multiset().len() == y.len());
    } else {
        assert(y.contains(y[0]));
        assert(x.to_multiset().count(y[0]) > 0);
        assert(x.contains(y[0]));
        let k = choose|k: int| 0 <= k < x.len() && x[k] == y[0];
        assert(x.contains(x[0]));
        assert(y.to_multiset().count(x[0]) > 0);
        assert(y.contains(x[0]));
        let m = choose|m: int| 0 <= m < y.len() && y[m] == x[0];
        if x[0] != y[0] {
            assert(k != 0);
            assert(m != 0);
            assert(leq(x[0], x[k]));
            assert(leq(y[0], y[m]));
            assert(leq(x[0], y[0]) && leq(y[0], x[0]));
            assert(dec(x[0]) == dec(y[0]));
            assert(dec(x[0]) != dec(x[k]));
            assert(false);
        }
        assert(x.drop_first() =~= x.remove(0));
        assert(y.drop_first() =~= y.remove(0));
        assert(x.remove(0).to_multiset() =~= x.to_multiset().remove(x[0]));
        assert(y.remove(0).to_multiset() =~= y.to_multiset().remove(y[0]));
        assert(sorted_by(x.drop_first(), leq)) by {
            assert forall|i: int, j: int| 0 <= i < j < x.drop_first().len() implies leq(
                #[trigger] x.drop_first()[i],
                #[trigger] x.drop_first()[j],
            ) by {
                assert(x.drop_first()[i] == x[i + 1] && x.drop_first()[j] == x[j + 1]);
            }
        }
        assert(sorted_by(y.drop_first(), leq)) by {
            assert forall|i: int, j: int| 0 <= i < j < y.drop_first().len() implies leq(
                #[trigger] y.drop_first()[i],
                #[trigger] y.drop_first()[j],
            ) by {
                assert(y.drop_first()[i] == y[i + 1] && y.drop_first()[j] == y[j + 1]);
            }
        }
        assert(distinct_decorations(x.drop_first(), dec)) by {
            assert forall|i: int, j: int| 0 <= i < j < x.drop_first().len() implies dec(
                #[trigger] x.drop_first()[i],
            ) != dec(#[trigger] x.drop_first()[j]) by {
                assert(x.drop_first()[i] == x[i + 1] && x.drop_first()[j] == x[j + 1]);
            }
        }
        lemma_sorted_unique_decorated(x.drop_first(), y.drop_first(), leq, dec);
        assert forall|i: int| 0 <= i < x.len() implies x[i] == y[i] by {
            if i > 0 {
                assert(x.drop_first()[i - 1] == y.drop_first()[i - 1]);
            }
        }
    }
}

/// Each element paired with its position.
pub open spec fn decorate<T>(s: Seq<T>) -> Seq<(usize, T)> {
    Seq::new(s.len(), |i: int| (i as usize, s[i]))
}

/// The decoration of a position-decorated element.
pub open spec fn pair_dec<T>() -> spec_fn((usize, T)) -> int {
    |p: (usize, T)| p.0 as int
}

/// Any permutation of a position-decorated sequence has pairwise distinct
/// decorations.
pub proof fn lemma_perm_of_decorate_distinct<T>(z: Seq<(usize, T)>, s: Seq<T>)
    requires
        z.to_multiset() == decorate(s).to_multiset(),
        s.len() <= usize::MAX,
    ensures
        distinct_decorations(z, pair_dec()),
{
    broadcast use vstd::seq_lib::group_to_multiset_ensures;
    broadcast use vstd::multiset::group_multiset_axioms;

    let d = decorate(s);
    assert forall|i: int, j: int| 0 <= i < j < z.len() implies pair_dec::<T>()(#[trigger] z[i])
        != pair_dec::<T>()(#[trigger] z[j]) by {
        assert(z.contains(z[i]));
        assert(d.to_multiset().count(z[i]) > 0);
        assert(d.contains(z[i]));
        let p1 = choose|p: int| 0 <= p < d.len() && d[p] == z[i];
        assert(z.contains(z[j]));
        assert(d.to_multiset().count(z[j]) > 0);
        assert(d.contains(z[j]));
        let p2 = choose|p: int| 0 <= p < d.len() && d[p] == z[j];
        assert(z[i].0 == p1 && z[j].0 == p2);
        if z[i].0 == z[j].0 {
            assert(p1 == p2);
            assert(z[i] == z[j]);
            // The same pair would then occur twice in `z` but only once in
            // the decoration.
            assert(z.remove(i).to_multiset() =~= z.to_multiset().remove(z[i]));
            assert(z.remove(i)[j - 1] == z[j]);
            assert(z.remove(i).contains(z[i]));
            assert(z.remove(i).to_multiset().count(z[i]) > 0);
            assert(z.to_multiset().remove(z[i]).count(z[i]) > 0);
            assert(z.to_multiset().count(z[i]) >= 2);
            assert(d.to_multiset().count(z[i]) >= 2);
            assert(d.remove(p1).to_multiset() =~= d.to_multiset().remove(d[p1]));
            assert(d.remove(p1).to_multiset().count(z[i]) > 0);
            assert(d.remove(p1).contains(z[i]));
            let q = choose|q: int| 0 <= q < d.remove(p1).len() && d.remove(p1)[q] == z[i];
            if q < p1 {
                assert(d[q] == z[i]);
                assert(d[q].0 == q);
                assert(false);
            } else {
                assert(d[q + 1] == z[i]);
                assert(d[q + 1].0 == q + 1);
                assert(false);
            }
        }
    }
}

/// The sequence with runs of equal adjacent elements collapsed to their
/// first element.
pub open spec fn dedup_adjacent<A>(s: Seq<A>) -> Seq<A>
    decreases s.len(),
{
    if s.len() <= 1 {
        s
    } else {
        let pre = dedup_adjacent(s.drop_last());
        if s[s.len() - 1] == s[s.len() - 2] {
            pre
        } else {
            pre.push(s.last())
        }
    }
}

/// De-duplication never loses or invents elements: membership is kept.
pub proof fn lemma_dedup_adjacent_contains<A>(s: Seq<A>, x: A)
    ensures
        dedup_adjacent(s).contains(x) <==> s.contains(x),
    decreases s.len(),
{
    if s.len() <= 1 {
    } else {
        lemma_dedup_adjacent_contains(s.drop_last(), x);
        let pre = dedup_adjacent(s.drop_last());
        assert(forall|y: A| s.drop_last().contains(y) ==> s.contains(y));
        if s[s.len() - 1] == s[s.len() - 2] {
            assert(s.contains(x) ==> dedup_adjacent(s).contains(x)) by {
                if s.contains(x) {
                    let k = choose|k: int| 0 <= k < s.len() && s[k] == x;
                    if k == s.len() - 1 {
                        assert(s.drop_last()[s.len() - 2] == x);
                        assert(s.drop_last().contains(x));
                    } else {
                        assert(s.drop_last()[k] == x);
                        assert(s.drop_last().contains(x));
                    }
                }
            }
        } else {
            assert(s.contains(x) ==> dedup_adjacent(s).contains(x)) by {
                if s.contains(x) {
                    let k = choose|k: int| 0 <= k < s.len() && s[k] == x;
                    if k == s.len() - 1 {
                        assert(dedup_adjacent(s).last() == x);
                        assert(dedup_adjacent(s).contains(x));
                    } else {
                        assert(s.drop_last()[k] == x);
                        assert(s.drop_last().contains(x));
                        assert(pre.contains(x));
                        let m = choose|m: int| 0 <= m < pre.len() && pre[m] == x;
                        assert(dedup_adjacent(s)[m] == x);
                    }
                }
            }
            assert(dedup_adjacent(s).contains(x) ==> s.contains(x)) by {
                if dedup_adjacent(s).contains(x) {
                    let m = choose|m: int|
                        0 <= m < dedup_adjacent(s).len() && dedup_adjacent(s)[m] == x;
                    if m == dedup_adjacent(s).len() - 1 {
                        assert(s.last() == x);
                    } else {
                        assert(pre[m] == x);
                        assert(pre.contains(x));
                    }
                }
            }
        }
    }
}

/// Removes adjacent elements with equal deep views, keeping the first of
/// each run; the exec closure `eqf` decides equality of views.
pub(crate) fn dedup_adjacent_by<T: DeepView, F: Fn(&T, &T) -> bool>(v: Vec<T>, eqf: &F) -> (r: Vec<
    T,
>)
    requires
        forall|x: &T, y: &T| #[trigger] eqf.requires((x, y)),
        forall|x: &T, y: &T, b: bool|
            #[trigger] eqf.ensures((x, y), b) ==> b == (x.deep_view() == y.deep_view()),
    ensures
        r.deep_view() == dedup_adjacent(v.deep_view()),
{
    let ghost s: Seq<T::V> = v.deep_view();
    let mut w = v;
    let mut kept: Vec<T> = Vec::new();
    loop
        invariant
            forall|x: &T, y: &T| #[trigger] eqf.requires((x, y)),
            forall|x: &T, y: &T, b: bool|
                #[trigger] eqf.ensures((x, y), b) ==> b == (x.deep_view() == y.deep_view()),
            dedup_adjacent(s) == dedup_adjacent(w.deep_view()) + kept.deep_view().reverse(),
        ensures
            w@.len() == 0,
        decreases w@.len(),
    {
        let ghost p: Seq<T::V> = w.deep_view();
        let ghost k0: Seq<T::V> = kept.deep_view();
        match w.pop() {
            None => {
                break ;
            },
            Some(x) => {
                let ghost dvx: T::V = x.deep_view();
                proof {
                    assert(w.deep_view() =~= p.drop_last());
                    assert(p.last() == dvx);
                }
                let keep: bool = if w.len() == 0 {
                    true
                } else {
                    !eqf(&w[w.len() - 1], &x)
                };
                if keep {
                    proof {
                        if p.len() >= 2 {
                            assert(p[p.len() - 2] == w.deep_view()[p.len() - 2]);
                            assert(p[p.len() - 1] != p[p.len() - 2]);
                            assert(dedup_adjacent(p) == dedup_adjacent(p.drop_last()).push(dvx));
                        } else {
                            assert(p =~= seq![dvx]);
                            assert(dedup_adjacent(p) == p);
                            assert(dedup_adjacent(p.drop_last()).push(dvx) =~= p);
                        }
                    }
                    kept.push(x);
                    proof {
                        assert(kept.deep_view() =~= k0.push(dvx));
                        assert(k0.push(dvx).reverse() =~= seq![dvx] + k0.reverse());
                        assert(dedup_adjacent(p.drop_last()).push(dvx) + k0.reverse()
                            =~= dedup_adjacent(p.drop_last()) + (seq![dvx] + k0.reverse()));
                    }
                } else {
                    proof {
                        assert(p.len() >= 2);
                        assert(p[p.len() - 2] == w.deep_view()[p.len() - 2]);
                        assert(p[p.len() - 1] == p[p.len() - 2]);
                        assert(dedup_adjacent(p) == dedup_adjacent(p.drop_last()));
                    }
                }
            },
        }
    }
    proof {
        assert(w.deep_view().len() == 0);
        assert(dedup_adjacent(w.deep_view()) + kept.deep_view().reverse()
            =~= kept.deep_view().reverse());
    }
    // Pop the kept elements back off into input order.
    let mut r: Vec<T> = Vec::new();
    loop
        invariant
            r.deep_view() + kept.deep_view().reverse() == dedup_adjacent(s),
        ensures
            kept@.len() == 0,
        decreases kept@.len(),
    {
        let ghost kpre: Seq<T::V> = kept.deep_view();
        let ghost rpre: Seq<T::V> = r.deep_view();
        match kept.pop() {
            None => {
                break ;
            },
            Some(x) => {
                r.push(x);
                proof {
                    let dvx = x.deep_view();
                    assert(kept.deep_view() =~= kpre.drop_last());
                    assert(r.deep_view() =~= rpre.push(dvx));
                    assert(kpre.reverse() =~= seq![dvx] + kpre.drop_last().reverse());
                    assert(rpre.push(dvx) + kpre.drop_last().reverse() =~= rpre + kpre.reverse());
                }
            },
        }
    }
    proof {
        assert(r.deep_view() + kept.deep_view().reverse() =~= r.deep_view());
    }
    r
}

} // verus!
