//! Stable sorting by insertion.

use vstd::prelude::*;

verus! {

/// `e` placed behind the last element of `s` that does not come after it.
pub open spec fn placed<A>(s: Seq<A>, e: A, leq: spec_fn(A, A) -> bool) -> Seq<A>
    decreases s.len(),
{
    if s.len() == 0 || leq(s.last(), e) {
        s.push(e)
    } else {
        placed(s.drop_last(), e, leq).push(s.last())
    }
}

/// The elements of `s` in the order `leq`; those that `leq` does not tell apart
/// stay in the order they had.
pub open spec fn ordered<A>(s: Seq<A>, leq: spec_fn(A, A) -> bool) -> Seq<A>
    decreases s.len(),
{
    if s.len() == 0 {
        s
    } else {
        placed(ordered(s.drop_last(), leq), s.last(), leq)
    }
}

pub open spec fn is_ordered<A>(s: Seq<A>, leq: spec_fn(A, A) -> bool) -> bool {
    forall|i: int, j: int| 0 <= i <= j < s.len() ==> #[trigger] leq(s[i], s[j])
}

/// Whether `leq` is reflexive and transitive and compares any two.
pub open spec fn is_order<A>(leq: spec_fn(A, A) -> bool) -> bool {
    &&& forall|a: A, b: A| #[trigger] leq(a, b) || leq(b, a)
    &&& forall|a: A, b: A, c: A| #[trigger] leq(a, b) && #[trigger] leq(b, c) ==> leq(a, c)
}

/// Where `e` goes, once its place is known.
pub proof fn lemma_placed_at<A>(s: Seq<A>, e: A, leq: spec_fn(A, A) -> bool, k: int)
    requires
        0 <= k <= s.len(),
        k == 0 || leq(s[k - 1], e),
        forall|i: int| k <= i < s.len() ==> !#[trigger] leq(s[i], e),
    ensures
        placed(s, e, leq) == s.insert(k, e),
    decreases s.len(),
{
    if k < s.len() {
        let t = s.drop_last();
        assert(!leq(s[s.len() - 1], e));
        assert forall|i: int| k <= i < t.len() implies !#[trigger] leq(t[i], e) by {
            assert(t[i] == s[i]);
        }
        lemma_placed_at(t, e, leq, k);
        assert(t.insert(k, e).push(s.last()) =~= s.insert(k, e));
    } else {
        assert(s.push(e) =~= s.insert(k, e));
    }
}

proof fn lemma_placed<A>(s: Seq<A>, e: A, leq: spec_fn(A, A) -> bool)
    requires
        is_order(leq),
        is_ordered(s, leq),
    ensures
        is_ordered(placed(s, e, leq), leq),
        placed(s, e, leq).len() == s.len() + 1,
        placed(s, e, leq).to_multiset() == s.to_multiset().insert(e),
        forall|x: A| #[trigger] placed(s, e, leq).contains(x) ==> s.contains(x) || x == e,
    decreases s.len(),
{
    broadcast use vstd::seq_lib::group_to_multiset_ensures;

    let p = placed(s, e, leq);
    if s.len() == 0 || leq(s.last(), e) {
        assert forall|i: int, j: int| 0 <= i <= j < p.len() implies #[trigger] leq(p[i], p[j]) by {
            if j < s.len() {
                assert(leq(s[i], s[j]));
            } else if i < s.len() {
                assert(leq(s[i], s[s.len() - 1]));
            } else {
                assert(leq(e, e) || leq(e, e));
            }
        }
        assert forall|x: A| #[trigger] p.contains(x) implies s.contains(x) || x == e by {
            let i = choose|i: int| 0 <= i < p.len() && p[i] == x;
            if i < s.len() {
                assert(s[i] == x);
            }
        }
    } else {
        let t = s.drop_last();
        assert forall|i: int, j: int| 0 <= i <= j < t.len() implies #[trigger] leq(t[i], t[j]) by {
            assert(leq(s[i], s[j]));
        }
        lemma_placed(t, e, leq);
        let q = placed(t, e, leq);
        assert(s == t.push(s.last()));
        assert(s.to_multiset().insert(e) =~= t.to_multiset().insert(e).insert(s.last()));
        assert forall|i: int, j: int| 0 <= i <= j < p.len() implies #[trigger] leq(p[i], p[j]) by {
            if j < q.len() {
                assert(leq(q[i], q[j]));
            } else if i < q.len() {
                assert(q.contains(q[i]));
                if t.contains(q[i]) {
                    let k = choose|k: int| 0 <= k < t.len() && t[k] == q[i];
                    assert(leq(s[k], s[s.len() - 1]));
                } else {
                    assert(leq(s.last(), e) || leq(e, s.last()));
                }
            } else {
                assert(leq(s.last(), s.last()) || leq(s.last(), s.last()));
            }
        }
        assert forall|x: A| #[trigger] p.contains(x) implies s.contains(x) || x == e by {
            let i = choose|i: int| 0 <= i < p.len() && p[i] == x;
            if i < q.len() {
                assert(q.contains(x));
                if t.contains(x) {
                    let k = choose|k: int| 0 <= k < t.len() && t[k] == x;
                    assert(s[k] == x);
                }
            } else {
                assert(s[s.len() - 1] == x);
            }
        }
    }
}

/// Sorting sorts, and keeps every element.
pub proof fn lemma_ordered<A>(s: Seq<A>, leq: spec_fn(A, A) -> bool)
    requires
        is_order(leq),
    ensures
        is_ordered(ordered(s, leq), leq),
        ordered(s, leq).len() == s.len(),
        ordered(s, leq).to_multiset() == s.to_multiset(),
    decreases s.len(),
{
    broadcast use vstd::seq_lib::group_to_multiset_ensures;

    if s.len() > 0 {
        lemma_ordered(s.drop_last(), leq);
        lemma_placed(ordered(s.drop_last(), leq), s.last(), leq);
        assert(s == s.drop_last().push(s.last()));
    }
}

/// The order of the integers.
pub open spec fn int_order() -> spec_fn(i64, i64) -> bool {
    |a: i64, b: i64| a <= b
}

/// Integers in ascending order.
pub open spec fn ascending(s: Seq<i64>) -> Seq<i64> {
    ordered(s, int_order())
}

/// Ascending order is ascending, and holds the same integers.
pub proof fn lemma_ascending(s: Seq<i64>)
    ensures
        forall|i: int, j: int| 0 <= i <= j < s.len() ==> ascending(s)[i] <= ascending(s)[j],
        ascending(s).len() == s.len(),
        ascending(s).to_multiset() == s.to_multiset(),
{
    let a = ascending(s);
    lemma_ordered(s, int_order());
    assert forall|i: int, j: int| 0 <= i <= j < s.len() implies a[i] <= a[j] by {
        assert(int_order()(a[i], a[j]));
    }
}

/// Ascending order holds an integer where the unsorted sequence does.
pub proof fn lemma_ascending_holds(s: Seq<i64>, v: i64)
    ensures
        ascending(s).contains(v) == s.contains(v),
{
    broadcast use vstd::seq_lib::group_to_multiset_ensures;

    lemma_ascending(s);
    assert(s.contains(v) <==> s.to_multiset().count(v) > 0);
    assert(ascending(s).contains(v) <==> ascending(s).to_multiset().count(v) > 0);
}

/// Adds an integer at its place.
pub fn place_int(list: &mut Vec<i64>, v: i64)
    ensures
        final(list)@ == placed(old(list)@, v, int_order()),
{
    let ghost all = list@;
    let mut k: usize = list.len();
    while k > 0 && list[k - 1] > v
        invariant
            k <= list.len(),
            list@ == all,
            forall|i: int| k <= i < all.len() ==> !int_order()(all[i], v),
        decreases k,
    {
        k -= 1;
    }
    proof {
        lemma_placed_at(all, v, int_order(), k as int);
    }
    list.insert(k, v);
}

/// Sorts integers in ascending order.
pub fn sort_ints(list: &Vec<i64>) -> (r: Vec<i64>)
    ensures
        r@ == ascending(list@),
{
    let mut out: Vec<i64> = Vec::new();
    let mut i: usize = 0;
    assert(list@.subrange(0, 0) =~= Seq::<i64>::empty());
    while i < list.len()
        invariant
            i <= list.len(),
            out@ == ascending(list@.subrange(0, i as int)),
        decreases list.len() - i,
    {
        place_int(&mut out, list[i]);
        i += 1;
        assert(list@.subrange(0, i as int).drop_last() =~= list@.subrange(0, i - 1));
    }
    assert(list@.subrange(0, i as int) =~= list@);
    out
}

} // verus!
