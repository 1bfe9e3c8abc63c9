//! Histogram bounds of a column.
//!
//! Segments hold about equally many rows, so their smallest values, in order, are
//! about equi-depth bucket boundaries.

use vstd::prelude::*;
use crate::pg_types::{
    DATEOID, FLOAT4OID, FLOAT8OID, INT2OID, INT4OID, INT8OID, TIMESTAMPOID, TIMESTAMPTZOID,
};
use crate::sorting::{ascending, lemma_ascending, lemma_ascending_holds, sort_ints};

verus! {

/// The most bounds that a histogram gets: those of 100 buckets.
pub const MAX_HISTOGRAM_BOUNDS: usize = 101;

pub const DAY_USEC: i64 = 86_400_000_000;

/// A smallest and a largest value.
#[derive(Clone, Copy, Debug, PartialEq, Eq, Structural)]
pub struct Range {
    pub lo: i64,
    pub hi: i64,
}

/// Types whose values are stored as integers in the same order.
pub open spec fn has_histogram(t: u32) -> bool {
    t == INT2OID || t == INT4OID || t == INT8OID || t == FLOAT4OID || t == FLOAT8OID || t
        == TIMESTAMPOID || t == TIMESTAMPTZOID || t == DATEOID
}

/// The day of a time, counted from 1970 towards and away from zero alike.
pub open spec fn day(v: i64) -> int {
    if v >= 0 {
        v as int / DAY_USEC as int
    } else {
        -((-v) as int / DAY_USEC as int)
    }
}

/// What tells two values of a type apart: for dates, the day.
pub open spec fn key(t: u32, v: i64) -> int {
    if t == DATEOID {
        day(v)
    } else {
        v as int
    }
}

fn day_of(v: i64) -> (r: i64)
    ensures
        r == day(v),
{
    if v >= 0 {
        v / DAY_USEC
    } else {
        let m: i128 = -(v as i128);
        let d: i128 = m / 86_400_000_000;
        -(d as i64)
    }
}

fn key_of(t: u32, v: i64) -> (r: i64)
    ensures
        r == key(t, v),
{
    if t == DATEOID {
        day_of(v)
    } else {
        v
    }
}

/// Whether values of this type have a histogram.
pub fn histogram_type_eligible(type_oid: u32) -> (r: bool)
    ensures
        r == has_histogram(type_oid),
{
    type_oid == INT2OID || type_oid == INT4OID || type_oid == INT8OID || type_oid == FLOAT4OID
        || type_oid == FLOAT8OID || type_oid == TIMESTAMPOID || type_oid == TIMESTAMPTZOID
        || type_oid == DATEOID
}

/// Whether a column with these extremes has a histogram: its type has one and
/// its values are not all alike. Dates are compared by the day.
pub fn histogram_eligible(type_oid: u32, lo: i64, hi: i64) -> (r: bool)
    ensures
        r == (has_histogram(type_oid) && key(type_oid, lo) < key(type_oid, hi)),
{
    histogram_type_eligible(type_oid) && key_of(type_oid, lo) < key_of(type_oid, hi)
}

/// `s` without those values that have the key of the value kept before them.
pub open spec fn without_repeats(t: u32, s: Seq<i64>) -> Seq<i64>
    decreases s.len(),
{
    if s.len() == 0 {
        s
    } else {
        let kept = without_repeats(t, s.drop_last());
        if kept.len() > 0 && key(t, kept.last()) == key(t, s.last()) {
            kept
        } else {
            kept.push(s.last())
        }
    }
}

fn drop_repeats(t: u32, list: &Vec<i64>) -> (r: Vec<i64>)
    ensures
        r@ == without_repeats(t, list@),
{
    let mut out: Vec<i64> = Vec::new();
    let mut i: usize = 0;
    assert(list@.subrange(0, 0) =~= Seq::<i64>::empty());
    while i < list.len()
        invariant
            i <= list.len(),
            out@ == without_repeats(t, list@.subrange(0, i as int)),
        decreases list.len() - i,
    {
        let n: usize = out.len();
        assert(list@.subrange(0, i + 1).drop_last() =~= list@.subrange(0, i as int));
        if n == 0 || key_of(t, out[n - 1]) != key_of(t, list[i]) {
            out.push(list[i]);
        }
        i += 1;
    }
    assert(list@.subrange(0, i as int) =~= list@);
    out
}

/// `count` values of `s` at even distances, the first and the last among them.
pub open spec fn spread(s: Seq<i64>, count: int) -> Seq<i64> {
    Seq::new(count as nat, |i: int| s[i * (s.len() - 1) / (count - 1)])
}

pub open spec fn downsampled(s: Seq<i64>, max_bounds: int) -> Seq<i64> {
    if s.len() <= max_bounds || max_bounds < 2 {
        s
    } else {
        without_repeats(INT8OID, spread(s, max_bounds))
    }
}

proof fn lemma_spread_index(n: int, count: int, i: int)
    requires
        2 <= count < n,
        0 <= i < count,
    ensures
        0 <= i * (n - 1) / (count - 1) < n,
        i == 0 ==> i * (n - 1) / (count - 1) == 0,
        i == count - 1 ==> i * (n - 1) / (count - 1) == n - 1,
        i > 0 ==> (i - 1) * (n - 1) / (count - 1) < i * (n - 1) / (count - 1),
{
    let q = count - 1;
    let p = n - 1;
    assert(0 <= i * p <= q * p) by (nonlinear_arith)
        requires
            0 <= i <= q,
            p > 0,
    ;
    vstd::arithmetic::div_mod::lemma_div_multiples_vanish(p, q);
    assert(q * p == p * q) by (nonlinear_arith);
    vstd::arithmetic::div_mod::lemma_div_is_ordered(i * p, q * p, q);
    vstd::arithmetic::div_mod::lemma_div_is_ordered(0, i * p, q);
    if i > 0 {
        assert((i - 1) * p + q <= i * p) by (nonlinear_arith)
            requires
                q <= p,
        ;
        vstd::arithmetic::div_mod::lemma_div_is_ordered((i - 1) * p + q, i * p, q);
        vstd::arithmetic::div_mod::lemma_div_plus_one((i - 1) * p, q);
    }
}

/// At most `max_bounds` of the given bounds, at even distances, the first and
/// the last among them.
pub fn downsample_bounds(bounds: Vec<i64>, max_bounds: usize) -> (r: Vec<i64>)
    ensures
        r@ == downsampled(bounds@, max_bounds as int),
{
    let n: usize = bounds.len();
    if n <= max_bounds || max_bounds < 2 {
        return bounds;
    }
    let mut out: Vec<i64> = Vec::new();
    let mut i: usize = 0;
    while i < max_bounds
        invariant
            i <= max_bounds,
            2 <= max_bounds < n == bounds@.len(),
            out@.len() == i,
            forall|k: int| 0 <= k < i ==> out@[k] == spread(bounds@, max_bounds as int)[k],
        decreases max_bounds - i,
    {
        proof {
            lemma_spread_index(n as int, max_bounds as int, i as int);
            assert(0 <= i * (n - 1) <= u128::MAX) by (nonlinear_arith)
                requires
                    0 <= i <= 0xffff_ffff_ffff_ffff,
                    0 < n <= 0xffff_ffff_ffff_ffff,
            ;
        }
        let at: u128 = (i as u128) * ((n - 1) as u128) / ((max_bounds - 1) as u128);
        out.push(bounds[at as usize]);
        i += 1;
    }
    assert(out@ =~= spread(bounds@, max_bounds as int));
    drop_repeats(INT8OID, &out)
}

/// The histogram of the two extremes alone.
pub open spec fn two_points(t: u32, lo: i64, hi: i64) -> Option<Seq<i64>> {
    if has_histogram(t) && key(t, lo) < key(t, hi) {
        Some(seq![lo, hi])
    } else {
        None
    }
}

pub open spec fn opt_ints(v: Option<Vec<i64>>) -> Option<Seq<i64>> {
    match v {
        Some(l) => Some(l@),
        None => None,
    }
}

fn build_two_point(type_oid: u32, lo: i64, hi: i64) -> (r: Option<Vec<i64>>)
    ensures
        opt_ints(r) == two_points(type_oid, lo, hi),
{
    if histogram_eligible(type_oid, lo, hi) {
        let out = vec![lo, hi];
        assert(out@ =~= seq![lo, hi]);
        Some(out)
    } else {
        None
    }
}

/// Whether the smallest values of the segments span at least half of what the
/// column spans. They do where the column is about sorted on disk.
pub open spec fn well_distributed(sorted: Seq<i64>, global_max: i64) -> bool {
    2 * (sorted.last() - sorted[0]) >= global_max - sorted[0]
}

/// The bounds of a histogram made of smallest values and the largest value of
/// all. A column that is not sorted on disk has its two extremes.
pub open spec fn histogram_bounds(
    t: u32,
    mins: Seq<i64>,
    global_max: i64,
    max_bounds: int,
) -> Option<Seq<i64>> {
    let sorted = ascending(mins);
    if !has_histogram(t) || mins.len() == 0 || global_max <= sorted[0] {
        None
    } else if !well_distributed(sorted, global_max) {
        two_points(t, sorted[0], global_max)
    } else {
        let distinct = without_repeats(t, ascending(sorted.push(global_max)));
        if distinct.len() < 2 {
            None
        } else {
            Some(downsampled(distinct, max_bounds))
        }
    }
}

/// Histogram bounds from the smallest values of segments and the largest value
/// of the column.
pub fn build_histogram_bounds(
    type_oid: u32,
    mins: &Vec<i64>,
    global_max: i64,
    max_bounds: usize,
) -> (r: Option<Vec<i64>>)
    ensures
        opt_ints(r) == histogram_bounds(type_oid, mins@, global_max, max_bounds as int),
{
    if !histogram_type_eligible(type_oid) || mins.len() == 0 {
        return None;
    }
    let mut sorted = sort_ints(mins);
    proof {
        lemma_ascending(mins@);
    }
    let lo: i64 = sorted[0];
    let largest_min: i64 = sorted[sorted.len() - 1];
    let range: i128 = (global_max as i128) - (lo as i128);
    if range <= 0 {
        return None;
    }
    if ((largest_min as i128) - (lo as i128)) * 2 < range {
        return build_two_point(type_oid, lo, global_max);
    }
    sorted.push(global_max);
    let distinct = drop_repeats(type_oid, &sort_ints(&sorted));
    if distinct.len() < 2 {
        return None;
    }
    Some(downsample_bounds(distinct, max_bounds))
}

pub open spec fn lows(ranges: Seq<Range>) -> Seq<i64> {
    Seq::new(ranges.len(), |i: int| ranges[i].lo)
}

/// The largest of the upper ends.
pub open spec fn largest_hi(ranges: Seq<Range>) -> i64
    decreases ranges.len(),
{
    if ranges.len() == 0 {
        i64::MIN
    } else {
        let m = largest_hi(ranges.drop_last());
        if ranges.last().hi >= m {
            ranges.last().hi
        } else {
            m
        }
    }
}

/// The largest upper end, and the least integer where there is none.
pub fn max_hi(ranges: &[Range]) -> (r: i64)
    ensures
        r == largest_hi(ranges@),
{
    let mut m: i64 = i64::MIN;
    let mut i: usize = 0;
    assert(ranges@.subrange(0, 0) =~= Seq::<Range>::empty());
    while i < ranges.len()
        invariant
            i <= ranges.len(),
            m == largest_hi(ranges@.subrange(0, i as int)),
        decreases ranges.len() - i,
    {
        assert(ranges@.subrange(0, i + 1).drop_last() =~= ranges@.subrange(0, i as int));
        if ranges[i].hi >= m {
            m = ranges[i].hi;
        }
        i += 1;
    }
    assert(ranges@.subrange(0, i as int) =~= ranges@);
    m
}

/// The bounds of a table's histogram made of its partitions' extremes.
pub open spec fn parent_bounds(t: u32, ranges: Seq<Range>) -> Option<Seq<i64>> {
    let bounds = without_repeats(t, ascending(lows(ranges)).push(largest_hi(ranges)));
    if has_histogram(t) && ranges.len() > 0 && bounds.len() >= 2 {
        Some(bounds)
    } else {
        None
    }
}

/// Histogram bounds of a table from the extremes of its partitions: the smallest
/// values in order, and the largest of all.
pub fn parent_histogram_bounds(type_oid: u32, ranges: &[Range]) -> (r: Option<Vec<i64>>)
    ensures
        opt_ints(r) == parent_bounds(type_oid, ranges@),
{
    if !histogram_type_eligible(type_oid) || ranges.len() == 0 {
        return None;
    }
    let mut bounds: Vec<i64> = Vec::new();
    let mut i: usize = 0;
    while i < ranges.len()
        invariant
            i <= ranges.len(),
            bounds@.len() == i,
            forall|k: int| 0 <= k < i ==> bounds@[k] == ranges@[k].lo,
        decreases ranges.len() - i,
    {
        bounds.push(ranges[i].lo);
        i += 1;
    }
    assert(bounds@ =~= lows(ranges@));
    let mut sorted = sort_ints(&bounds);
    sorted.push(max_hi(ranges));
    let distinct = drop_repeats(type_oid, &sorted);
    if distinct.len() >= 2 {
        Some(distinct)
    } else {
        None
    }
}

// ---------------------------------------------------------------------------
// Laws
// ---------------------------------------------------------------------------

pub open spec fn keys_ascend(t: u32, s: Seq<i64>) -> bool {
    forall|i: int, j: int| 0 <= i < j < s.len() ==> #[trigger] key(t, s[i]) < #[trigger] key(t, s[j])
}

pub open spec fn ascends(s: Seq<i64>) -> bool {
    forall|i: int, j: int| 0 <= i <= j < s.len() ==> #[trigger] s[i] <= #[trigger] s[j]
}

proof fn lemma_key_monotone(t: u32, a: i64, b: i64)
    requires
        a <= b,
    ensures
        key(t, a) <= key(t, b),
{
}

/// What dropping repeats from values in order leaves: values in strict order,
/// the first of all first, and one with the key of the last of all last.
proof fn lemma_without_repeats(t: u32, s: Seq<i64>)
    requires
        ascends(s),
    ensures
        ({
            let r = without_repeats(t, s);
            &&& keys_ascend(t, r)
            &&& ascends(r)
            &&& r.len() <= s.len()
            &&& s.len() > 0 ==> r.len() > 0 && r[0] == s[0] && key(t, r.last()) == key(t, s.last())
                && r.last() <= s.last()
        }),
    decreases s.len(),
{
    if s.len() > 0 {
        let h = s.drop_last();
        assert forall|i: int, j: int| 0 <= i <= j < h.len() implies #[trigger] h[i] <= #[trigger] h[j] by {
            assert(s[i] <= s[j]);
        }
        lemma_without_repeats(t, h);
        let kept = without_repeats(t, h);
        let r = without_repeats(t, s);
        if h.len() > 0 {
            assert(h.last() == s[s.len() - 2]);
            assert(s[s.len() - 2] <= s[s.len() - 1]);
            lemma_key_monotone(t, kept.last(), s.last());
        }
        if kept.len() > 0 && key(t, kept.last()) == key(t, s.last()) {
        } else {
            assert forall|i: int, j: int| 0 <= i < j < r.len() implies #[trigger] key(t, r[i])
                < #[trigger] key(t, r[j]) by {
                if j < kept.len() {
                    assert(key(t, kept[i]) < key(t, kept[j]));
                } else if i < kept.len() - 1 {
                    assert(key(t, kept[i]) < key(t, kept[kept.len() - 1]));
                }
            }
            assert forall|i: int, j: int| 0 <= i <= j < r.len() implies #[trigger] r[i]
                <= #[trigger] r[j] by {
                if j < kept.len() {
                    assert(kept[i] <= kept[j]);
                } else if i < kept.len() {
                    assert(kept[i] <= kept[kept.len() - 1]);
                }
            }
        }
    }
}

/// Thinning out values in strict order keeps the order, the first and the last,
/// and leaves no more than asked for.
pub proof fn lemma_downsampled(t: u32, s: Seq<i64>, max_bounds: int)
    requires
        keys_ascend(t, s),
        ascends(s),
        s.len() >= 2,
        max_bounds >= 2,
    ensures
        ({
            let r = downsampled(s, max_bounds);
            &&& 2 <= r.len() <= max_bounds
            &&& r[0] == s[0]
            &&& r.last() == s.last()
            &&& keys_ascend(t, r)
        }),
{
    if s.len() > max_bounds {
        let p = spread(s, max_bounds);
        let n = s.len() as int;
        assert forall|i: int, j: int| 0 <= i < j < p.len() implies #[trigger] key(t, p[i])
            < #[trigger] key(t, p[j]) by {
            lemma_spread_order(n, max_bounds, i, j);
            lemma_spread_index(n, max_bounds, i);
            lemma_spread_index(n, max_bounds, j);
            assert(key(t, s[i * (n - 1) / (max_bounds - 1)]) < key(
                t,
                s[j * (n - 1) / (max_bounds - 1)],
            ));
        }
        lemma_spread_index(n, max_bounds, 0);
        lemma_spread_index(n, max_bounds, max_bounds - 1);
        lemma_nothing_repeats(t, p);
    }
}

proof fn lemma_spread_order(n: int, count: int, i: int, j: int)
    requires
        2 <= count < n,
        0 <= i < j < count,
    ensures
        i * (n - 1) / (count - 1) < j * (n - 1) / (count - 1),
    decreases j - i,
{
    lemma_spread_index(n, count, j);
    if i < j - 1 {
        lemma_spread_order(n, count, i, j - 1);
    }
}

/// Values with strictly ascending keys hold no repeats.
proof fn lemma_nothing_repeats(t: u32, s: Seq<i64>)
    requires
        keys_ascend(t, s),
    ensures
        without_repeats(INT8OID, s) == s,
    decreases s.len(),
{
    if s.len() > 0 {
        let h = s.drop_last();
        assert forall|i: int, j: int| 0 <= i < j < h.len() implies #[trigger] key(t, h[i])
            < #[trigger] key(t, h[j]) by {
            assert(key(t, s[i]) < key(t, s[j]));
        }
        lemma_nothing_repeats(t, h);
        if h.len() > 0 {
            assert(key(t, s[s.len() - 2]) < key(t, s[s.len() - 1]));
            assert(h.last() != s.last());
        }
        assert(h.push(s.last()) =~= s);
    }
}

/// A histogram's bounds are at least two and at most as many as asked for, they
/// are in strict order, and the first is the smallest value of all.
pub proof fn lemma_histogram_ascends(t: u32, mins: Seq<i64>, global_max: i64, max_bounds: int)
    requires
        max_bounds >= 2,
    ensures
        match histogram_bounds(t, mins, global_max, max_bounds) {
            Some(b) => {
                &&& 2 <= b.len() <= max_bounds
                &&& keys_ascend(t, b)
                &&& b[0] == ascending(mins)[0]
                &&& key(t, b.last()) >= key(t, global_max)
            },
            None => true,
        },
{
    let sorted = ascending(mins);
    lemma_ascending(mins);
    if has_histogram(t) && mins.len() > 0 && global_max > sorted[0] {
        if well_distributed(sorted, global_max) {
            let pushed = sorted.push(global_max);
            let all = ascending(pushed);
            lemma_ascending(pushed);
            lemma_without_repeats(t, all);
            lemma_least_first(sorted, global_max);
            let distinct = without_repeats(t, all);
            lemma_key_monotone(t, global_max, all.last());
            if distinct.len() >= 2 {
                lemma_downsampled(t, distinct, max_bounds);
            }
        }
    }
}

/// Adding a larger value to values in order leaves the first first, and puts it
/// before the last.
proof fn lemma_least_first(sorted: Seq<i64>, v: i64)
    requires
        ascends(sorted),
        sorted.len() > 0,
        v > sorted[0],
    ensures
        ascending(sorted.push(v))[0] == sorted[0],
        ascending(sorted.push(v)).last() >= v,
{
    let p = sorted.push(v);
    let a = ascending(p);
    lemma_ascending(p);
    assert(p.contains(p[0]));
    lemma_ascending_holds(p, p[0]);
    let k = choose|k: int| 0 <= k < a.len() && a[k] == p[0];
    assert(a[0] <= a[k]);
    assert(p[p.len() - 1] == v);
    assert(p.contains(v));
    lemma_ascending_holds(p, v);
    let m = choose|m: int| 0 <= m < a.len() && a[m] == v;
    assert(a[m] <= a[a.len() - 1]);
    assert(a.contains(a[0]));
    lemma_ascending_holds(p, a[0]);
    let i = choose|i: int| 0 <= i < p.len() && p[i] == a[0];
    if i < sorted.len() {
        assert(sorted[0] <= sorted[i]);
    }
}

/// A table's histogram, of partitions whose smallest value is not above their
/// largest, has bounds in strict order.
pub proof fn lemma_parent_ascends(t: u32, ranges: Seq<Range>)
    requires
        forall|i: int| 0 <= i < ranges.len() ==> (#[trigger] ranges[i]).lo <= ranges[i].hi,
    ensures
        match parent_bounds(t, ranges) {
            Some(b) => b.len() >= 2 && keys_ascend(t, b) && key(t, b.last()) == key(
                t,
                largest_hi(ranges),
            ),
            None => true,
        },
{
    let l = lows(ranges);
    let s = ascending(l);
    let m = largest_hi(ranges);
    lemma_ascending(l);
    let p = s.push(m);
    assert forall|i: int, j: int| 0 <= i <= j < p.len() implies #[trigger] p[i] <= #[trigger] p[j] by {
        if i < s.len() && j == s.len() {
            assert(s.contains(s[i]));
            lemma_ascending_holds(l, s[i]);
            let k = choose|k: int| 0 <= k < l.len() && l[k] == s[i];
            lemma_largest_hi(ranges, k);
            assert(ranges[k].lo <= ranges[k].hi);
        }
    }
    lemma_without_repeats(t, p);
}

proof fn lemma_largest_hi(ranges: Seq<Range>, k: int)
    requires
        0 <= k < ranges.len(),
    ensures
        ranges[k].hi <= largest_hi(ranges),
    decreases ranges.len(),
{
    if k < ranges.len() - 1 {
        lemma_largest_hi(ranges.drop_last(), k);
        assert(ranges.drop_last()[k] == ranges[k]);
    }
}

} // verus!
