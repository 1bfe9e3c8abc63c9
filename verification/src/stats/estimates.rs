//! Widths, distinct counts and sizes.

use vstd::prelude::*;
use crate::pg_types::{BPCHAROID, CHAROID, NAMEOID, TEXTOID, VARCHAROID};
use crate::sorting::{lemma_ordered, lemma_placed_at, ordered, placed};
use crate::stats::bounds::Range;

verus! {

/// A column of a relation, as the catalog describes it.
pub struct AttrInfo {
    pub attname: String,
    pub attnum: i16,
    /// Bytes of a value, or a negative number where that varies.
    pub attlen: i16,
    pub atttypid: u32,
    pub attnotnull: bool,
}

/// The width assumed where a column's values vary in width.
pub const DEFAULT_WIDTH: i32 = 32;

/// Bytes of a page.
pub const PAGE_BYTES: i64 = 8192;

pub open spec fn is_text_oid(t: u32) -> bool {
    t == TEXTOID || t == VARCHAROID || t == BPCHAROID || t == NAMEOID || t == CHAROID
}

/// Whether a type's values are kept as text, and so can be listed as most common
/// values.
pub fn is_text_type(type_oid: u32) -> (r: bool)
    ensures
        r == is_text_oid(type_oid),
{
    type_oid == TEXTOID || type_oid == VARCHAROID || type_oid == BPCHAROID || type_oid == NAMEOID
        || type_oid == CHAROID
}

// ---------------------------------------------------------------------------
// Widths
// ---------------------------------------------------------------------------

pub open spec fn width_of_attlen(attlen: i16) -> int {
    if attlen > 0 {
        attlen as int
    } else {
        DEFAULT_WIDTH as int
    }
}

/// The width of a column by its declared length alone.
pub fn stawidth_for_attlen(attlen: i16) -> (r: i32)
    ensures
        r == width_of_attlen(attlen),
{
    if attlen > 0 {
        attlen as i32
    } else {
        DEFAULT_WIDTH
    }
}

/// What the segments of a column add up to.
#[derive(Clone, Copy, Debug, PartialEq, Eq, Structural)]
pub struct ColumnSums {
    /// Rows that are not null.
    pub nonnull: i64,
    /// Characters of all values, where the column is text.
    pub length: i64,
}

/// `a / b`, to the nearest integer, halves upwards.
pub open spec fn rounded_div(a: int, b: int) -> int {
    (2 * a + b) / (2 * b)
}

/// The width of a text whose average length is `avg`: short ones have a header of
/// one byte, long ones of four.
pub open spec fn text_width(avg: int) -> int {
    let w = avg + if avg < 127 {
        1int
    } else {
        4
    };
    if w < i32::MAX {
        w
    } else {
        i32::MAX as int
    }
}

/// The average width of a column's values.
pub open spec fn column_width(attlen: i16, type_oid: u32, sums: Option<ColumnSums>) -> int {
    if attlen > 0 {
        attlen as int
    } else {
        match sums {
            Some(s) => if is_text_oid(type_oid) && s.nonnull > 0 && s.length > 0 {
                text_width(rounded_div(s.length as int, s.nonnull as int))
            } else {
                DEFAULT_WIDTH as int
            },
            None => DEFAULT_WIDTH as int,
        }
    }
}

/// The average width of a column's values: the declared one; for text, the
/// average length with the header; 32 bytes where nothing is known.
pub fn column_stawidth(attr: &AttrInfo, sums: Option<ColumnSums>) -> (r: i32)
    ensures
        r == column_width(attr.attlen, attr.atttypid, sums),
        r >= 1,
{
    if attr.attlen > 0 {
        return attr.attlen as i32;
    }
    match sums {
        Some(s) => {
            if is_text_type(attr.atttypid) && s.nonnull > 0 && s.length > 0 {
                let avg: i128 = (2 * (s.length as i128) + s.nonnull as i128) / (2 * (
                s.nonnull as i128));
                proof {
                    lemma_rounded_div(s.length as int, s.nonnull as int);
                }
                let width: i128 = avg + if avg < 127 {
                    1
                } else {
                    4
                };
                return if width < 0x7fff_ffff {
                    width as i32
                } else {
                    0x7fff_ffff
                };
            }
        },
        None => {},
    }
    stawidth_for_attlen(attr.attlen)
}

proof fn lemma_rounded_div(a: int, b: int)
    requires
        0 < a <= i64::MAX,
        0 < b <= i64::MAX,
    ensures
        0 <= rounded_div(a, b) <= 2 * a + b,
{
    let n = 2 * a + b;
    let d = 2 * b;
    assert(0 <= n / d <= n) by (nonlinear_arith)
        requires
            n >= 0,
            d >= 1,
    ;
}

// ---------------------------------------------------------------------------
// Shares and distinct counts
// ---------------------------------------------------------------------------

/// A number of distinct values, as the planner takes it.
#[derive(Clone, Copy, Debug, PartialEq, Eq, Structural)]
pub enum Stadistinct {
    /// Nothing is known.
    Unknown,
    /// So many, however many rows there are.
    Count { distinct: i64 },
    /// So many of so many rows, and in proportion where there are more rows.
    Share { distinct: i64, rows: i64 },
}

/// More than a tenth of the rows is taken as a share.
pub open spec fn distinct_of(ndistinct: i64, row_count: i64) -> Stadistinct {
    if ndistinct <= 0 || row_count <= 0 {
        Stadistinct::Unknown
    } else if 10 * ndistinct <= row_count {
        Stadistinct::Count { distinct: ndistinct }
    } else {
        Stadistinct::Share { distinct: ndistinct, rows: row_count }
    }
}

/// The number of distinct values of a column in the planner's terms: where more
/// than a tenth of the rows are distinct, as a share of the rows.
pub fn stadistinct_value(ndistinct: i64, row_count: i64) -> (r: Stadistinct)
    ensures
        r == distinct_of(ndistinct, row_count),
{
    if ndistinct <= 0 || row_count <= 0 {
        Stadistinct::Unknown
    } else if 10 * (ndistinct as i128) <= row_count as i128 {
        Stadistinct::Count { distinct: ndistinct }
    } else {
        Stadistinct::Share { distinct: ndistinct, rows: row_count }
    }
}

pub open spec fn clamped(v: int, lo: int, hi: int) -> int {
    if v < lo {
        lo
    } else if v > hi {
        hi
    } else {
        v
    }
}

/// How many of `row_count` rows are null where `nonnull` are not.
pub open spec fn null_rows(nonnull: int, row_count: i64) -> int {
    clamped(row_count - nonnull, 0, row_count as int)
}

/// How many of `row_count` rows are null where `nonnull` are not.
pub fn nulls_of(nonnull: i128, row_count: i64) -> (r: i64)
    requires
        row_count >= 0,
    ensures
        r == null_rows(nonnull as int, row_count),
        0 <= r <= row_count,
{
    if nonnull >= row_count as i128 {
        0
    } else if nonnull <= 0 {
        row_count
    } else {
        (row_count as i128 - nonnull) as i64
    }
}

pub open spec fn total(s: Seq<i64>) -> int
    decreases s.len(),
{
    if s.len() == 0 {
        0
    } else {
        total(s.drop_last()) + s.last()
    }
}

pub open spec fn largest(s: Seq<i64>) -> int
    recommends
        s.len() > 0,
    decreases s.len(),
{
    if s.len() <= 1 {
        s[0] as int
    } else {
        let m = largest(s.drop_last());
        if s.last() >= m {
            s.last() as int
        } else {
            m
        }
    }
}

proof fn lemma_total_bound(s: Seq<i64>)
    ensures
        i64::MIN * s.len() <= total(s) <= i64::MAX * s.len(),
    decreases s.len(),
{
    if s.len() > 0 {
        lemma_total_bound(s.drop_last());
        let n = s.len() - 1;
        assert(i64::MIN * (n + 1) == i64::MIN * n + i64::MIN) by (nonlinear_arith);
        assert(i64::MAX * (n + 1) == i64::MAX * n + i64::MAX) by (nonlinear_arith);
    }
}

/// The sum of integers.
pub fn total_of(list: &[i64]) -> (r: i128)
    ensures
        r == total(list@),
{
    let mut sum: i128 = 0;
    let mut i: usize = 0;
    assert(list@.subrange(0, 0) =~= Seq::<i64>::empty());
    while i < list.len()
        invariant
            i <= list.len(),
            sum == total(list@.subrange(0, i as int)),
        decreases list.len() - i,
    {
        let ghost t = list@.subrange(0, i + 1);
        assert(t.drop_last() =~= list@.subrange(0, i as int));
        proof {
            lemma_total_bound(t);
            assert(i64::MIN * t.len() >= i64::MIN * 0x1_0000_0000_0000_0000) by (nonlinear_arith)
                requires
                    t.len() <= 0x1_0000_0000_0000_0000,
            ;
            assert(i64::MAX * t.len() <= i64::MAX * 0x1_0000_0000_0000_0000) by (nonlinear_arith)
                requires
                    t.len() <= 0x1_0000_0000_0000_0000,
            ;
        }
        sum = sum + list[i] as i128;
        i += 1;
    }
    assert(list@.subrange(0, i as int) =~= list@);
    sum
}

/// Ranges by where they start, then by where they end.
pub open spec fn range_order() -> spec_fn(Range, Range) -> bool {
    |a: Range, b: Range| a.lo < b.lo || (a.lo == b.lo && a.hi <= b.hi)
}

/// How many of the ranges, taken in order, start before the one before them has
/// ended.
pub open spec fn overlaps(s: Seq<Range>) -> int
    decreases s.len(),
{
    if s.len() <= 1 {
        0
    } else {
        overlaps(s.drop_last()) + if s.last().lo <= s[s.len() - 2].hi {
            1int
        } else {
            0
        }
    }
}

/// Whether fewer than half of the neighbouring ranges overlap.
pub open spec fn mostly_disjoint(ranges: Seq<Range>) -> bool {
    2 * overlaps(ordered(ranges, range_order())) < ranges.len() - 1
}

fn sort_ranges(ranges: &[Range]) -> (r: Vec<Range>)
    ensures
        r@ == ordered(ranges@, range_order()),
        r@.len() == ranges@.len(),
{
    let mut out: Vec<Range> = Vec::new();
    let mut i: usize = 0;
    assert(ranges@.subrange(0, 0) =~= Seq::<Range>::empty());
    while i < ranges.len()
        invariant
            i <= ranges.len(),
            out@ == ordered(ranges@.subrange(0, i as int), range_order()),
            out@.len() == i,
        decreases ranges.len() - i,
    {
        let e: Range = ranges[i];
        let ghost all = out@;
        let mut k: usize = out.len();
        while k > 0 && !(out[k - 1].lo < e.lo || (out[k - 1].lo == e.lo && out[k - 1].hi <= e.hi))
            invariant
                k <= out.len(),
                out@ == all,
                forall|j: int| k <= j < all.len() ==> !#[trigger] range_order()(all[j], e),
            decreases k,
        {
            k -= 1;
        }
        proof {
            lemma_placed_at(all, e, range_order(), k as int);
        }
        out.insert(k, e);
        i += 1;
        assert(ranges@.subrange(0, i as int).drop_last() =~= ranges@.subrange(0, i - 1));
        assert(out@ == placed(all, e, range_order()));
    }
    assert(ranges@.subrange(0, i as int) =~= ranges@);
    out
}

fn count_overlaps(s: &Vec<Range>) -> (r: usize)
    ensures
        r == overlaps(s@),
        r == 0 || r < s@.len(),
{
    let mut n: usize = 0;
    let mut i: usize = 1;
    if s.len() <= 1 {
        return 0;
    }
    while i < s.len()
        invariant
            1 <= i <= s.len(),
            n == overlaps(s@.subrange(0, i as int)),
            n < i,
        decreases s.len() - i,
    {
        assert(s@.subrange(0, i + 1).drop_last() =~= s@.subrange(0, i as int));
        if s[i].lo <= s[i - 1].hi {
            n += 1;
        }
        i += 1;
    }
    assert(s@.subrange(0, i as int) =~= s@);
    n
}

/// The number of distinct values over all partitions, made of the partitions'
/// numbers: their sum where the partitions' ranges are mostly disjoint, else the
/// largest of them; at least one and at most the number of rows.
pub open spec fn merged_distinct(nds: Seq<i64>, ranges: Seq<Range>, total_rows: i64) -> int {
    if nds.len() == 0 {
        0
    } else {
        clamped(
            if ranges.len() == nds.len() && ranges.len() > 1 && mostly_disjoint(ranges) {
                total(nds)
            } else {
                largest(nds)
            },
            1,
            if total_rows > 1 {
                total_rows as int
            } else {
                1
            },
        )
    }
}

/// Merges the partitions' numbers of distinct values. Values that recur in every
/// partition, and so give overlapping ranges, are counted once.
pub fn merge_ndistinct(nds: &[i64], ranges: &[Range], total_rows: i64) -> (r: i64)
    ensures
        r == merged_distinct(nds@, ranges@, total_rows),
{
    if nds.len() == 0 {
        return 0;
    }
    let disjoint: bool = if ranges.len() == nds.len() && ranges.len() > 1 {
        let sorted = sort_ranges(ranges);
        let n: usize = count_overlaps(&sorted);
        n < sorted.len() - 1 - n
    } else {
        false
    };
    let mut max: i64 = nds[0];
    let mut i: usize = 1;
    assert(nds@.subrange(0, 1)[0] == nds@[0]);
    while i < nds.len()
        invariant
            1 <= i <= nds.len(),
            max == largest(nds@.subrange(0, i as int)),
        decreases nds.len() - i,
    {
        assert(nds@.subrange(0, i + 1).drop_last() =~= nds@.subrange(0, i as int));
        if nds[i] >= max {
            max = nds[i];
        }
        i += 1;
    }
    assert(nds@.subrange(0, i as int) =~= nds@);
    let nd: i128 = if disjoint {
        total_of(nds)
    } else {
        max as i128
    };
    let cap: i64 = if total_rows > 1 {
        total_rows
    } else {
        1
    };
    if nd < 1 {
        1
    } else if nd > cap as i128 {
        cap
    } else {
        nd as i64
    }
}

/// A table has no fewer distinct values than any of its partitions, and no more
/// than it has rows.
pub proof fn lemma_merged_distinct(nds: Seq<i64>, ranges: Seq<Range>, total_rows: i64, k: int)
    requires
        0 <= k < nds.len(),
        forall|i: int| 0 <= i < nds.len() ==> 0 <= #[trigger] nds[i] <= total_rows,
        total_rows > 0,
    ensures
        nds[k] <= merged_distinct(nds, ranges, total_rows) <= total_rows,
{
    lemma_total_covers(nds, k);
    lemma_largest_covers(nds, k);
}

proof fn lemma_total_covers(s: Seq<i64>, k: int)
    requires
        0 <= k < s.len(),
        forall|i: int| 0 <= i < s.len() ==> 0 <= #[trigger] s[i],
    ensures
        total(s) >= s[k],
    decreases s.len(),
{
    let t = s.drop_last();
    assert forall|i: int| 0 <= i < t.len() implies 0 <= #[trigger] t[i] by {
        assert(0 <= s[i]);
    }
    assert(0 <= s[s.len() - 1]);
    if k < t.len() {
        lemma_total_covers(t, k);
    } else if t.len() > 0 {
        lemma_total_covers(t, 0);
        assert(0 <= t[0]);
    } else {
        assert(total(t) == 0);
    }
}

proof fn lemma_largest_covers(s: Seq<i64>, k: int)
    requires
        0 <= k < s.len(),
    ensures
        largest(s) >= s[k],
    decreases s.len(),
{
    if k < s.len() - 1 {
        lemma_largest_covers(s.drop_last(), k);
    }
}

/// Without partitions there are no distinct values; with some there are at least
/// one and at most as many as there are rows. Partitions whose values cannot be
/// told apart, for want of a range of each or of a second partition, never add
/// up: the largest number stands for all.
pub proof fn lemma_merged_distinct_bounds(nds: Seq<i64>, ranges: Seq<Range>, total_rows: i64)
    ensures
        nds.len() == 0 ==> merged_distinct(nds, ranges, total_rows) == 0,
        nds.len() > 0 ==> 1 <= merged_distinct(nds, ranges, total_rows) <= if total_rows > 1 {
            total_rows as int
        } else {
            1
        },
        nds.len() > 0 && (ranges.len() != nds.len() || nds.len() < 2) ==> merged_distinct(
            nds,
            ranges,
            total_rows,
        ) == clamped(
            largest(nds),
            1,
            if total_rows > 1 {
                total_rows as int
            } else {
                1
            },
        ),
{
}

/// Neither the order of the partitions' numbers nor that of their ranges matters
/// to the number of distinct values of the table.
pub proof fn lemma_merged_distinct_any_order(
    nds: Seq<i64>,
    ranges: Seq<Range>,
    other_nds: Seq<i64>,
    other_ranges: Seq<Range>,
    total_rows: i64,
)
    requires
        nds.to_multiset() == other_nds.to_multiset(),
        ranges.to_multiset() == other_ranges.to_multiset(),
    ensures
        merged_distinct(nds, ranges, total_rows) == merged_distinct(
            other_nds,
            other_ranges,
            total_rows,
        ),
{
    broadcast use vstd::seq_lib::group_to_multiset_ensures;

    assert(nds.to_multiset().len() == nds.len());
    assert(other_nds.to_multiset().len() == other_nds.len());
    assert(ranges.to_multiset().len() == ranges.len());
    assert(other_ranges.to_multiset().len() == other_ranges.len());
    lemma_total_any_order(nds, other_nds);
    if nds.len() > 0 {
        lemma_largest_any_order(nds, other_nds);
    }
    lemma_ordered(ranges, range_order());
    lemma_ordered(other_ranges, range_order());
    let a = ordered(ranges, range_order());
    let b = ordered(other_ranges, range_order());
    assert forall|x: Range, y: Range| #[trigger]
        range_order()(x, y) && #[trigger] range_order()(y, x) implies x == y by {}
    vstd::seq_lib::lemma_sorted_unique(a, b, range_order());
}

proof fn lemma_total_without(s: Seq<i64>, k: int)
    requires
        0 <= k < s.len(),
    ensures
        total(s) == total(s.remove(k)) + s[k],
    decreases s.len(),
{
    if k < s.len() - 1 {
        lemma_total_without(s.drop_last(), k);
        assert(s.remove(k).drop_last() =~= s.drop_last().remove(k));
    } else {
        assert(s.remove(k) =~= s.drop_last());
    }
}

proof fn lemma_total_any_order(s: Seq<i64>, t: Seq<i64>)
    requires
        s.to_multiset() == t.to_multiset(),
    ensures
        total(s) == total(t),
    decreases s.len(),
{
    broadcast use vstd::seq_lib::group_to_multiset_ensures;

    assert(s.to_multiset().len() == s.len() && t.to_multiset().len() == t.len());
    if s.len() > 0 {
        let last = s.len() - 1;
        assert(s.contains(s[last]));
        assert(t.to_multiset().count(s[last]) > 0);
        assert(t.contains(s[last]));
        let k = choose|k: int| 0 <= k < t.len() && t[k] == s[last];
        assert(s.remove(last) =~= s.drop_last());
        lemma_total_without(t, k);
        lemma_total_any_order(s.drop_last(), t.remove(k));
    }
}

proof fn lemma_largest_is_held(s: Seq<i64>) -> (k: int)
    requires
        s.len() > 0,
    ensures
        0 <= k < s.len(),
        largest(s) == s[k],
    decreases s.len(),
{
    if s.len() <= 1 {
        0
    } else {
        let k = lemma_largest_is_held(s.drop_last());
        if s.last() >= largest(s.drop_last()) {
            s.len() - 1
        } else {
            k
        }
    }
}

proof fn lemma_largest_covers_those(s: Seq<i64>, t: Seq<i64>)
    requires
        s.len() > 0,
        s.to_multiset() == t.to_multiset(),
    ensures
        largest(s) <= largest(t),
{
    broadcast use vstd::seq_lib::group_to_multiset_ensures;

    let i = lemma_largest_is_held(s);
    assert(s.contains(s[i]));
    assert(t.to_multiset().count(s[i]) > 0);
    assert(t.contains(s[i]));
    let k = choose|k: int| 0 <= k < t.len() && t[k] == s[i];
    lemma_largest_covers(t, k);
}

proof fn lemma_largest_any_order(s: Seq<i64>, t: Seq<i64>)
    requires
        s.len() > 0,
        s.to_multiset() == t.to_multiset(),
    ensures
        largest(s) == largest(t),
{
    broadcast use vstd::seq_lib::group_to_multiset_ensures;

    assert(s.to_multiset().len() == s.len() && t.to_multiset().len() == t.len());
    lemma_largest_covers_those(s, t);
    lemma_largest_covers_those(t, s);
}

// ---------------------------------------------------------------------------
// Sizes
// ---------------------------------------------------------------------------

/// The width of a row: that of its columns, but no less than the default of one.
pub open spec fn row_width(widths: int) -> int {
    clamped(widths, DEFAULT_WIDTH as int, i32::MAX as int)
}

/// Pages that so many rows of that width take, and at least one: a table of no
/// pages would be taken as one that was never analyzed.
pub open spec fn pages(row_count: i64, width: i32) -> int {
    let per_page = clamped(PAGE_BYTES as int / clamped(width as int, 1, i32::MAX as int), 1, 8192);
    clamped((row_count + per_page - 1) / per_page, 1, i32::MAX as int)
}

/// The number of pages of a relation.
pub fn rel_pages(row_count: i64, avg_tuple_width: i32) -> (r: i32)
    requires
        row_count >= 0,
    ensures
        r == pages(row_count, avg_tuple_width),
        r >= 1,
{
    let width: i64 = if avg_tuple_width < 1 {
        1
    } else {
        avg_tuple_width as i64
    };
    let fit: i64 = PAGE_BYTES / width;
    proof {
        assert(0 <= 8192int / (width as int) <= 8192) by (nonlinear_arith)
            requires
                width >= 1,
        ;
    }
    let per_page: i64 = if fit < 1 {
        1
    } else {
        fit
    };
    let n: i128 = (row_count as i128 + per_page as i128 - 1) / (per_page as i128);
    if n < 1 {
        1
    } else if n > 0x7fff_ffff {
        0x7fff_ffff
    } else {
        n as i32
    }
}

} // verus!
