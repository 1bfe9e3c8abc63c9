//! What the statistics of a partition, and the rows of `pg_statistic`, are made of.

use vstd::prelude::*;
use crate::search::{first_where, lemma_first_where};
use crate::stats::assoc::{lemma_stored, lookup};
use crate::stats::bounds::{histogram_bounds, key};
use crate::stats::column_laws::{
    is_ordered_number, is_text_number, lemma_bounds_are_values, lemma_distinct_of_slot,
};
use crate::stats::estimates::{column_width, distinct_of, pages, AttrInfo};
use crate::stats::merge_laws::lemma_found_by_name;
use crate::stats::partition::{
    attr_named, by_index, capped, counted_rows, grouped_mins, has_index, ColumnMeta,
    ColumnStatsView, PartitionView,
};
use crate::stats::segments::{all_pooled, numbered_names, pooled};
use crate::stats::slots::{
    cell, chosen_slot, correlation_slot, first_slot, operator_of, Cell, SlotData, SlotNumbers,
    SlotValues, SlotView,
};
use crate::stats::table::list_or_empty;

verus! {

// ---------------------------------------------------------------------------
// Columns of a partition
// ---------------------------------------------------------------------------

/// The columns whose values stand in segments, in their order.
pub open spec fn segment_columns(s: Seq<ColumnMeta>) -> Seq<ColumnMeta>
    decreases s.len(),
{
    if s.len() == 0 {
        Seq::empty()
    } else if s.last().is_segment_by {
        segment_columns(s.drop_last())
    } else {
        segment_columns(s.drop_last()).push(s.last())
    }
}

proof fn lemma_index_is_length(d: PartitionView, n: int)
    requires
        0 <= n <= d.columns.len(),
    ensures
        segment_columns(d.columns.subrange(0, n)).len() == d.index_of(n),
    decreases n,
{
    if n > 0 {
        lemma_index_is_length(d, n - 1);
        assert(d.columns.subrange(0, n).drop_last() =~= d.columns.subrange(0, n - 1));
    } else {
        assert(d.columns.subrange(0, 0).len() == 0);
    }
}

proof fn lemma_prefix_kept(d: PartitionView, n: int, m: int)
    requires
        0 <= n < m <= d.columns.len(),
        !d.columns[n].is_segment_by,
    ensures
        ({
            let s = segment_columns(d.columns.subrange(0, m));
            0 <= d.index_of(n) < s.len() && s[d.index_of(n)] == d.columns[n]
        }),
    decreases m,
{
    assert(d.columns.subrange(0, m).drop_last() =~= d.columns.subrange(0, m - 1));
    if n < m - 1 {
        lemma_prefix_kept(d, n, m - 1);
    } else {
        lemma_index_is_length(d, n);
    }
}

/// What is kept of the segments of a column stands under its place among the
/// columns whose values stand in segments.
pub proof fn lemma_place_of_column(d: PartitionView, n: int)
    requires
        0 <= n < d.columns.len(),
        !d.columns[n].is_segment_by,
    ensures
        ({
            let s = segment_columns(d.columns);
            0 <= d.index_of(n) < s.len() && s[d.index_of(n)] == d.columns[n]
        }),
{
    lemma_prefix_kept(d, n, d.columns.len() as int);
    assert(d.columns.subrange(0, d.columns.len() as int) =~= d.columns);
}

/// What is found under a number stands under it.
pub proof fn lemma_found_by_number<V>(s: Seq<(usize, V)>, i: int)
    ensures
        match by_index(s, i) {
            Some(v) => exists|k: int| 0 <= k < s.len() && (#[trigger] s[k]).0 == i && s[k].1 == v,
            None => forall|k: int| 0 <= k < s.len() ==> (#[trigger] s[k]).0 != i,
        },
{
    let p = has_index::<V>(i);
    lemma_first_where(s, p);
    match first_where(s, p) {
        Some(k) => {
            assert(p(s[k]));
        },
        None => {
            assert forall|k: int| 0 <= k < s.len() implies (#[trigger] s[k]).0 != i by {
                assert(!p(s[k]));
            }
        },
    }
}

/// The nulls of a column and its other rows are all rows of the partition: those
/// that its segments count, or, of a segment-by column, those that its values
/// account for. A column that is declared to have no nulls has none.
pub proof fn lemma_nulls_of_column(d: PartitionView, n: int)
    requires
        0 <= n < d.columns.len(),
        d.attr_of(n) is Some,
        d.row_count > 0,
    ensures
        ({
            let a = d.attrs[d.attr_of(n)->0];
            let s = d.nth_stats(n);
            let c = d.columns[n];
            &&& 0 <= d.attr_of(n)->0 < d.attrs.len()
            &&& a.attname@ == c.name@
            &&& s.attnum == a.attnum
            &&& a.attnotnull ==> s.nulls == 0
            &&& !a.attnotnull && c.is_segment_by ==> match lookup(d.valcounts, c.name@) {
                Some(v) => 0 <= counted_rows(v) <= d.row_count ==> s.nulls + counted_rows(v)
                    == d.row_count,
                None => s.nulls == 0,
            }
            &&& !a.attnotnull && !c.is_segment_by ==> match by_index(d.sums, d.index_of(n)) {
                Some(v) => 0 < v.nonnull <= d.row_count ==> s.nulls + v.nonnull == d.row_count,
                None => s.nulls == 0,
            }
        }),
{
    let p = attr_named(d.columns[n].name@);
    lemma_first_where(d.attrs, p);
    assert(p(d.attrs[d.attr_of(n)->0]));
}

/// Counts account for the sum of the rows that they give each value.
pub proof fn lemma_counted_rows_add(s: Seq<(Seq<char>, i64)>, i: int, n: i64)
    requires
        0 <= i < s.len(),
    ensures
        counted_rows(s.update(i, (s[i].0, n))) == counted_rows(s) - s[i].1 + n,
        s.len() == 1 ==> counted_rows(s) == s[0].1,
    decreases s.len(),
{
    let t = s.update(i, (s[i].0, n));
    if i < s.len() - 1 {
        lemma_counted_rows_add(s.drop_last(), i, n);
        assert(t.drop_last() =~= s.drop_last().update(i, (s[i].0, n)));
    } else {
        assert(t.drop_last() =~= s.drop_last());
    }
    if s.len() == 1 {
        assert(counted_rows(s.drop_last()) == 0);
    }
}

/// Every bound of a column's histogram is a value of the column: the smallest of
/// a segment, or an extreme of the partition. There is one exactly where the type
/// has an order and the extremes differ.
pub proof fn lemma_bounds_of_column(
    d: PartitionView,
    t: u32,
    name: Seq<char>,
    segment_by: bool,
    index: int,
    i: int,
)
    ensures
        match d.column_bounds(t, name, segment_by, index) {
            Some(b) => {
                &&& is_ordered_number(t)
                &&& lookup(d.minmax, name) matches Some(m) && key(t, m.lo) < key(t, m.hi) && (0
                    <= i < b.len() ==> b[i] == m.lo || b[i] == m.hi || (!segment_by && (by_index(
                    d.segment_mins,
                    index,
                ) matches Some(v) && v@.contains(b[i]))))
            },
            None => !is_ordered_number(t) || lookup(d.minmax, name) is None || (lookup(
                d.minmax,
                name,
            ) matches Some(m) && key(t, m.lo) >= key(t, m.hi)),
        },
{
    if let Some(m) = lookup(d.minmax, name) {
        let mins = match d.column_mins(segment_by, index) {
            Some(v) => v,
            None => seq![m.lo],
        };
        if d.column_bounds(t, name, segment_by, index) is Some {
            let b = d.column_bounds(t, name, segment_by, index)->0;
            if 0 <= i < b.len() {
                if histogram_bounds(t, mins, m.hi, 101) is Some {
                    lemma_bounds_are_values(t, mins, m.hi, 101, i);
                    if mins == seq![m.lo] && mins.contains(b[i]) {
                        let k = choose|k: int| 0 <= k < mins.len() && mins[k] == b[i];
                        assert(mins[k] == m.lo);
                    }
                }
            }
        }
    }
}

/// The days of dates, and the values of anything else, are what bounds are told
/// apart by.
pub proof fn lemma_keys(t: u32, a: i64, b: i64)
    ensures
        t != 1082 ==> (key(t, a) < key(t, b) <==> a < b),
        t == 1082 && a >= 0 && b >= 0 ==> (key(t, a) < key(t, b) <==> (a as int) / 86_400_000_000
            < (b as int) / 86_400_000_000),
{
}

/// What is known of the values of a column is what the partition says under the
/// column's name. All values are taken to be known where there are two or more.
pub proof fn lemma_known_of_column(
    d: PartitionView,
    t: u32,
    name: Seq<char>,
    segment_by: bool,
    index: int,
)
    ensures
        ({
            let k = d.column_known(t, name, segment_by, index);
            &&& k.counts == lookup(d.valcounts, name)
            &&& k.partial == lookup(d.mcv, name)
            &&& k.bounds == d.column_bounds(t, name, segment_by, index)
            &&& k.complete matches Some(v) ==> lookup(d.valmap, name) == Some(v) && v.len() >= 2
            &&& k.complete is None ==> (lookup(d.valmap, name) matches Some(v) ==> v.len() < 2)
        }),
{
}

/// A column of a partition has the slot that is chosen from what is known of its
/// values, and is as wide as its length or its segments' sums say. It has as many
/// distinct values as the partition says under its name, unless all its values
/// are written.
pub proof fn lemma_slot_of_column(d: PartitionView, n: int)
    requires
        0 <= n < d.columns.len(),
        d.attr_of(n) is Some,
        lookup(d.valmap, d.columns[n].name@) matches Some(v) ==> v.len() <= i64::MAX,
    ensures
        ({
            let a = d.attrs[d.attr_of(n)->0];
            let c = d.columns[n];
            let s = d.nth_stats(n);
            let counted = match lookup(d.ndistinct, c.name@) {
                Some(k) => k,
                None => 0i64,
            };
            let known = d.column_known(a.atttypid, c.name@, c.is_segment_by, d.index_of(n));
            &&& s.slot == chosen_slot(a.atttypid, known, counted as int, d.row_count).slot
            &&& s.correlation == chosen_slot(
                a.atttypid,
                known,
                counted as int,
                d.row_count,
            ).correlation
            &&& s.width == column_width(
                a.attlen,
                a.atttypid,
                if c.is_segment_by {
                    None
                } else {
                    by_index(d.sums, d.index_of(n))
                },
            )
            &&& s.distinct == distinct_of(
                if known.bounds is None && is_text_number(a.atttypid) && known.complete is Some {
                    known.complete->0.len() as i64
                } else {
                    counted
                },
                d.row_count,
            )
        }),
{
    let a = d.attrs[d.attr_of(n)->0];
    let c = d.columns[n];
    let known = d.column_known(a.atttypid, c.name@, c.is_segment_by, d.index_of(n));
    lemma_distinct_of_slot(a.atttypid, known, d.column_ndistinct(c.name@), d.row_count);
}

/// How many columns among the first `n` the catalog still has.
pub open spec fn count_found(d: PartitionView, n: int) -> int
    decreases n,
{
    if n <= 0 {
        0
    } else {
        count_found(d, n - 1) + if d.attr_of(n - 1) is Some {
            1int
        } else {
            0
        }
    }
}

/// The widths of columns add up.
pub open spec fn width_of(s: Seq<ColumnStatsView>) -> int
    decreases s.len(),
{
    if s.len() == 0 {
        0
    } else {
        width_of(s.drop_last()) + s.last().width
    }
}

proof fn lemma_stats_len(d: PartitionView, n: int)
    requires
        0 <= n,
    ensures
        d.all_stats(n).len() == count_found(d, n),
        d.total_width(n) == width_of(d.all_stats(n)),
    decreases n,
{
    if n > 0 {
        lemma_stats_len(d, n - 1);
        if d.attr_of(n - 1) is Some {
            assert(d.all_stats(n).drop_last() =~= d.all_stats(n - 1));
        }
    }
}

proof fn lemma_stats_at(d: PartitionView, k: int, n: int)
    requires
        0 <= k < n,
        d.attr_of(k) is Some,
    ensures
        0 <= count_found(d, k) < d.all_stats(n).len(),
        d.all_stats(n)[count_found(d, k)] == d.nth_stats(k),
    decreases n,
{
    lemma_stats_len(d, k);
    if k < n - 1 {
        lemma_stats_at(d, k, n - 1);
    }
}

/// A partition with rows has one entry for each of its columns that the catalog
/// still has, in their order, and as many rows as it counts; one without has no
/// statistics.
pub proof fn lemma_partition_statistics(d: PartitionView, k: int)
    requires
        0 <= k < d.columns.len(),
    ensures
        d.stats() is Some <==> d.row_count > 0,
        d.stats() matches Some(r) ==> {
            &&& r.rows == d.row_count
            &&& r.columns.len() == count_found(d, d.columns.len() as int)
            &&& 32 <= width_of(r.columns) <= i32::MAX ==> r.pages == pages(
                d.row_count,
                width_of(r.columns) as i32,
            )
            &&& width_of(r.columns) < 32 ==> r.pages == pages(d.row_count, 32)
            &&& d.attr_of(k) is Some ==> 0 <= count_found(d, k) < r.columns.len()
                && r.columns[count_found(d, k)] == d.nth_stats(k)
        },
{
    lemma_stats_len(d, d.columns.len() as int);
    if d.attr_of(k) is Some {
        lemma_stats_at(d, k, d.columns.len() as int);
    }
}

/// Numbers that are capped stay under their names, and are never above the cap.
pub proof fn lemma_capped(s: Seq<(Seq<char>, i64)>, cap: i64, i: int)
    requires
        0 <= i < s.len(),
    ensures
        capped(s, cap).len() == s.len(),
        capped(s, cap)[i].0 == s[i].0,
        capped(s, cap)[i].1 <= cap,
        s[i].1 <= cap ==> capped(s, cap)[i].1 == s[i].1,
        s[i].1 > cap ==> capped(s, cap)[i].1 == cap,
{
}

/// The smallest values of a column are those of its segments that have one, all of
/// them and in their order.
pub proof fn lemma_grouped_mins(rows: Seq<(usize, Option<i64>)>, i: int, m: i64)
    ensures
        grouped_mins(rows, i).contains(m) <==> exists|k: int|
            0 <= k < rows.len() && (#[trigger] rows[k]).0 == i && rows[k].1 == Some(m),
        rows.len() > 0 && rows.last().0 == i ==> (rows.last().1 matches Some(v) ==> grouped_mins(
            rows,
            i,
        ).len() > 0 && grouped_mins(rows, i).last() == v),
    decreases rows.len(),
{
    if rows.len() > 0 {
        let front = rows.drop_last();
        lemma_grouped_mins(front, i, m);
        let rest = grouped_mins(front, i);
        let all = grouped_mins(rows, i);
        assert(rows[rows.len() - 1] == rows.last());
        if rest.contains(m) {
            let j = choose|j: int| 0 <= j < rest.len() && rest[j] == m;
            assert(all[j] == m);
            let k = choose|k: int|
                0 <= k < front.len() && (#[trigger] front[k]).0 == i && front[k].1 == Some(m);
            assert(rows[k] == front[k]);
        } else {
            if rows.last().0 == i && rows.last().1 == Some(m) {
                assert(all.last() == m);
                assert(all[all.len() - 1] == m);
            }
            if exists|k: int|
                0 <= k < rows.len() && (#[trigger] rows[k]).0 == i && rows[k].1 == Some(m) {
                let k = choose|k: int|
                    0 <= k < rows.len() && (#[trigger] rows[k]).0 == i && rows[k].1 == Some(m);
                if k < front.len() {
                    assert(front[k].0 == i && front[k].1 == Some(m));
                }
            }
            if all.contains(m) {
                let j = choose|j: int| 0 <= j < all.len() && all[j] == m;
                if j < rest.len() {
                    assert(rest[j] == m);
                }
            }
        }
    }
}

/// Whether smallest values of a partition hold one under a number.
pub open spec fn part_holds(part: Seq<(usize, Vec<i64>)>, i: int, m: i64) -> bool {
    exists|k: int| 0 <= k < part.len() && (#[trigger] part[k]).0 == i && part[k].1@.contains(m)
}

proof fn lemma_pooled(
    acc: Seq<(Seq<char>, Seq<i64>)>,
    names: Seq<Seq<char>>,
    part: Seq<(usize, Vec<i64>)>,
    i: int,
    m: i64,
)
    requires
        0 <= i < names.len(),
        names.no_duplicates(),
    ensures
        list_or_empty(lookup(pooled(acc, names, part), names[i])).contains(m) <==> list_or_empty(
            lookup(acc, names[i]),
        ).contains(m) || part_holds(part, i, m),
    decreases part.len(),
{
    if part.len() > 0 {
        let front = part.drop_last();
        let rest = pooled(acc, names, front);
        let (j, mins) = part.last();
        lemma_pooled(acc, names, front, i, m);
        assert(part_holds(part, i, m) <==> part_holds(front, i, m) || (j == i && mins@.contains(m)))
            by {
            assert(part[part.len() - 1] == part.last());
            if part_holds(front, i, m) {
                let k = choose|k: int|
                    0 <= k < front.len() && (#[trigger] front[k]).0 == i && front[k].1@.contains(m);
                assert(part[k] == front[k]);
            }
            if part_holds(part, i, m) {
                let k = choose|k: int|
                    0 <= k < part.len() && (#[trigger] part[k]).0 == i && part[k].1@.contains(m);
                if k < front.len() {
                    assert(front[k] == part[k]);
                }
            }
        }
        if j < names.len() {
            let before = list_or_empty(lookup(rest, names[j as int]));
            lemma_stored(rest, names[j as int], before + mins@);
            if j == i {
                let all = before + mins@;
                if before.contains(m) {
                    let k = choose|k: int| 0 <= k < before.len() && before[k] == m;
                    assert(all[k] == m);
                }
                if mins@.contains(m) {
                    let k = choose|k: int| 0 <= k < mins@.len() && mins@[k] == m;
                    assert(all[before.len() + k] == m);
                }
                if all.contains(m) {
                    let k = choose|k: int| 0 <= k < all.len() && all[k] == m;
                    if k < before.len() {
                        assert(before[k] == m);
                    } else {
                        assert(mins@[k - before.len()] == m);
                    }
                }
            } else {
                assert(names[j as int] != names[i]);
            }
        }
    }
}

/// The smallest values of a table's column are those that its partitions hold
/// under the column's number, all of them and no others.
pub proof fn lemma_mins_of_table(
    names: Seq<Seq<char>>,
    parts: Seq<Vec<(usize, Vec<i64>)>>,
    i: int,
    m: i64,
)
    requires
        0 <= i < names.len(),
        names.no_duplicates(),
    ensures
        list_or_empty(lookup(all_pooled(names, parts), names[i])).contains(m) <==> exists|p: int|
            0 <= p < parts.len() && part_holds((#[trigger] parts[p])@, i, m),
    decreases parts.len(),
{
    if parts.len() > 0 {
        let front = parts.drop_last();
        lemma_mins_of_table(names, front, i, m);
        lemma_pooled(all_pooled(names, front), names, parts.last()@, i, m);
        assert(parts[parts.len() - 1] == parts.last());
        if exists|p: int| 0 <= p < front.len() && part_holds((#[trigger] front[p])@, i, m) {
            let p = choose|p: int| 0 <= p < front.len() && part_holds((#[trigger] front[p])@, i, m);
            assert(parts[p] == front[p]);
        }
        if exists|p: int| 0 <= p < parts.len() && part_holds((#[trigger] parts[p])@, i, m) {
            let p = choose|p: int| 0 <= p < parts.len() && part_holds((#[trigger] parts[p])@, i, m);
            if p < front.len() {
                assert(front[p] == parts[p]);
            }
        }
    } else {
        lemma_found_by_name(all_pooled(names, parts), names[i]);
    }
}

/// The number of a column is its place among the columns that segments are not
/// split by.
pub proof fn lemma_numbers_of_columns(attrs: Seq<AttrInfo>, segment_by: Seq<Seq<char>>, name: Seq<char>)
    ensures
        numbered_names(attrs, segment_by).contains(name) <==> !segment_by.contains(name) && exists|
            k: int,
        |
            0 <= k < attrs.len() && (#[trigger] attrs[k]).attname@ == name,
        attrs.len() > 0 && !segment_by.contains(attrs.last().attname@) ==> numbered_names(
            attrs,
            segment_by,
        ) == numbered_names(attrs.drop_last(), segment_by).push(attrs.last().attname@),
    decreases attrs.len(),
{
    if attrs.len() > 0 {
        let front = attrs.drop_last();
        lemma_numbers_of_columns(front, segment_by, name);
        let rest = numbered_names(front, segment_by);
        let all = numbered_names(attrs, segment_by);
        assert(attrs[attrs.len() - 1] == attrs.last());
        if rest.contains(name) {
            let k = choose|k: int| 0 <= k < rest.len() && rest[k] == name;
            assert(all[k] == name);
            let j = choose|j: int| 0 <= j < front.len() && (#[trigger] front[j]).attname@ == name;
            assert(attrs[j] == front[j]);
        }
        if all.contains(name) && !rest.contains(name) {
            let k = choose|k: int| 0 <= k < all.len() && all[k] == name;
            if k < rest.len() {
                assert(rest[k] == name);
            }
        }
        if !segment_by.contains(name) && exists|k: int|
            0 <= k < attrs.len() && (#[trigger] attrs[k]).attname@ == name {
            let k = choose|k: int| 0 <= k < attrs.len() && (#[trigger] attrs[k]).attname@ == name;
            if k < front.len() {
                assert(front[k] == attrs[k]);
            } else {
                assert(all[all.len() - 1] == name);
            }
        }
    }
}

// ---------------------------------------------------------------------------
// pg_statistic
// ---------------------------------------------------------------------------

/// A slot of the most common values has the kind 1 and needs the operator `=` of
/// texts; a histogram has the kind 2 and needs `<` of its type; a correlation has
/// the kind 3. A slot of fewer than two values is not written, nor one without
/// its operator.
pub proof fn lemma_slots_of_statistic(slot: Option<SlotView>, t: Option<u32>, op: u32)
    ensures
        ({
            let s = first_slot(slot, op);
            match slot {
                Some(SlotView::Mcv { values, freqs }) => {
                    &&& values.len() >= 2 ==> (operator_of(slot) matches Some(q) && q.type_oid == 25
                        && q.strategy == 3)
                    &&& s.len() == if values.len() >= 2 && op != 0 {
                        1int
                    } else {
                        0
                    }
                    &&& s.len() == 1 ==> s[0].stakind == 1 && s[0].stacoll == 100 && s[0].numbers
                        == SlotNumbers::Frequencies && s[0].values == SlotValues::Texts && s[0].staop
                        == op
                },
                Some(SlotView::Histogram { type_oid, bounds }) => {
                    &&& bounds.len() >= 2 ==> (operator_of(slot) matches Some(q) && q.type_oid
                        == type_oid && q.strategy == 1)
                    &&& s.len() == if bounds.len() >= 2 && op != 0 {
                        1int
                    } else {
                        0
                    }
                    &&& s.len() == 1 ==> s[0].stakind == 2 && s[0].stacoll == 0 && s[0].numbers
                        == SlotNumbers::Absent && s[0].values == SlotValues::Bounds && s[0].staop
                        == op
                },
                None => s.len() == 0,
            }
        }),
        ({
            let s = correlation_slot(t, op);
            &&& s.len() == if t is Some && op != 0 {
                1int
            } else {
                0
            }
            &&& s.len() == 1 ==> s[0].stakind == 3 && s[0].numbers == SlotNumbers::Correlation
                && s[0].values == SlotValues::Absent && s[0].staop == op && s[0].stacoll == 0
        }),
{
}

/// A row of `pg_statistic` has six columns of the whole, and then, slot by slot,
/// five kinds, five operators, five collations, five lists of numbers and five of
/// values. Slots that are not used hold zeros and nothing.
pub proof fn lemma_row_of_statistic(
    relid: u32,
    attnum: i16,
    inherit: bool,
    width: i32,
    slots: Seq<SlotData>,
    k: int,
)
    requires
        0 <= k < 5,
    ensures
        ({
            let at = |i: int| cell(relid, attnum, inherit, width, slots, i);
            &&& at(0) == Cell::Oid(relid)
            &&& at(1) == Cell::Int2(attnum)
            &&& at(2) == Cell::Flag(inherit)
            &&& at(3) == Cell::NullFraction
            &&& at(4) == Cell::Int4(width)
            &&& at(5) == Cell::Distinct
            &&& k < slots.len() ==> at(6 + k) == Cell::Int2(slots[k].stakind) && at(11 + k)
                == Cell::Oid(slots[k].staop) && at(16 + k) == Cell::Oid(slots[k].stacoll) && at(
                21 + k,
            ) == Cell::Numbers(slots[k].numbers) && at(26 + k) == Cell::Values(slots[k].values)
            &&& k >= slots.len() ==> at(6 + k) == Cell::Int2(0) && at(11 + k) == Cell::Oid(0) && at(
                16 + k,
            ) == Cell::Oid(0) && at(21 + k) == Cell::Numbers(SlotNumbers::Absent) && at(26 + k)
                == Cell::Values(SlotValues::Absent)
        }),
{
}

} // verus!
