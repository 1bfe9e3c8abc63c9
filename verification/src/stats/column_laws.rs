//! What the statistics of a column say of its values.

use vstd::prelude::*;
use crate::sorting::{ascending, lemma_ascending, lemma_ascending_holds, ordered};
use crate::stats::assoc::{lemma_stored, lookup, names_differ};
use crate::stats::bounds::{
    downsampled, histogram_bounds, largest_hi, lows, parent_bounds, spread, without_repeats, Range,
};
use crate::stats::estimates::{
    column_width, distinct_of, mostly_disjoint, null_rows, overlaps, pages, range_order, AttrInfo,
    ColumnSums, Stadistinct,
};
use crate::stats::json::{valcounts, with_counts};
use crate::stats::merge_laws::{
    held_count, lemma_found_by_name, lemma_table_counts, same_in_64_bits, sum_over, text_count,
};
use crate::stats::slots::{chosen_slot, KnownView, SlotView};
use crate::stats::table::{
    list_or_empty, table_bounds, table_column, table_known, table_ndistinct, total_table_width,
    totals, PartitionRow, TotalsView,
};
use crate::stats::values::{
    all_counted, firsts, frequencies, lemma_most_common, mcv_order, most_common, Frequency,
};

verus! {

// ---------------------------------------------------------------------------
// Numbers
// ---------------------------------------------------------------------------

/// How many distinct values the planner takes a table of `rows` rows to have.
pub open spec fn planned_distinct(d: Stadistinct, rows: int) -> Option<int> {
    match d {
        Stadistinct::Unknown => None,
        Stadistinct::Count { distinct } => Some(distinct as int),
        Stadistinct::Share { distinct, rows: of } => Some(distinct * rows / of as int),
    }
}

/// The planner takes a table to have as many distinct values as were counted, as
/// long as it has as many rows. It takes the number to grow with the table
/// exactly where more than a tenth of the rows differ.
pub proof fn lemma_distinct_is_planned(n: i64, rows: i64)
    requires
        n > 0,
        rows > 0,
    ensures
        planned_distinct(distinct_of(n, rows), rows as int) == Some(n as int),
        10 * n > rows ==> planned_distinct(distinct_of(n, rows), 2 * rows) == Some(2 * n),
        10 * n <= rows ==> planned_distinct(distinct_of(n, rows), 2 * rows) == Some(n as int),
{
    vstd::arithmetic::div_mod::lemma_div_multiples_vanish(n as int, rows as int);
    assert(n * rows == rows * n) by (nonlinear_arith);
    vstd::arithmetic::div_mod::lemma_div_multiples_vanish(2 * n, rows as int);
    assert(n * (2 * rows) == rows * (2 * n)) by (nonlinear_arith);
    assert((2 * n) * rows == rows * (2 * n)) by (nonlinear_arith);
}

/// Nothing is said of a column of which no value, or of a table of which no row,
/// was counted.
pub proof fn lemma_distinct_of_nothing(n: i64, rows: i64)
    ensures
        planned_distinct(distinct_of(n, rows), 1) is None <==> n <= 0 || rows <= 0,
{
}

/// The null rows and the others are all rows.
pub proof fn lemma_nulls_and_others(nonnull: int, rows: i64)
    requires
        0 <= nonnull <= rows,
    ensures
        null_rows(nonnull, rows) + nonnull == rows,
{
}

/// The pages of a relation hold its rows, and one page less would not: as many
/// rows stand on a page of 8192 bytes as fit, and at least one.
pub proof fn lemma_pages_hold_rows(rows: i64, width: i32, per_page: int)
    requires
        rows >= 0,
        width >= 1,
        per_page >= 1,
        per_page * width <= 8192 || per_page == 1,
        (per_page + 1) * width > 8192,
        rows <= i32::MAX,
    ensures
        pages(rows, width) >= 1,
        pages(rows, width) * per_page >= rows,
        pages(rows, width) > 1 ==> (pages(rows, width) - 1) * per_page < rows,
{
    let fit = 8192int / (width as int);
    vstd::arithmetic::div_mod::lemma_fundamental_div_mod(8192, width as int);
    vstd::arithmetic::div_mod::lemma_mod_bound(8192, width as int);
    assert(fit == per_page || (fit == 0 && per_page == 1)) by (nonlinear_arith)
        requires
            8192 == width * fit + 8192int % (width as int),
            0 <= 8192int % (width as int) < width,
            per_page >= 1,
            width >= 1,
            per_page * width <= 8192 || per_page == 1,
            (per_page + 1) * width > 8192,
    ;
    assert(fit <= 8192) by (nonlinear_arith)
        requires
            8192 == width * fit + 8192int % (width as int),
            0 <= 8192int % (width as int),
            width >= 1,
            fit >= 0 || fit < 0,
    ;
    let n = (rows + per_page - 1) / per_page;
    vstd::arithmetic::div_mod::lemma_fundamental_div_mod(rows + per_page - 1, per_page);
    vstd::arithmetic::div_mod::lemma_mod_bound(rows + per_page - 1, per_page);
    assert(n * per_page >= rows && (n - 1) * per_page < rows) by (nonlinear_arith)
        requires
            rows + per_page - 1 == per_page * n + (rows + per_page - 1) % per_page,
            0 <= (rows + per_page - 1) % per_page < per_page,
    ;
    assert(n <= rows || rows == 0) by (nonlinear_arith)
        requires
            (n - 1) * per_page < rows,
            per_page >= 1,
            rows >= 0,
    ;
    if rows == 0 {
        assert(n == 0) by (nonlinear_arith)
            requires
                (n - 1) * per_page < 0,
                n * per_page >= 0,
                per_page >= 1,
        ;
        assert(1 * per_page >= 0);
    } else {
        assert(n >= 1) by (nonlinear_arith)
            requires
                n * per_page >= rows,
                rows > 0,
                per_page >= 1,
        ;
    }
}

/// Whether a type's values are texts.
pub open spec fn is_text_number(t: u32) -> bool {
    t == 25 || t == 1043 || t == 1042 || t == 19 || t == 18
}

/// Whether no whole number is nearer to a quotient, and of two as near it is the
/// larger.
pub open spec fn is_nearest(a: int, b: int, q: int) -> bool {
    2 * (q * b) <= 2 * a + b < 2 * (q * b) + 2 * b
}

/// A column of fixed length is as wide as that. A text column is as wide as its
/// average length, to the nearest byte, with a header of one byte below 127 bytes
/// and of four from there on. Any other is taken to be 32 bytes wide.
pub proof fn lemma_column_width(attlen: i16, t: u32, sums: Option<ColumnSums>)
    ensures
        attlen > 0 ==> column_width(attlen, t, sums) == attlen,
        attlen <= 0 && !(is_text_number(t) && (sums matches Some(s) && s.nonnull > 0 && s.length
            > 0)) ==> column_width(attlen, t, sums) == 32,
        attlen <= 0 && is_text_number(t) && sums is Some && sums->0.nonnull > 0 && 0
            < sums->0.length < 1_000_000_000 ==> exists|avg: int|
            #[trigger] is_nearest(sums->0.length as int, sums->0.nonnull as int, avg)
                && column_width(attlen, t, sums) == if avg < 127 {
                avg + 1
            } else {
                avg + 4
            },
{
    if attlen <= 0 && is_text_number(t) {
        if let Some(s) = sums {
            if s.nonnull > 0 && s.length > 0 && s.length < 1_000_000_000 {
                let (a, b) = (2 * s.length + s.nonnull, 2 * s.nonnull);
                let avg = a / b;
                vstd::arithmetic::div_mod::lemma_fundamental_div_mod(a, b);
                vstd::arithmetic::div_mod::lemma_mod_bound(a, b);
                let n = s.nonnull as int;
                assert(2 * (avg * n) == b * avg) by (nonlinear_arith)
                    requires
                        b == 2 * n,
                ;
                assert(avg <= s.length + 1) by (nonlinear_arith)
                    requires
                        2 * (avg * n) <= 2 * s.length + n,
                        n >= 1,
                        s.length >= 1,
                ;
                assert(is_nearest(s.length as int, n, avg));
            }
        }
    }
}

// ---------------------------------------------------------------------------
// Slots
// ---------------------------------------------------------------------------

/// Whether a frequency is that of a value that occurs `count` times in so many
/// rows; where no counts are known at all, that of one of `of` values.
pub open spec fn is_frequency(f: Frequency, counts_known: bool, count: int, of: int, rows: i64) -> bool {
    if !counts_known || rows <= 0 {
        f == Frequency::Even { of: of as usize }
    } else {
        f matches Frequency::Share { count: c, rows: r } && r == rows && c == if count >= 0 {
            count
        } else {
            0
        }
    }
}

/// How often counts say that a value occurs, 0 where they do not.
pub open spec fn count_in(counts: Option<Seq<(Seq<char>, i64)>>, v: Seq<char>) -> int {
    match counts {
        Some(s) => match lookup(s, v) {
            Some(n) => n as int,
            None => 0,
        },
        None => 0,
    }
}

/// What is written of a column: a histogram has the bounds that are known, and a
/// column with more than two is taken to be in order on disk. Without bounds, a
/// text column gets all its values, where they are known, each with how often it
/// occurs; else its most frequent values, at most a hundred of them.
pub proof fn lemma_slot_says(t: u32, known: KnownView, ndistinct: int, rows: i64)
    requires
        known.partial matches Some(p) ==> names_differ(p),
    ensures
        ({
            let c = chosen_slot(t, known, ndistinct, rows);
            match c.slot {
                Some(SlotView::Histogram { type_oid, bounds }) => {
                    &&& known.bounds == Some(bounds)
                    &&& type_oid == t
                    &&& c.correlation == if bounds.len() > 2 {
                        Some(t)
                    } else {
                        None
                    }
                    &&& c.ndistinct == ndistinct
                },
                Some(SlotView::Mcv { values, freqs }) => {
                    &&& known.bounds is None && is_text_number(t) && c.correlation is None
                    &&& freqs.len() == values.len()
                    &&& match known.complete {
                        Some(all) => values == all && forall|i: int|
                            0 <= i < values.len() ==> is_frequency(
                                #[trigger] freqs[i],
                                known.counts matches Some(s) && s.len() > 0,
                                count_in(known.counts, values[i]),
                                all.len() as int,
                                rows,
                            ),
                        None => {
                            &&& known.partial matches Some(p) && p.len() >= 2
                            &&& values.len() == if known.partial->0.len() < 100 {
                                known.partial->0.len()
                            } else {
                                100
                            }
                            &&& c.ndistinct == ndistinct
                            &&& forall|i: int|
                                0 <= i < values.len() ==> is_frequency(
                                    #[trigger] freqs[i],
                                    true,
                                    count_in(known.partial, values[i]),
                                    values.len() as int,
                                    rows,
                                )
                            &&& forall|i: int, j: int|
                                0 <= i <= j < values.len() ==> count_in(
                                    known.partial,
                                    #[trigger] values[i],
                                ) >= count_in(known.partial, #[trigger] values[j])
                            &&& forall|i: int, k: int|
                                0 <= i < values.len() && 0 <= k < known.partial->0.len()
                                    && !values.contains(known.partial->0[k].0) ==> count_in(
                                    known.partial,
                                    #[trigger] values[i],
                                ) >= (#[trigger] known.partial->0[k]).1
                        },
                    }
                },
                None => known.bounds is None && (!is_text_number(t) || (known.complete is None && (
                known.partial matches Some(p) ==> p.len() < 2))),
            }
        }),
{
    if known.bounds is None && is_text_number(t) && known.complete is None {
        if let Some(p) = known.partial {
            if p.len() >= 2 {
                let m = most_common(p, 100);
                let all = ordered(p, mcv_order());
                lemma_most_common(p, 100);
                assert forall|i: int| 0 <= i < m.len() implies lookup(m, (#[trigger] m[i]).0)
                    == Some(m[i].1) && lookup(p, m[i].0) == Some(m[i].1) by {
                    lemma_common_found(p, i);
                }
                assert forall|k: int| 0 <= k < p.len() implies exists|j: int|
                    0 <= j < all.len() && all[j] == #[trigger] p[k] by {
                    lemma_in_order(p, k);
                }
                let values = firsts(m);
                assert forall|i: int, k: int|
                    0 <= i < values.len() && 0 <= k < p.len() && !values.contains(
                        p[k].0,
                    ) implies count_in(known.partial, #[trigger] values[i]) >= (
                #[trigger] p[k]).1 by {
                    let j = choose|j: int| 0 <= j < all.len() && all[j] == p[k];
                    if j < m.len() {
                        assert(values[j] == p[k].0);
                    }
                    assert(m[i].1 >= all[j].1);
                    assert(lookup(p, m[i].0) == Some(m[i].1));
                }
                assert forall|i: int, j: int| 0 <= i <= j < values.len() implies count_in(
                    known.partial,
                    #[trigger] values[i],
                ) >= count_in(known.partial, #[trigger] values[j]) by {
                    assert(m[i].1 >= m[j].1);
                    assert(lookup(p, m[i].0) == Some(m[i].1));
                    assert(lookup(p, m[j].0) == Some(m[j].1));
                }
                let f = frequencies(values, m, rows);
                assert forall|i: int| 0 <= i < values.len() implies is_frequency(
                    #[trigger] f[i],
                    true,
                    count_in(known.partial, values[i]),
                    values.len() as int,
                    rows,
                ) by {
                    assert(lookup(m, m[i].0) == Some(m[i].1));
                    assert(lookup(p, m[i].0) == Some(m[i].1));
                }
            }
        }
    }
}

proof fn lemma_in_order(p: Seq<(Seq<char>, i64)>, k: int)
    requires
        0 <= k < p.len(),
    ensures
        exists|j: int| 0 <= j < ordered(p, mcv_order()).len() && ordered(p, mcv_order())[j] == p[k],
{
    broadcast use vstd::seq_lib::group_to_multiset_ensures;

    lemma_most_common(p, 0);
    let all = ordered(p, mcv_order());
    assert(p.contains(p[k]));
    assert(all.to_multiset().count(p[k]) > 0);
    assert(all.contains(p[k]));
}

/// Where values differ, each of the most frequent ones is found with its count.
proof fn lemma_common_found(p: Seq<(Seq<char>, i64)>, i: int)
    requires
        names_differ(p),
        0 <= i < most_common(p, 100).len(),
    ensures
        ({
            let m = most_common(p, 100);
            lookup(m, m[i].0) == Some(m[i].1) && lookup(p, m[i].0) == Some(m[i].1)
        }),
{
    broadcast use vstd::seq_lib::group_to_multiset_ensures;

    let m = most_common(p, 100);
    let all = ordered(p, mcv_order());
    lemma_most_common(p, 100);
    assert forall|j: int| 0 <= j < all.len() implies p.contains(#[trigger] all[j]) by {
        assert(all.contains(all[j]));
        assert(p.to_multiset().count(all[j]) > 0);
    }
    assert forall|a: (Seq<char>, i64), b: (Seq<char>, i64)|
        p.contains(a) && p.contains(b) && a.0 == b.0 implies #[trigger] a.1 == #[trigger] b.1 by {
        let x = choose|x: int| 0 <= x < p.len() && p[x] == a;
        let y = choose|y: int| 0 <= y < p.len() && p[y] == b;
        if x < y {
            assert(p[x].0 != p[y].0);
        } else if y < x {
            assert(p[y].0 != p[x].0);
        }
    }
    let name = m[i].0;
    assert(m[i] == all[i]);
    assert(p.contains(m[i]));
    lemma_found_by_name(m, name);
    lemma_found_by_name(p, name);
    assert(m[i].0 == name);
    let x = choose|x: int| 0 <= x < p.len() && p[x] == m[i];
    assert(p[x].0 == name);
    let c = lookup(m, name)->0;
    let k = choose|k: int| 0 <= k < m.len() && (#[trigger] m[k]) == (name, c);
    assert(p.contains(all[k]));
    assert(all[k].1 == m[i].1);
    let d = lookup(p, name)->0;
    let z = choose|z: int| 0 <= z < p.len() && (#[trigger] p[z]) == (name, d);
    assert(p.contains(p[z]));
    assert(p[z].1 == m[i].1);
}

// ---------------------------------------------------------------------------
// Tables
// ---------------------------------------------------------------------------

/// Whether no value of any column is counted twice.
pub open spec fn counted_once(acc: Seq<(Seq<char>, Seq<(Seq<char>, i64)>)>) -> bool {
    forall|col: Seq<char>|
        (#[trigger] lookup(acc, col)) matches Some(m) ==> names_differ(m)
}

proof fn lemma_all_counted_once(s: Seq<(Seq<char>, i64)>, more: Seq<(Seq<char>, i64)>)
    requires
        names_differ(s),
    ensures
        names_differ(all_counted(s, more)),
    decreases more.len(),
{
    if more.len() > 0 {
        let rest = all_counted(s, more.drop_last());
        let (v, c) = more.last();
        lemma_all_counted_once(s, more.drop_last());
        lemma_stored(
            rest,
            v,
            match lookup(rest, v) {
                Some(n) => n.wrapping_add(c),
                None => c,
            },
        );
    }
}

proof fn lemma_with_counts_once(
    acc: Seq<(Seq<char>, Seq<(Seq<char>, i64)>)>,
    more: Seq<(Seq<char>, Seq<(Seq<char>, i64)>)>,
)
    requires
        counted_once(acc),
    ensures
        counted_once(with_counts(acc, more)),
    decreases more.len(),
{
    if more.len() > 0 {
        let rest = with_counts(acc, more.drop_last());
        let (name, counts) = more.last();
        let before = match lookup(rest, name) {
            Some(m) => m,
            None => Seq::empty(),
        };
        lemma_with_counts_once(acc, more.drop_last());
        lemma_all_counted_once(before, counts);
        lemma_stored(rest, name, all_counted(before, counts));
        assert forall|col: Seq<char>|
            (#[trigger] lookup(with_counts(acc, more), col)) matches Some(m) implies names_differ(
            lookup(with_counts(acc, more), col)->0,
        ) by {
            if col != name {
                assert(lookup(rest, col) is Some);
            }
        }
    }
}

proof fn lemma_totals_once(rows: Seq<PartitionRow>)
    ensures
        counted_once(totals(rows).mcv),
    decreases rows.len(),
{
    if rows.len() == 0 {
        assert forall|col: Seq<char>|
            (#[trigger] lookup(totals(rows).mcv, col)) matches Some(m) implies names_differ(
            lookup(totals(rows).mcv, col)->0,
        ) by {
            lemma_found_by_name(totals(rows).mcv, col);
        }
    } else {
        lemma_totals_once(rows.drop_last());
        match rows.last().mcv {
            Some(s) => lemma_with_counts_once(totals(rows.drop_last()).mcv, valcounts(s@)),
            None => {},
        }
    }
}

/// The most common values of a table's column, where not all its values are
/// known, are written with how often the partitions together say that they occur,
/// of the rows of all partitions.
pub proof fn lemma_table_common_values(
    rows: Seq<PartitionRow>,
    widths: Seq<(i16, i32)>,
    mins: Seq<(Seq<char>, Seq<i64>)>,
    attr: AttrInfo,
    estimate: Option<usize>,
    i: int,
)
    requires
        ({
            let t = totals(rows);
            let nd = table_ndistinct(t, attr.attname@, estimate);
            &&& t.rows > 0
            &&& table_known(t, mins, attr.atttypid, attr.attname@, nd).complete is None
            &&& table_column(t, widths, mins, attr, estimate).slot matches Some(
                SlotView::Mcv { values, freqs },
            ) && 0 <= i < values.len()
        }),
    ensures
        ({
            let t = totals(rows);
            let slot = table_column(t, widths, mins, attr, estimate).slot->0;
            let v = slot->values[i];
            let n = held_count(t.mcv, attr.attname@, v);
            &&& same_in_64_bits(n, sum_over(rows, |r: PartitionRow| text_count(r.mcv, attr.attname@, v)))
            &&& slot->freqs.len() == slot->values.len() <= 100
            &&& slot->freqs[i] matches Frequency::Share { count, rows: of } && of == t.rows && (n >= 0
                ==> count == n)
        }),
{
    let t = totals(rows);
    let nd = table_ndistinct(t, attr.attname@, estimate);
    let known = table_known(t, mins, attr.atttypid, attr.attname@, nd);
    lemma_totals_once(rows);
    assert(lookup(t.mcv, attr.attname@) is Some ==> names_differ(lookup(t.mcv, attr.attname@)->0));
    lemma_slot_says(attr.atttypid, known, nd, t.rows);
    let slot = table_column(t, widths, mins, attr, estimate).slot->0;
    lemma_table_counts(rows, attr.attname@, slot->values[i]);
    assert(is_frequency(
        slot->freqs[i],
        true,
        count_in(known.partial, slot->values[i]),
        slot->values.len() as int,
        t.rows,
    ));
}

/// A table's column keeps its number; its nulls are those of its partitions
/// unless it is declared to have none; it is as wide as the partitions say, where
/// they do, and else as its declared length, or 32 bytes.
pub proof fn lemma_table_column_says(
    t: TotalsView,
    widths: Seq<(i16, i32)>,
    mins: Seq<(Seq<char>, Seq<i64>)>,
    attr: AttrInfo,
    estimate: Option<usize>,
    i: int,
)
    requires
        0 <= i < widths.len(),
        widths[i].0 == attr.attnum,
        forall|j: int| 0 <= j < i ==> (#[trigger] widths[j]).0 != attr.attnum,
    ensures
        ({
            let c = table_column(t, widths, mins, attr, estimate);
            &&& c.attnum == attr.attnum
            &&& c.nulls == crate::stats::table::NullSource::Zero <==> attr.attnotnull
            &&& c.width == if widths[i].1 > 0 {
                widths[i].1 as int
            } else if attr.attlen > 0 {
                attr.attlen as int
            } else {
                32
            }
        }),
{
    crate::search::lemma_first_is(widths, crate::stats::table::has_attnum(attr.attnum), i);
}

/// A table whose column has a sketch has as many distinct values as is estimated,
/// but at least one and no more than there are rows.
pub proof fn lemma_estimated_distinct(t: TotalsView, name: Seq<char>, e: usize)
    requires
        t.rows > 0,
        e <= i64::MAX,
    ensures
        ({
            let n = table_ndistinct(t, name, Some(e));
            &&& 1 <= n <= t.rows
            &&& 1 <= e <= t.rows ==> n == e
            &&& e > t.rows ==> n == t.rows
        }),
{
}

// ---------------------------------------------------------------------------
// Histograms
// ---------------------------------------------------------------------------

/// Whether a type has a histogram: integers, floats and times.
pub open spec fn is_ordered_number(t: u32) -> bool {
    t == 21 || t == 23 || t == 20 || t == 700 || t == 701 || t == 1114 || t == 1184 || t == 1082
}

proof fn lemma_without_repeats_held(t: u32, s: Seq<i64>, i: int)
    requires
        0 <= i < without_repeats(t, s).len(),
    ensures
        s.contains(without_repeats(t, s)[i]),
    decreases s.len(),
{
    let kept = without_repeats(t, s.drop_last());
    let r = without_repeats(t, s);
    if i < kept.len() {
        lemma_without_repeats_held(t, s.drop_last(), i);
        let k = choose|k: int| 0 <= k < s.drop_last().len() && s.drop_last()[k] == kept[i];
        assert(s[k] == r[i]);
    } else {
        assert(s[s.len() - 1] == r[i]);
    }
}

proof fn lemma_downsampled_held(s: Seq<i64>, max_bounds: int, i: int)
    requires
        0 <= i < downsampled(s, max_bounds).len(),
    ensures
        s.contains(downsampled(s, max_bounds)[i]),
{
    if s.len() > max_bounds && max_bounds >= 2 {
        let p = spread(s, max_bounds);
        lemma_without_repeats_held(20, p, i);
        let x = downsampled(s, max_bounds)[i];
        let k = choose|k: int| 0 <= k < p.len() && p[k] == x;
        let at = k * (s.len() - 1) / (max_bounds - 1);
        assert(0 <= k * (s.len() - 1) <= (max_bounds - 1) * (s.len() - 1)) by (nonlinear_arith)
            requires
                0 <= k <= max_bounds - 1,
                s.len() >= 1,
        ;
        vstd::arithmetic::div_mod::lemma_div_multiples_vanish((s.len() - 1) as int, max_bounds - 1);
        assert((max_bounds - 1) * (s.len() - 1) == (s.len() - 1) * (max_bounds - 1))
            by (nonlinear_arith);
        vstd::arithmetic::div_mod::lemma_div_is_ordered(
            k * (s.len() - 1),
            (max_bounds - 1) * (s.len() - 1),
            max_bounds - 1,
        );
        vstd::arithmetic::div_mod::lemma_div_is_ordered(0, k * (s.len() - 1), max_bounds - 1);
        assert(s[at] == x);
    } else {
        assert(s[i] == downsampled(s, max_bounds)[i]);
    }
}

proof fn lemma_ascending_from(s: Seq<i64>, x: i64)
    requires
        ascending(s).contains(x),
    ensures
        s.contains(x),
{
    lemma_ascending_holds(s, x);
}

/// Every bound of a histogram is a value of the column: one of the smallest values
/// that were given, or the largest value of all. Only integers, floats and times
/// have one.
pub proof fn lemma_bounds_are_values(t: u32, mins: Seq<i64>, global_max: i64, max_bounds: int, i: int)
    requires
        histogram_bounds(t, mins, global_max, max_bounds) is Some,
        0 <= i < histogram_bounds(t, mins, global_max, max_bounds)->0.len(),
    ensures
        ({
            let b = histogram_bounds(t, mins, global_max, max_bounds)->0;
            mins.contains(b[i]) || b[i] == global_max
        }),
        is_ordered_number(t),
{
    let b = histogram_bounds(t, mins, global_max, max_bounds)->0;
    let sorted = ascending(mins);
    lemma_ascending(mins);
    if crate::stats::bounds::well_distributed(sorted, global_max) {
        let pushed = sorted.push(global_max);
        let all = ascending(pushed);
        let distinct = without_repeats(t, all);
        lemma_downsampled_held(distinct, max_bounds, i);
        let k = choose|k: int| 0 <= k < distinct.len() && distinct[k] == b[i];
        lemma_without_repeats_held(t, all, k);
        lemma_ascending_from(pushed, b[i]);
        let j = choose|j: int| 0 <= j < pushed.len() && pushed[j] == b[i];
        if j < sorted.len() {
            assert(sorted[j] == b[i]);
            assert(sorted.contains(b[i]));
            lemma_ascending_from(mins, b[i]);
        }
    } else {
        assert(sorted[0] == sorted[0]);
        if i == 0 {
            assert(sorted.contains(b[i]));
            lemma_ascending_from(mins, b[i]);
        }
    }
}

/// The histogram of a table is of its partitions: every bound is where one of them
/// begins, or the largest value of all.
pub proof fn lemma_table_bounds_are_values(t: u32, ranges: Seq<Range>, i: int)
    requires
        parent_bounds(t, ranges) is Some,
        0 <= i < parent_bounds(t, ranges)->0.len(),
    ensures
        ({
            let b = parent_bounds(t, ranges)->0;
            b[i] == largest_hi(ranges) || exists|k: int|
                0 <= k < ranges.len() && (#[trigger] ranges[k]).lo == b[i]
        }),
        is_ordered_number(t),
{
    let b = parent_bounds(t, ranges)->0;
    let s = ascending(lows(ranges)).push(largest_hi(ranges));
    lemma_without_repeats_held(t, s, i);
    let k = choose|k: int| 0 <= k < s.len() && s[k] == b[i];
    if k < s.len() - 1 {
        assert(ascending(lows(ranges))[k] == b[i]);
        assert(ascending(lows(ranges)).contains(b[i]));
        lemma_ascending_from(lows(ranges), b[i]);
        let j = choose|j: int| 0 <= j < lows(ranges).len() && lows(ranges)[j] == b[i];
        assert(ranges[j].lo == b[i]);
    }
}

/// The largest upper end is one of them, and none is larger.
pub proof fn lemma_largest_hi(ranges: Seq<Range>, k: int)
    requires
        0 <= k < ranges.len(),
    ensures
        largest_hi(ranges) >= ranges[k].hi,
        exists|j: int| 0 <= j < ranges.len() && (#[trigger] ranges[j]).hi == largest_hi(ranges),
    decreases ranges.len(),
{
    let front = ranges.drop_last();
    if front.len() > 0 {
        lemma_largest_hi(
            front,
            if k < front.len() {
                k
            } else {
                0
            },
        );
        let j = choose|j: int| 0 <= j < front.len() && (#[trigger] front[j]).hi == largest_hi(front);
        assert(ranges[j].hi == largest_hi(front));
    }
    assert(ranges[ranges.len() - 1].hi == ranges.last().hi);
    if front.len() == 0 {
        assert(largest_hi(front) == i64::MIN);
    }
}

/// Where there are more values than a histogram has bounds, the bounds are taken at
/// even distances: the share of the values before one is its share of the bounds,
/// to within one value. The first and the last value are among them.
pub proof fn lemma_evenly_spread(s: Seq<i64>, count: int, i: int)
    requires
        2 <= count < s.len(),
        0 <= i < count,
    ensures
        spread(s, count).len() == count,
        spread(s, count)[0] == s[0],
        spread(s, count)[count - 1] == s.last(),
        exists|k: int|
            0 <= k < s.len() && spread(s, count)[i] == #[trigger] s[k] && k * (count - 1) <= i * (
            s.len() - 1) < (k + 1) * (count - 1),
{
    let n = s.len() - 1;
    let c = count - 1;
    let k = i * n / c;
    vstd::arithmetic::div_mod::lemma_fundamental_div_mod(i * n, c);
    vstd::arithmetic::div_mod::lemma_mod_bound(i * n, c);
    assert(k * c <= i * n < (k + 1) * c) by (nonlinear_arith)
        requires
            i * n == c * k + (i * n) % c,
            0 <= (i * n) % c < c,
    ;
    assert(0 <= k <= n) by (nonlinear_arith)
        requires
            k * c <= i * n,
            i * n < (k + 1) * c,
            0 <= i <= c,
            n >= 0,
            c >= 1,
    ;
    assert(spread(s, count)[i] == s[k]);
    assert(0 * n / c == 0) by {
        assert(0 * n == 0) by (nonlinear_arith);
    }
    vstd::arithmetic::div_mod::lemma_div_multiples_vanish(n, c);
    assert(c * n == n * c) by (nonlinear_arith);
    assert(c * n / c == n);
}

/// Every bound of a table's histogram is a value of its column: the smallest of a
/// segment, where those are known, else of a partition; or the largest of all.
pub proof fn lemma_bounds_of_table(
    t: TotalsView,
    mins: Seq<(Seq<char>, Seq<i64>)>,
    type_oid: u32,
    name: Seq<char>,
    i: int,
)
    requires
        table_bounds(t, mins, type_oid, name) is Some,
        0 <= i < table_bounds(t, mins, type_oid, name)->0.len(),
    ensures
        ({
            let x = table_bounds(t, mins, type_oid, name)->0[i];
            let ranges = list_or_empty(lookup(t.ranges, name));
            &&& is_ordered_number(type_oid)
            &&& x == largest_hi(ranges) || match lookup(mins, name) {
                Some(v) => if v.len() > 0 {
                    v.contains(x)
                } else {
                    exists|k: int| 0 <= k < ranges.len() && (#[trigger] ranges[k]).lo == x
                },
                None => exists|k: int| 0 <= k < ranges.len() && (#[trigger] ranges[k]).lo == x,
            }
        }),
{
    let ranges = list_or_empty(lookup(t.ranges, name));
    let segments = list_or_empty(lookup(mins, name));
    if segments.len() > 0 {
        lemma_bounds_are_values(type_oid, segments, largest_hi(ranges), 101, i);
    } else {
        lemma_table_bounds_are_values(type_oid, ranges, i);
    }
}

/// What is known of a table's column is what its partitions say under its name.
/// Their values are all there are exactly where they are two or more and as many
/// as the distinct values.
pub proof fn lemma_known_of_table(
    t: TotalsView,
    mins: Seq<(Seq<char>, Seq<i64>)>,
    type_oid: u32,
    name: Seq<char>,
    n: int,
)
    requires
        lookup(t.values, name) matches Some(v) ==> v.len() <= i64::MAX,
    ensures
        ({
            let k = table_known(t, mins, type_oid, name, n);
            &&& k.counts == lookup(t.counts, name)
            &&& k.partial == lookup(t.mcv, name)
            &&& k.complete matches Some(v) ==> lookup(t.values, name) == Some(v) && v.len() >= 2
                && v.len() == n
            &&& k.complete is None ==> (lookup(t.values, name) matches Some(v) ==> v.len() < 2
                || v.len() != n)
        }),
{
}

/// A table is as wide as its columns together.
pub proof fn lemma_width_of_table(
    t: TotalsView,
    widths: Seq<(i16, i32)>,
    mins: Seq<(Seq<char>, Seq<i64>)>,
    attrs: Seq<AttrInfo>,
    estimate: Option<usize>,
)
    requires
        attrs.len() > 0,
    ensures
        total_table_width(widths, Seq::empty()) == 0,
        total_table_width(widths, attrs) == total_table_width(widths, attrs.drop_last())
            + table_column(t, widths, mins, attrs.last(), estimate).width,
{
}

/// Whether no value is in two of the ranges, taken by pairs of neighbours in the
/// order of where they start.
pub open spec fn neighbours_apart(s: Seq<Range>) -> bool {
    forall|i: int| 0 < i < s.len() ==> (#[trigger] s[i]).lo > s[i - 1].hi
}

proof fn lemma_no_overlaps(s: Seq<Range>)
    ensures
        0 <= overlaps(s),
        neighbours_apart(s) ==> overlaps(s) == 0,
        (forall|i: int| 0 < i < s.len() ==> (#[trigger] s[i]).lo <= s[i - 1].hi) && s.len() > 0
            ==> overlaps(s) == s.len() - 1,
    decreases s.len(),
{
    if s.len() > 1 {
        let t = s.drop_last();
        lemma_no_overlaps(t);
        assert(forall|i: int| 0 <= i < t.len() ==> t[i] == s[i]);
        assert(s[s.len() - 1] == s.last());
        if neighbours_apart(s) {
            assert forall|i: int| 0 < i < t.len() implies (#[trigger] t[i]).lo > t[i - 1].hi by {
                assert(s[i].lo > s[i - 1].hi);
            }
        }
        if forall|i: int| 0 < i < s.len() ==> (#[trigger] s[i]).lo <= s[i - 1].hi {
            assert forall|i: int| 0 < i < t.len() implies (#[trigger] t[i]).lo <= t[i - 1].hi by {
                assert(s[i].lo <= s[i - 1].hi);
            }
        }
    }
}

/// Partitions whose ranges do not meet are taken to have different values; those
/// of which each begins before the one before it ends are not.
pub proof fn lemma_disjoint_ranges(ranges: Seq<Range>)
    requires
        ranges.len() > 1,
    ensures
        ({
            let s = ordered(ranges, range_order());
            &&& neighbours_apart(s) ==> mostly_disjoint(ranges)
            &&& (forall|i: int| 0 < i < s.len() ==> (#[trigger] s[i]).lo <= s[i - 1].hi)
                ==> !mostly_disjoint(ranges)
        }),
{
    lemma_no_overlaps(ordered(ranges, range_order()));
    lemma_ordered_len(ranges);
}

proof fn lemma_ordered_len(ranges: Seq<Range>)
    ensures
        ordered(ranges, range_order()).len() == ranges.len(),
{
    crate::sorting::lemma_ordered(ranges, range_order());
}

/// Where all values of a text column are written, the column is said to have as
/// many distinct values; else as many as were counted.
pub proof fn lemma_distinct_of_slot(t: u32, known: KnownView, n: int, rows: i64)
    requires
        known.complete matches Some(v) ==> v.len() <= i64::MAX,
    ensures
        chosen_slot(t, known, n, rows).ndistinct == if known.bounds is None && is_text_number(t)
            && known.complete is Some {
            known.complete->0.len() as int
        } else {
            n
        },
{
}

} // verus!
