//! Statistics of a whole table, merged from those of its partitions.

use vstd::prelude::*;
use crate::search::{first_where, lemma_first_is, lemma_first_none, lemma_first_where};
use crate::stats::assoc::{is_named, lookup, push_int, stored, Assoc};
use crate::stats::bounds::{
    build_histogram_bounds, histogram_bounds, largest_hi, max_hi, opt_ints, parent_bounds,
    parent_histogram_bounds, Range, MAX_HISTOGRAM_BOUNDS,
};
use crate::stats::estimates::{
    clamped, distinct_of, merge_ndistinct, merged_distinct, pages, rel_pages, row_width,
    stadistinct_value, stawidth_for_attlen, width_of_attlen, AttrInfo, Stadistinct, DEFAULT_WIDTH,
};
use crate::stats::json::{
    add_partition_counts, json_object, parse_valcounts_json, union_valmap_json, valcounts,
    with_counts, with_values,
};
use crate::stats::sketch::{
    all_sound, estimate, estimate_of, json_sketches, merge_partition_hll_json, with_sketches, Sketch,
};
use crate::stats::slots::{choose_slot, chosen_slot, opt_slot, KnownView, Slot1, SlotView};
use crate::stats::values::Values;

verus! {

/// What the catalog holds of one compressed partition of a table.
pub struct PartitionRow {
    pub row_count: i64,
    pub ndistinct: Assoc<i64>,
    pub minmax: Assoc<Range>,
    pub hll: Option<String>,
    pub valmap: Option<String>,
    pub valcounts: Option<String>,
    pub mcv: Option<String>,
}

/// What the partitions of a table add up to, column by column.
pub struct TableTotals {
    pub rows: i64,
    /// Each partition's number of distinct values.
    pub nds: Assoc<Vec<i64>>,
    /// Each partition's extremes.
    pub ranges: Assoc<Vec<Range>>,
    pub sketches: Assoc<Sketch>,
    pub values: Assoc<Values>,
    pub counts: Assoc<Assoc<i64>>,
    pub mcv: Assoc<Assoc<i64>>,
}

pub struct TotalsView {
    pub rows: i64,
    pub nds: Seq<(Seq<char>, Seq<i64>)>,
    pub ranges: Seq<(Seq<char>, Seq<Range>)>,
    pub sketches: Seq<(Seq<char>, Seq<u64>)>,
    pub values: Seq<(Seq<char>, Seq<Seq<char>>)>,
    pub counts: Seq<(Seq<char>, Seq<(Seq<char>, i64)>)>,
    pub mcv: Seq<(Seq<char>, Seq<(Seq<char>, i64)>)>,
}

impl View for TableTotals {
    type V = TotalsView;

    open spec fn view(&self) -> TotalsView {
        TotalsView {
            rows: self.rows,
            nds: self.nds@,
            ranges: self.ranges@,
            sketches: self.sketches@,
            values: self.values@,
            counts: self.counts@,
            mcv: self.mcv@,
        }
    }
}

/// Lists by name, each with the item of that name at its end.
pub open spec fn appended<V>(acc: Seq<(Seq<char>, Seq<V>)>, more: Seq<(Seq<char>, V)>) -> Seq<
    (Seq<char>, Seq<V>),
>
    decreases more.len(),
{
    if more.len() == 0 {
        acc
    } else {
        let rest = appended(acc, more.drop_last());
        let (name, v) = more.last();
        stored(
            rest,
            name,
            match lookup(rest, name) {
                Some(s) => s.push(v),
                None => seq![v],
            },
        )
    }
}

pub open spec fn counts_with(
    acc: Seq<(Seq<char>, Seq<(Seq<char>, i64)>)>,
    t: Option<String>,
) -> Seq<(Seq<char>, Seq<(Seq<char>, i64)>)> {
    match t {
        Some(s) => with_counts(acc, valcounts(s@)),
        None => acc,
    }
}

/// The totals with one more partition.
pub open spec fn totals_with(t: TotalsView, row: PartitionRow) -> TotalsView {
    TotalsView {
        rows: t.rows.wrapping_add(row.row_count),
        nds: appended(t.nds, row.ndistinct@),
        ranges: appended(t.ranges, row.minmax@),
        sketches: match row.hll {
            Some(s) => match json_sketches(s@) {
                Some(m) => with_sketches(t.sketches, m),
                None => t.sketches,
            },
            None => t.sketches,
        },
        values: match row.valmap {
            Some(s) => match json_object(s@) {
                Some(o) => with_values(t.values, o),
                None => t.values,
            },
            None => t.values,
        },
        counts: counts_with(t.counts, row.valcounts),
        mcv: counts_with(t.mcv, row.mcv),
    }
}

pub open spec fn no_totals() -> TotalsView {
    TotalsView {
        rows: 0,
        nds: Seq::empty(),
        ranges: Seq::empty(),
        sketches: Seq::empty(),
        values: Seq::empty(),
        counts: Seq::empty(),
        mcv: Seq::empty(),
    }
}

/// The totals of partitions.
pub open spec fn totals(rows: Seq<PartitionRow>) -> TotalsView
    decreases rows.len(),
{
    if rows.len() == 0 {
        no_totals()
    } else {
        totals_with(totals(rows.drop_last()), rows.last())
    }
}

fn push_range(list: &mut Assoc<Vec<Range>>, name: &str, v: Range)
    ensures
        final(list)@ == stored(
            old(list)@,
            name@,
            match lookup(old(list)@, name@) {
                Some(s) => s.push(v),
                None => seq![v],
            },
        ),
{
    let ghost before = list@;
    match list.find(name) {
        Some(i) => {
            proof {
                lemma_first_where(before, is_named(name@));
            }
            list.entries[i].item.push(v);
            assert(list@ =~= before.update(i as int, (name@, before[i as int].1.push(v))));
        },
        None => {
            let item: Vec<Range> = vec![v];
            assert(item@ =~= seq![v]);
            list.push(name.to_owned(), item);
        },
    }
}

fn append_ints(acc: &mut Assoc<Vec<i64>>, more: &Assoc<i64>)
    ensures
        final(acc)@ == appended(old(acc)@, more@),
{
    let ghost before = acc@;
    let ghost m = more@;
    let mut i: usize = 0;
    assert(m.subrange(0, 0) =~= Seq::<(Seq<char>, i64)>::empty());
    while i < more.entries.len()
        invariant
            i <= more.entries.len(),
            m == more@,
            acc@ == appended(before, m.subrange(0, i as int)),
        decreases more.entries.len() - i,
    {
        assert(m.subrange(0, i + 1).drop_last() =~= m.subrange(0, i as int));
        assert(m.subrange(0, i + 1).last() == more.entries@[i as int]@);
        push_int(acc, more.entries[i].name.as_str(), more.entries[i].item);
        i += 1;
    }
    assert(m.subrange(0, i as int) =~= m);
}

fn append_ranges(acc: &mut Assoc<Vec<Range>>, more: &Assoc<Range>)
    ensures
        final(acc)@ == appended(old(acc)@, more@),
{
    let ghost before = acc@;
    let ghost m = more@;
    let mut i: usize = 0;
    assert(m.subrange(0, 0) =~= Seq::<(Seq<char>, Range)>::empty());
    while i < more.entries.len()
        invariant
            i <= more.entries.len(),
            m == more@,
            acc@ == appended(before, m.subrange(0, i as int)),
        decreases more.entries.len() - i,
    {
        assert(m.subrange(0, i + 1).drop_last() =~= m.subrange(0, i as int));
        assert(m.subrange(0, i + 1).last() == more.entries@[i as int]@);
        push_range(acc, more.entries[i].name.as_str(), more.entries[i].item);
        i += 1;
    }
    assert(m.subrange(0, i as int) =~= m);
}

fn add_text_counts(acc: &mut Assoc<Assoc<i64>>, t: &Option<String>)
    ensures
        final(acc)@ == counts_with(old(acc)@, *t),
{
    match t {
        Some(s) => {
            let more = parse_valcounts_json(s.as_str());
            add_partition_counts(acc, &more);
        },
        None => {},
    }
}

impl TableTotals {
    pub fn new() -> (r: TableTotals)
        ensures
            r@ == no_totals(),
            all_sound(r.sketches@),
    {
        TableTotals {
            rows: 0,
            nds: Assoc::new(),
            ranges: Assoc::new(),
            sketches: Assoc::new(),
            values: Assoc::new(),
            counts: Assoc::new(),
            mcv: Assoc::new(),
        }
    }

    /// Adds what the catalog holds of a partition.
    pub fn add_partition(&mut self, row: &PartitionRow)
        ensures
            final(self)@ == totals_with(old(self)@, *row),
            all_sound(old(self).sketches@) ==> all_sound(final(self).sketches@),
    {
        self.rows = self.rows.wrapping_add(row.row_count);
        append_ints(&mut self.nds, &row.ndistinct);
        append_ranges(&mut self.ranges, &row.minmax);
        match &row.hll {
            Some(s) => {
                merge_partition_hll_json(s.as_str(), &mut self.sketches);
            },
            None => {},
        }
        match &row.valmap {
            Some(s) => {
                union_valmap_json(s.as_str(), &mut self.values);
            },
            None => {},
        }
        add_text_counts(&mut self.counts, &row.valcounts);
        add_text_counts(&mut self.mcv, &row.mcv);
    }
}

// ---------------------------------------------------------------------------
// Columns
// ---------------------------------------------------------------------------

/// What a table's catalog holds besides its partitions.
pub struct TableData {
    pub attrs: Vec<AttrInfo>,
    /// Average widths in the partitions, by column number.
    pub widths: Vec<(i16, i32)>,
    /// Smallest values of the segments of all partitions, by column.
    pub segment_mins: Assoc<Vec<i64>>,
}

/// Where the fraction of null values of a table's column comes from.
#[derive(Clone, Copy, Debug, PartialEq, Eq, Structural)]
pub enum NullSource {
    /// The column is declared not null.
    Zero,
    /// The average over the partitions, weighted by their rows.
    Partitions,
}

/// Statistics of a table's column.
pub struct TableColumnStats {
    pub attnum: i16,
    pub distinct: Stadistinct,
    pub nulls: NullSource,
    pub width: i32,
    pub slot: Option<Slot1>,
    pub correlation: Option<u32>,
}

pub struct TableColumnView {
    pub attnum: i16,
    pub distinct: Stadistinct,
    pub nulls: NullSource,
    pub width: int,
    pub slot: Option<SlotView>,
    pub correlation: Option<u32>,
}

impl View for TableColumnStats {
    type V = TableColumnView;

    open spec fn view(&self) -> TableColumnView {
        TableColumnView {
            attnum: self.attnum,
            distinct: self.distinct,
            nulls: self.nulls,
            width: self.width as int,
            slot: opt_slot(self.slot),
            correlation: self.correlation,
        }
    }
}

pub open spec fn has_attnum(attnum: i16) -> spec_fn((i16, i32)) -> bool {
    |e: (i16, i32)| e.0 == attnum
}

/// The width of a table's column: the partitions' average, where there is one.
pub open spec fn table_width(widths: Seq<(i16, i32)>, attr: AttrInfo) -> int {
    match first_where(widths, has_attnum(attr.attnum)) {
        Some(i) => if widths[i].1 > 0 {
            widths[i].1 as int
        } else {
            width_of_attlen(attr.attlen)
        },
        None => width_of_attlen(attr.attlen),
    }
}

fn width_in(widths: &Vec<(i16, i32)>, attr: &AttrInfo) -> (r: i32)
    ensures
        r == table_width(widths@, *attr),
        r > 0,
{
    let mut i: usize = 0;
    while i < widths.len()
        invariant
            i <= widths.len(),
            forall|j: int| 0 <= j < i ==> (#[trigger] widths@[j]).0 != attr.attnum,
        decreases widths.len() - i,
    {
        if widths[i].0 == attr.attnum {
            proof {
                lemma_first_is(widths@, has_attnum(attr.attnum), i as int);
            }
            let w: i32 = widths[i].1;
            return if w > 0 {
                w
            } else {
                stawidth_for_attlen(attr.attlen)
            };
        }
        i += 1;
    }
    proof {
        lemma_first_none(widths@, has_attnum(attr.attnum));
    }
    stawidth_for_attlen(attr.attlen)
}

pub open spec fn list_or_empty<V>(s: Option<Seq<V>>) -> Seq<V> {
    match s {
        Some(v) => v,
        None => Seq::empty(),
    }
}

/// The number of distinct values of a table's column: the estimate of its merged
/// sketch, or else what the partitions' numbers say.
pub open spec fn table_ndistinct(t: TotalsView, name: Seq<char>, estimate: Option<usize>) -> int {
    match estimate {
        Some(e) => clamped(
            (e as i64) as int,
            1,
            if t.rows > 1 {
                t.rows as int
            } else {
                1
            },
        ),
        None => merged_distinct(
            list_or_empty(lookup(t.nds, name)),
            list_or_empty(lookup(t.ranges, name)),
            t.rows,
        ),
    }
}

/// The histogram of a table's column, from its segments where their smallest
/// values are known, else from its partitions.
pub open spec fn table_bounds(
    t: TotalsView,
    mins: Seq<(Seq<char>, Seq<i64>)>,
    type_oid: u32,
    name: Seq<char>,
) -> Option<Seq<i64>> {
    let ranges = list_or_empty(lookup(t.ranges, name));
    let segments = list_or_empty(lookup(mins, name));
    if segments.len() > 0 {
        histogram_bounds(type_oid, segments, largest_hi(ranges), MAX_HISTOGRAM_BOUNDS as int)
    } else {
        parent_bounds(type_oid, ranges)
    }
}

/// What is known of the values of a table's column. The values found in the
/// partitions are all there are where they are as many as there are distinct
/// values.
pub open spec fn table_known(
    t: TotalsView,
    mins: Seq<(Seq<char>, Seq<i64>)>,
    type_oid: u32,
    name: Seq<char>,
    ndistinct: int,
) -> KnownView {
    KnownView {
        bounds: table_bounds(t, mins, type_oid, name),
        complete: match lookup(t.values, name) {
            Some(v) => if v.len() >= 2 && v.len() as i64 == ndistinct {
                Some(v)
            } else {
                None
            },
            None => None,
        },
        counts: lookup(t.counts, name),
        partial: lookup(t.mcv, name),
    }
}

/// The statistics of a table's column, given the estimate of its merged sketch.
pub open spec fn table_column(
    t: TotalsView,
    widths: Seq<(i16, i32)>,
    mins: Seq<(Seq<char>, Seq<i64>)>,
    attr: AttrInfo,
    estimate: Option<usize>,
) -> TableColumnView {
    let nd = table_ndistinct(t, attr.attname@, estimate);
    let choice = chosen_slot(
        attr.atttypid,
        table_known(t, mins, attr.atttypid, attr.attname@, nd),
        nd,
        t.rows,
    );
    TableColumnView {
        attnum: attr.attnum,
        distinct: distinct_of(choice.ndistinct as i64, t.rows),
        nulls: if attr.attnotnull {
            NullSource::Zero
        } else {
            NullSource::Partitions
        },
        width: table_width(widths, attr),
        slot: choice.slot,
        correlation: choice.correlation,
    }
}

/// The number of distinct values of a table's column does not depend on which
/// slot it gets.
pub proof fn lemma_table_distinct(
    t: TotalsView,
    widths: Seq<(i16, i32)>,
    mins: Seq<(Seq<char>, Seq<i64>)>,
    attr: AttrInfo,
    estimate: Option<usize>,
)
    ensures
        table_column(t, widths, mins, attr, estimate).distinct == distinct_of(
            table_ndistinct(t, attr.attname@, estimate) as i64,
            t.rows,
        ),
{
}

fn merged_nd(t: &TableTotals, name: &str, estimate: Option<usize>) -> (r: i64)
    ensures
        r == table_ndistinct(t@, name@, estimate),
{
    let cap: i64 = if t.rows > 1 {
        t.rows
    } else {
        1
    };
    match estimate {
        Some(e) => {
            let n: i64 = #[verifier::truncate]
            (e as i64);
            if n < 1 {
                1
            } else if n > cap {
                cap
            } else {
                n
            }
        },
        None => {
            let no_nds: Vec<i64> = Vec::new();
            let no_ranges: Vec<Range> = Vec::new();
            let nds = match t.nds.get(name) {
                Some(v) => v,
                None => &no_nds,
            };
            let ranges = match t.ranges.get(name) {
                Some(v) => v,
                None => &no_ranges,
            };
            merge_ndistinct(nds, ranges, t.rows)
        },
    }
}

fn bounds_for(
    t: &TableTotals,
    mins: &Assoc<Vec<i64>>,
    type_oid: u32,
    name: &str,
) -> (r: Option<Vec<i64>>)
    ensures
        opt_ints(r) == table_bounds(t@, mins@, type_oid, name@),
{
    let no_ranges: Vec<Range> = Vec::new();
    let ranges = match t.ranges.get(name) {
        Some(v) => v,
        None => &no_ranges,
    };
    match mins.get(name) {
        Some(v) => {
            if v.len() > 0 {
                return build_histogram_bounds(type_oid, v, max_hi(ranges), MAX_HISTOGRAM_BOUNDS);
            }
        },
        None => {},
    }
    parent_histogram_bounds(type_oid, ranges)
}

/// The statistics of a table's column, given the estimate of its merged sketch.
pub fn table_column_stats(
    t: &TableTotals,
    data: &TableData,
    attr: &AttrInfo,
    estimate: Option<usize>,
) -> (r: TableColumnStats)
    ensures
        r@ == table_column(t@, data.widths@, data.segment_mins@, *attr, estimate),
        r.width > 0,
{
    let name = attr.attname.as_str();
    let nd: i64 = merged_nd(t, name, estimate);
    let complete: Option<&Values> = match t.values.get(name) {
        Some(v) => {
            assert(v@.len() == v.items.len());
            let n: i64 = #[verifier::truncate]
            (v.items.len() as i64);
            if v.items.len() >= 2 && n == nd {
                Some(v)
            } else {
                None
            }
        },
        None => None,
    };
    let choice = choose_slot(
        attr.atttypid,
        bounds_for(t, &data.segment_mins, attr.atttypid, name),
        complete,
        t.counts.get(name),
        t.mcv.get(name),
        nd,
        t.rows,
    );
    TableColumnStats {
        attnum: attr.attnum,
        distinct: stadistinct_value(choice.ndistinct, t.rows),
        nulls: if attr.attnotnull {
            NullSource::Zero
        } else {
            NullSource::Partitions
        },
        width: width_in(&data.widths, attr),
        slot: choice.slot,
        correlation: choice.correlation,
    }
}

pub open spec fn total_table_width(widths: Seq<(i16, i32)>, attrs: Seq<AttrInfo>) -> int
    decreases attrs.len(),
{
    if attrs.len() == 0 {
        0
    } else {
        total_table_width(widths, attrs.drop_last()) + table_width(widths, attrs.last())
    }
}

/// Statistics of a table.
pub struct TableStats {
    pub columns: Vec<TableColumnStats>,
    pub rows: i64,
    pub pages: i32,
}

/// Whether `c` is what a column gets for an estimate of its merged sketch, and
/// for none where it has no sketch.
pub open spec fn is_column_of(
    t: TotalsView,
    data: TableData,
    attr: AttrInfo,
    c: TableColumnView,
) -> bool {
    exists|estimate: Option<usize>|
        estimate_of(t.sketches, attr.attname@, estimate) && c == #[trigger] table_column(
            t,
            data.widths@,
            data.segment_mins@,
            attr,
            estimate,
        )
}

/// The statistics of a table from what its partitions add up to: none where it
/// has no rows.
pub fn table_stats(t: &TableTotals, data: &TableData) -> (r: Option<TableStats>)
    requires
        all_sound(t.sketches@),
    ensures
        match r {
            Some(s) => {
                &&& t.rows > 0
                &&& s.rows == t.rows
                &&& s.pages == pages(
                    t.rows,
                    row_width(total_table_width(data.widths@, data.attrs@)) as i32,
                )
                &&& s.columns@.len() == data.attrs@.len()
                &&& forall|i: int|
                    0 <= i < s.columns@.len() ==> is_column_of(
                        t@,
                        *data,
                        data.attrs@[i],
                        (#[trigger] s.columns@[i])@,
                    )
            },
            None => t.rows <= 0,
        },
{
    if t.rows <= 0 {
        return None;
    }
    let mut out: Vec<TableColumnStats> = Vec::new();
    let mut widths: i128 = 0;
    let mut i: usize = 0;
    assert(data.attrs@.subrange(0, 0) =~= Seq::<AttrInfo>::empty());
    while i < data.attrs.len()
        invariant
            i <= data.attrs.len(),
            all_sound(t.sketches@),
            out@.len() == i,
            widths == total_table_width(data.widths@, data.attrs@.subrange(0, i as int)),
            0 <= widths <= i * 0x8000_0000,
            forall|j: int|
                0 <= j < i ==> is_column_of(t@, *data, data.attrs@[j], (#[trigger] out@[j])@),
        decreases data.attrs.len() - i,
    {
        assert(data.attrs@.subrange(0, i + 1).drop_last() =~= data.attrs@.subrange(0, i as int));
        let attr = &data.attrs[i];
        let guess: Option<usize> = estimate(&t.sketches, attr.attname.as_str());
        let c = table_column_stats(t, data, attr, guess);
        assert(is_column_of(t@, *data, data.attrs@[i as int], c@));
        widths = widths + c.width as i128;
        out.push(c);
        i += 1;
    }
    assert(data.attrs@.subrange(0, i as int) =~= data.attrs@);
    let width: i32 = if widths < 32 {
        DEFAULT_WIDTH
    } else if widths > 0x7fff_ffff {
        0x7fff_ffff
    } else {
        widths as i32
    };
    Some(TableStats { columns: out, rows: t.rows, pages: rel_pages(t.rows, width) })
}

/// The statistics to write for a table, merged from its partitions: none where
/// it has no rows.
pub fn write_table_stats(rows: &Vec<PartitionRow>, data: &TableData) -> (r: Option<TableStats>)
    ensures
        match r {
            Some(s) => {
                let t = totals(rows@);
                &&& t.rows > 0
                &&& s.rows == t.rows
                &&& s.pages == pages(
                    t.rows,
                    row_width(total_table_width(data.widths@, data.attrs@)) as i32,
                )
                &&& s.columns@.len() == data.attrs@.len()
                &&& forall|i: int|
                    0 <= i < s.columns@.len() ==> is_column_of(
                        t,
                        *data,
                        data.attrs@[i],
                        (#[trigger] s.columns@[i])@,
                    )
            },
            None => totals(rows@).rows <= 0,
        },
{
    let mut t = TableTotals::new();
    let mut i: usize = 0;
    assert(rows@.subrange(0, 0) =~= Seq::<PartitionRow>::empty());
    while i < rows.len()
        invariant
            i <= rows.len(),
            t@ == totals(rows@.subrange(0, i as int)),
            all_sound(t.sketches@),
        decreases rows.len() - i,
    {
        assert(rows@.subrange(0, i + 1).drop_last() =~= rows@.subrange(0, i as int));
        t.add_partition(&rows[i]);
        i += 1;
    }
    assert(rows@.subrange(0, i as int) =~= rows@);
    table_stats(&t, data)
}

} // verus!
