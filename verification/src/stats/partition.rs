//! Statistics of one compressed partition.

use vstd::prelude::*;
use crate::search::{first_where, lemma_first_is, lemma_first_none, lemma_first_where};
use crate::stats::assoc::{lookup, views, Assoc};
use crate::stats::bounds::{
    build_histogram_bounds, has_histogram, histogram_bounds, histogram_eligible, key, keys_ascend,
    lemma_histogram_ascends, Range, MAX_HISTOGRAM_BOUNDS,
};
use crate::stats::estimates::{
    column_stawidth, column_width, distinct_of, null_rows, nulls_of, pages, rel_pages, row_width,
    stadistinct_value, AttrInfo, ColumnSums, Stadistinct, DEFAULT_WIDTH,
};
use crate::stats::json::{parse_valcounts_json, parse_valmap_json, valcounts, valmap};
use crate::stats::slots::{choose_slot, chosen_slot, opt_slot, KnownView, Slot1, SlotView};
use crate::stats::values::Values;
use crate::text::text_is;

verus! {

/// A column of a compressed table.
pub struct ColumnMeta {
    pub name: String,
    /// Whether the column's value is the same throughout a segment and is kept
    /// with the segment.
    pub is_segment_by: bool,
}

/// What the catalog holds of a compressed partition. Lists by number are by the
/// position of a column among those that are not segment-by.
pub struct PartitionData {
    pub row_count: i64,
    pub attrs: Vec<AttrInfo>,
    pub columns: Vec<ColumnMeta>,
    pub ndistinct: Assoc<i64>,
    pub sums: Vec<(usize, ColumnSums)>,
    pub minmax: Assoc<Range>,
    pub segment_mins: Vec<(usize, Vec<i64>)>,
    /// Values of columns with few of them.
    pub valmap: Assoc<Values>,
    /// How often each of those occurs.
    pub valcounts: Assoc<Assoc<i64>>,
    /// How often the most frequent values of other columns occur.
    pub mcv: Assoc<Assoc<i64>>,
}

pub struct PartitionView {
    pub row_count: i64,
    pub attrs: Seq<AttrInfo>,
    pub columns: Seq<ColumnMeta>,
    pub ndistinct: Seq<(Seq<char>, i64)>,
    pub sums: Seq<(usize, ColumnSums)>,
    pub minmax: Seq<(Seq<char>, Range)>,
    pub segment_mins: Seq<(usize, Vec<i64>)>,
    pub valmap: Seq<(Seq<char>, Seq<Seq<char>>)>,
    pub valcounts: Seq<(Seq<char>, Seq<(Seq<char>, i64)>)>,
    pub mcv: Seq<(Seq<char>, Seq<(Seq<char>, i64)>)>,
}

impl View for PartitionData {
    type V = PartitionView;

    open spec fn view(&self) -> PartitionView {
        PartitionView {
            row_count: self.row_count,
            attrs: self.attrs@,
            columns: self.columns@,
            ndistinct: self.ndistinct@,
            sums: self.sums@,
            minmax: self.minmax@,
            segment_mins: self.segment_mins@,
            valmap: self.valmap@,
            valcounts: self.valcounts@,
            mcv: self.mcv@,
        }
    }
}

/// Statistics of a column.
pub struct ColumnStats {
    pub attnum: i16,
    pub distinct: Stadistinct,
    /// How many of the rows are null.
    pub nulls: i64,
    pub width: i32,
    pub slot: Option<Slot1>,
    /// The type in whose order the column lies on disk.
    pub correlation: Option<u32>,
}

pub struct ColumnStatsView {
    pub attnum: i16,
    pub distinct: Stadistinct,
    pub nulls: int,
    pub width: int,
    pub slot: Option<SlotView>,
    pub correlation: Option<u32>,
}

impl View for ColumnStats {
    type V = ColumnStatsView;

    open spec fn view(&self) -> ColumnStatsView {
        ColumnStatsView {
            attnum: self.attnum,
            distinct: self.distinct,
            nulls: self.nulls as int,
            width: self.width as int,
            slot: opt_slot(self.slot),
            correlation: self.correlation,
        }
    }
}

/// Statistics of a relation.
pub struct RelationStats {
    pub columns: Vec<ColumnStats>,
    pub rows: i64,
    pub pages: i32,
}

pub struct RelationStatsView {
    pub columns: Seq<ColumnStatsView>,
    pub rows: int,
    pub pages: int,
}

impl View for RelationStats {
    type V = RelationStatsView;

    open spec fn view(&self) -> RelationStatsView {
        RelationStatsView {
            columns: views(self.columns@),
            rows: self.rows as int,
            pages: self.pages as int,
        }
    }
}

pub open spec fn opt_relation(r: Option<RelationStats>) -> Option<RelationStatsView> {
    match r {
        Some(s) => Some(s@),
        None => None,
    }
}

impl View for Range {
    type V = Range;

    open spec fn view(&self) -> Range {
        *self
    }
}

pub open spec fn has_index<V>(i: int) -> spec_fn((usize, V)) -> bool {
    |e: (usize, V)| e.0 == i
}

/// What stands under a number.
pub open spec fn by_index<V>(s: Seq<(usize, V)>, i: int) -> Option<V> {
    match first_where(s, has_index(i)) {
        Some(k) => Some(s[k].1),
        None => None,
    }
}

pub open spec fn attr_named(name: Seq<char>) -> spec_fn(AttrInfo) -> bool {
    |a: AttrInfo| a.attname@ == name
}

fn find_index<V>(s: &Vec<(usize, V)>, i: usize) -> (r: Option<&V>)
    ensures
        match r {
            Some(v) => by_index(s@, i as int) == Some(*v),
            None => by_index(s@, i as int) is None,
        },
{
    let mut k: usize = 0;
    while k < s.len()
        invariant
            k <= s.len(),
            forall|j: int| 0 <= j < k ==> (#[trigger] s@[j]).0 != i,
        decreases s.len() - k,
    {
        if s[k].0 == i {
            proof {
                lemma_first_is(s@, has_index::<V>(i as int), k as int);
            }
            return Some(&s[k].1);
        }
        k += 1;
    }
    proof {
        lemma_first_none(s@, has_index::<V>(i as int));
    }
    None
}

fn find_attr(attrs: &Vec<AttrInfo>, name: &str) -> (r: Option<usize>)
    ensures
        match r {
            Some(i) => first_where(attrs@, attr_named(name@)) == Some(i as int) && i < attrs@.len(),
            None => first_where(attrs@, attr_named(name@)) is None,
        },
{
    let mut k: usize = 0;
    while k < attrs.len()
        invariant
            k <= attrs.len(),
            forall|j: int| 0 <= j < k ==> (#[trigger] attrs@[j]).attname@ != name@,
        decreases attrs.len() - k,
    {
        if text_is(attrs[k].attname.as_str(), name) {
            proof {
                lemma_first_is(attrs@, attr_named(name@), k as int);
            }
            return Some(k);
        }
        k += 1;
    }
    proof {
        lemma_first_none(attrs@, attr_named(name@));
    }
    None
}

/// The number of rows that counts add up to.
pub open spec fn counted_rows(s: Seq<(Seq<char>, i64)>) -> int
    decreases s.len(),
{
    if s.len() == 0 {
        0
    } else {
        counted_rows(s.drop_last()) + s.last().1
    }
}

proof fn lemma_counted_rows(s: Seq<(Seq<char>, i64)>)
    ensures
        i64::MIN * s.len() <= counted_rows(s) <= i64::MAX * s.len(),
    decreases s.len(),
{
    if s.len() > 0 {
        lemma_counted_rows(s.drop_last());
        let n = s.len() - 1;
        assert(i64::MIN * (n + 1) == i64::MIN * n + i64::MIN) by (nonlinear_arith);
        assert(i64::MAX * (n + 1) == i64::MAX * n + i64::MAX) by (nonlinear_arith);
    }
}

fn sum_counts(counts: &Assoc<i64>) -> (r: i128)
    ensures
        r == counted_rows(counts@),
{
    let ghost s = counts@;
    let mut sum: i128 = 0;
    let mut i: usize = 0;
    assert(s.subrange(0, 0) =~= Seq::<(Seq<char>, i64)>::empty());
    while i < counts.entries.len()
        invariant
            i <= counts.entries.len(),
            s == counts@,
            sum == counted_rows(s.subrange(0, i as int)),
        decreases counts.entries.len() - i,
    {
        let ghost t = s.subrange(0, i + 1);
        assert(t.drop_last() =~= s.subrange(0, i as int));
        assert(t.last() == counts.entries@[i as int]@);
        proof {
            lemma_counted_rows(t);
            assert(i64::MIN * t.len() >= i64::MIN * 0x1_0000_0000_0000_0000) by (nonlinear_arith)
                requires
                    t.len() <= 0x1_0000_0000_0000_0000,
            ;
            assert(i64::MAX * t.len() <= i64::MAX * 0x1_0000_0000_0000_0000) by (nonlinear_arith)
                requires
                    t.len() <= 0x1_0000_0000_0000_0000,
            ;
        }
        sum = sum + counts.entries[i].item as i128;
        i += 1;
    }
    assert(s.subrange(0, i as int) =~= s);
    sum
}

impl PartitionView {
    /// The sums of a column; a segment-by column has none.
    pub open spec fn column_sums(self, segment_by: bool, index: int) -> Option<ColumnSums> {
        if segment_by {
            None
        } else {
            by_index(self.sums, index)
        }
    }

    /// How many rows are null in a column. The counts of a segment-by column are
    /// those of all its values. Elsewhere no sum, or a sum of zero, says nothing.
    pub open spec fn column_nulls(
        self,
        attr: AttrInfo,
        name: Seq<char>,
        segment_by: bool,
        index: int,
    ) -> int {
        if attr.attnotnull {
            0
        } else if segment_by {
            match lookup(self.valcounts, name) {
                Some(c) => null_rows(counted_rows(c), self.row_count),
                None => 0,
            }
        } else {
            match by_index(self.sums, index) {
                Some(s) => if s.nonnull > 0 {
                    null_rows(s.nonnull as int, self.row_count)
                } else {
                    0
                },
                None => 0,
            }
        }
    }

    /// The minima of a column in the segments. They are kept by the place of a
    /// column among those that are not segment-by, so a segment-by column has none.
    pub open spec fn column_mins(self, segment_by: bool, index: int) -> Option<Seq<i64>> {
        if segment_by {
            None
        } else {
            match by_index(self.segment_mins, index) {
                Some(v) => Some(v@),
                None => None,
            }
        }
    }

    /// The histogram of a column, where it has extremes that differ. Where its
    /// segments give none it is that of the extremes.
    pub open spec fn column_bounds(
        self,
        t: u32,
        name: Seq<char>,
        segment_by: bool,
        index: int,
    ) -> Option<Seq<i64>> {
        match lookup(self.minmax, name) {
            Some(m) => if has_histogram(t) && key(t, m.lo) < key(t, m.hi) {
                let mins = match self.column_mins(segment_by, index) {
                    Some(v) => v,
                    None => seq![m.lo],
                };
                match histogram_bounds(t, mins, m.hi, MAX_HISTOGRAM_BOUNDS as int) {
                    Some(b) => Some(b),
                    None => Some(seq![m.lo, m.hi]),
                }
            } else {
                None
            },
            None => None,
        }
    }

    /// What is known of the values of a column.
    pub open spec fn column_known(
        self,
        t: u32,
        name: Seq<char>,
        segment_by: bool,
        index: int,
    ) -> KnownView {
        KnownView {
            bounds: self.column_bounds(t, name, segment_by, index),
            complete: match lookup(self.valmap, name) {
                Some(v) => if v.len() >= 2 {
                    Some(v)
                } else {
                    None
                },
                None => None,
            },
            counts: lookup(self.valcounts, name),
            partial: lookup(self.mcv, name),
        }
    }

    pub open spec fn column_ndistinct(self, name: Seq<char>) -> int {
        match lookup(self.ndistinct, name) {
            Some(n) => n as int,
            None => 0,
        }
    }

    /// The statistics of a column with a place in the catalog.
    pub open spec fn column_stats(
        self,
        attr: AttrInfo,
        name: Seq<char>,
        segment_by: bool,
        index: int,
    ) -> ColumnStatsView {
        let choice = chosen_slot(
            attr.atttypid,
            self.column_known(attr.atttypid, name, segment_by, index),
            self.column_ndistinct(name),
            self.row_count,
        );
        ColumnStatsView {
            attnum: attr.attnum,
            distinct: distinct_of(choice.ndistinct as i64, self.row_count),
            nulls: self.column_nulls(attr, name, segment_by, index),
            width: column_width(attr.attlen, attr.atttypid, self.column_sums(segment_by, index)),
            slot: choice.slot,
            correlation: choice.correlation,
        }
    }

    /// How many of the first `n` columns are not segment-by.
    pub open spec fn index_of(self, n: int) -> int
        decreases n,
    {
        if n <= 0 {
            0
        } else {
            self.index_of(n - 1) + if self.columns[n - 1].is_segment_by {
                0int
            } else {
                1
            }
        }
    }

    /// The catalog entry of the column at position `n`.
    pub open spec fn attr_of(self, n: int) -> Option<int> {
        first_where(self.attrs, attr_named(self.columns[n].name@))
    }

    pub open spec fn nth_stats(self, n: int) -> ColumnStatsView {
        self.column_stats(
            self.attrs[self.attr_of(n)->0],
            self.columns[n].name@,
            self.columns[n].is_segment_by,
            self.index_of(n),
        )
    }

    /// The statistics of the first `n` columns; those that the catalog no longer
    /// has get none.
    pub open spec fn all_stats(self, n: int) -> Seq<ColumnStatsView>
        decreases n,
    {
        if n <= 0 {
            Seq::empty()
        } else if self.attr_of(n - 1) is Some {
            self.all_stats(n - 1).push(self.nth_stats(n - 1))
        } else {
            self.all_stats(n - 1)
        }
    }

    pub open spec fn total_width(self, n: int) -> int
        decreases n,
    {
        if n <= 0 {
            0
        } else if self.attr_of(n - 1) is Some {
            self.total_width(n - 1) + self.nth_stats(n - 1).width
        } else {
            self.total_width(n - 1)
        }
    }

    /// The statistics of the partition: none where it has no rows.
    pub open spec fn stats(self) -> Option<RelationStatsView> {
        let n = self.columns.len() as int;
        if self.row_count <= 0 {
            None
        } else {
            Some(
                RelationStatsView {
                    columns: self.all_stats(n),
                    rows: self.row_count as int,
                    pages: pages(self.row_count, row_width(self.total_width(n)) as i32),
                },
            )
        }
    }
}

impl PartitionData {
    fn nulls_in(&self, attr: &AttrInfo, col: &ColumnMeta, index: usize) -> (r: i64)
        requires
            self.row_count > 0,
        ensures
            r == self@.column_nulls(*attr, col.name@, col.is_segment_by, index as int),
    {
        if attr.attnotnull {
            return 0;
        }
        if col.is_segment_by {
            return match self.valcounts.get(col.name.as_str()) {
                Some(c) => nulls_of(sum_counts(c), self.row_count),
                None => 0,
            };
        }
        match find_index(&self.sums, index) {
            Some(s) => if s.nonnull > 0 {
                nulls_of(s.nonnull as i128, self.row_count)
            } else {
                0
            },
            None => 0,
        }
    }

    fn bounds_of(&self, type_oid: u32, col: &ColumnMeta, index: usize) -> (r: Option<Vec<i64>>)
        ensures
            match r {
                Some(b) => self@.column_bounds(
                    type_oid,
                    col.name@,
                    col.is_segment_by,
                    index as int,
                ) == Some(b@),
                None => self@.column_bounds(
                    type_oid,
                    col.name@,
                    col.is_segment_by,
                    index as int,
                ) is None,
            },
    {
        let m: Range = match self.minmax.get(col.name.as_str()) {
            Some(m) => *m,
            None => return None,
        };
        if !histogram_eligible(type_oid, m.lo, m.hi) {
            return None;
        }
        let mins: Option<&Vec<i64>> = if col.is_segment_by {
            None
        } else {
            find_index(&self.segment_mins, index)
        };
        let built = match mins {
            Some(v) => build_histogram_bounds(type_oid, v, m.hi, MAX_HISTOGRAM_BOUNDS),
            None => {
                let one: Vec<i64> = vec![m.lo];
                assert(one@ =~= seq![m.lo]);
                build_histogram_bounds(type_oid, &one, m.hi, MAX_HISTOGRAM_BOUNDS)
            },
        };
        match built {
            Some(b) => Some(b),
            None => {
                let ends: Vec<i64> = vec![m.lo, m.hi];
                assert(ends@ =~= seq![m.lo, m.hi]);
                Some(ends)
            },
        }
    }

    fn stats_of(&self, attr: &AttrInfo, col: &ColumnMeta, index: usize) -> (r: ColumnStats)
        requires
            self.row_count > 0,
        ensures
            r@ == self@.column_stats(*attr, col.name@, col.is_segment_by, index as int),
    {
        let name = col.name.as_str();
        let sums: Option<ColumnSums> = if col.is_segment_by {
            None
        } else {
            match find_index(&self.sums, index) {
                Some(s) => Some(*s),
                None => None,
            }
        };
        let width: i32 = column_stawidth(attr, sums);
        let nulls: i64 = self.nulls_in(attr, col, index);
        let ndistinct: i64 = match self.ndistinct.get(name) {
            Some(n) => *n,
            None => 0,
        };
        let complete: Option<&Values> = match self.valmap.get(name) {
            Some(v) => {
                assert(v@.len() == v.items.len());
                if v.items.len() >= 2 {
                    Some(v)
                } else {
                    None
                }
            },
            None => None,
        };
        let choice = choose_slot(
            attr.atttypid,
            self.bounds_of(attr.atttypid, col, index),
            complete,
            self.valcounts.get(name),
            self.mcv.get(name),
            ndistinct,
            self.row_count,
        );
        ColumnStats {
            attnum: attr.attnum,
            distinct: stadistinct_value(choice.ndistinct, self.row_count),
            nulls,
            width,
            slot: choice.slot,
            correlation: choice.correlation,
        }
    }

    /// The statistics of the partition: none where it has no rows.
    pub fn stats(&self) -> (r: Option<RelationStats>)
        ensures
            opt_relation(r) == self@.stats(),
    {
        if self.row_count <= 0 {
            return None;
        }
        let mut out: Vec<ColumnStats> = Vec::new();
        let mut widths: i128 = 0;
        let mut index: usize = 0;
        let mut i: usize = 0;
        assert(views(out@) =~= self@.all_stats(0));
        while i < self.columns.len()
            invariant
                self.row_count > 0,
                i <= self.columns.len(),
                index == self@.index_of(i as int),
                index <= i,
                views(out@) == self@.all_stats(i as int),
                widths == self@.total_width(i as int),
                0 <= widths <= i * 0x8000_0000,
            decreases self.columns.len() - i,
        {
            let col = &self.columns[i];
            match find_attr(&self.attrs, col.name.as_str()) {
                Some(k) => {
                    let s = self.stats_of(&self.attrs[k], col, index);
                    let ghost before = views(out@);
                    assert(s@ == self@.nth_stats(i as int));
                    widths = widths + s.width as i128;
                    assert(s.width >= 1);
                    out.push(s);
                    assert(views(out@) =~= before.push(s@));
                },
                None => {},
            }
            if !col.is_segment_by {
                index += 1;
            }
            i += 1;
        }
        let width: i32 = if widths < 32 {
            DEFAULT_WIDTH
        } else if widths > 0x7fff_ffff {
            0x7fff_ffff
        } else {
            widths as i32
        };
        Some(
            RelationStats {
                columns: out,
                rows: self.row_count,
                pages: rel_pages(self.row_count, width),
            },
        )
    }
}

/// What the catalog holds of a compressed partition, its JSON columns as text.
pub struct PartitionCatalog {
    pub row_count: i64,
    pub attrs: Vec<AttrInfo>,
    pub columns: Vec<ColumnMeta>,
    pub ndistinct: Assoc<i64>,
    pub sums: Vec<(usize, ColumnSums)>,
    pub minmax: Assoc<Range>,
    pub segment_mins: Vec<(usize, Vec<i64>)>,
    pub valmap: Option<String>,
    pub valcounts: Option<String>,
    pub mcv: Option<String>,
}

/// Counts by column and value, where there is a text of them.
pub open spec fn opt_valcounts(t: Option<String>) -> Seq<(Seq<char>, Seq<(Seq<char>, i64)>)> {
    match t {
        Some(s) => valcounts(s@),
        None => Seq::empty(),
    }
}

/// Values by column, where there is a text of them.
pub open spec fn opt_valmap(t: Option<String>) -> Seq<(Seq<char>, Seq<Seq<char>>)> {
    match t {
        Some(s) => valmap(s@),
        None => Seq::empty(),
    }
}

impl View for PartitionCatalog {
    type V = PartitionView;

    open spec fn view(&self) -> PartitionView {
        PartitionView {
            row_count: self.row_count,
            attrs: self.attrs@,
            columns: self.columns@,
            ndistinct: self.ndistinct@,
            sums: self.sums@,
            minmax: self.minmax@,
            segment_mins: self.segment_mins@,
            valmap: opt_valmap(self.valmap),
            valcounts: opt_valcounts(self.valcounts),
            mcv: opt_valcounts(self.mcv),
        }
    }
}

fn read_valcounts(t: &Option<String>) -> (r: Assoc<Assoc<i64>>)
    ensures
        r@ == opt_valcounts(*t),
{
    match t {
        Some(s) => parse_valcounts_json(s.as_str()),
        None => Assoc::new(),
    }
}

fn read_valmap(t: &Option<String>) -> (r: Assoc<Values>)
    ensures
        r@ == opt_valmap(*t),
{
    match t {
        Some(s) => parse_valmap_json(s.as_str()),
        None => Assoc::new(),
    }
}

/// The statistics to write for a compressed partition: none where it has no rows.
pub fn write_partition_stats(catalog: PartitionCatalog) -> (r: Option<RelationStats>)
    ensures
        opt_relation(r) == catalog@.stats(),
{
    let data = PartitionData {
        valmap: read_valmap(&catalog.valmap),
        valcounts: read_valcounts(&catalog.valcounts),
        mcv: read_valcounts(&catalog.mcv),
        row_count: catalog.row_count,
        attrs: catalog.attrs,
        columns: catalog.columns,
        ndistinct: catalog.ndistinct,
        sums: catalog.sums,
        minmax: catalog.minmax,
        segment_mins: catalog.segment_mins,
    };
    data.stats()
}

/// Numbers by name, none above `cap`.
pub open spec fn capped(s: Seq<(Seq<char>, i64)>, cap: i64) -> Seq<(Seq<char>, i64)> {
    Seq::new(
        s.len(),
        |i: int|
            (
                s[i].0,
                if s[i].1 <= cap {
                    s[i].1
                } else {
                    cap
                },
            ),
    )
}

fn cap_ndistinct(list: &mut Assoc<i64>, cap: i64)
    ensures
        final(list)@ == capped(old(list)@, cap),
{
    let ghost before = list@;
    let mut i: usize = 0;
    while i < list.entries.len()
        invariant
            i <= list.entries.len() == before.len(),
            list@.len() == before.len(),
            forall|j: int| 0 <= j < i ==> #[trigger] list@[j] == capped(before, cap)[j],
            forall|j: int| i <= j < before.len() ==> #[trigger] list@[j] == before[j],
        decreases before.len() - i,
    {
        let ghost mid = list@;
        assert(mid[i as int] == list.entries@[i as int]@);
        if list.entries[i].item > cap {
            list.entries[i].item = cap;
        }
        assert(list@ =~= mid.update(i as int, capped(before, cap)[i as int]));
        i += 1;
    }
    assert(list@ =~= capped(before, cap));
}

/// The statistics to write for a compressed partition from the numbers of
/// distinct values that the catalog holds, none of them taken as more than there
/// are rows.
pub fn analyze_partition_from_catalog(catalog: PartitionCatalog) -> (r: Option<RelationStats>)
    ensures
        opt_relation(r) == (PartitionView {
            ndistinct: capped(catalog.ndistinct@, catalog.row_count),
            ..catalog@
        }).stats(),
{
    let mut c = catalog;
    cap_ndistinct(&mut c.ndistinct, c.row_count);
    write_partition_stats(c)
}

/// The histogram of a column has two to 101 bounds, in strict order.
pub proof fn lemma_partition_histogram(
    d: PartitionView,
    t: u32,
    name: Seq<char>,
    segment_by: bool,
    index: int,
)
    ensures
        match d.column_bounds(t, name, segment_by, index) {
            Some(b) => 2 <= b.len() <= MAX_HISTOGRAM_BOUNDS && keys_ascend(t, b),
            None => true,
        },
{
    match lookup(d.minmax, name) {
        Some(m) => {
            let mins = match d.column_mins(segment_by, index) {
                Some(v) => v,
                None => seq![m.lo],
            };
            lemma_histogram_ascends(t, mins, m.hi, MAX_HISTOGRAM_BOUNDS as int);
        },
        None => {},
    }
}

/// The rows of a nullable segment-by column that its counts tell of, and those
/// that are null, are all rows.
pub proof fn lemma_counts_and_nulls(d: PartitionView, attr: AttrInfo, name: Seq<char>, index: int)
    requires
        !attr.attnotnull,
        lookup(d.valcounts, name) is Some,
        0 <= counted_rows(lookup(d.valcounts, name)->0) <= d.row_count,
    ensures
        counted_rows(lookup(d.valcounts, name)->0) + d.column_nulls(attr, name, true, index)
            == d.row_count,
{
}

// ---------------------------------------------------------------------------
// Segment minimums
// ---------------------------------------------------------------------------

/// The smallest values of segments by column number; a segment of nulls has none.
pub open spec fn grouped_mins(rows: Seq<(usize, Option<i64>)>, i: int) -> Seq<i64>
    decreases rows.len(),
{
    if rows.len() == 0 {
        Seq::empty()
    } else {
        let rest = grouped_mins(rows.drop_last(), i);
        match rows.last().1 {
            Some(m) => if rows.last().0 == i {
                rest.push(m)
            } else {
                rest
            },
            None => rest,
        }
    }
}

/// Gathers the smallest values of segments by column number.
pub fn group_segment_mins(rows: &Vec<(usize, Option<i64>)>) -> (r: Vec<(usize, Vec<i64>)>)
    ensures
        forall|i: int| #[trigger] mins_at(r@, i) == grouped_mins(rows@, i),
        forall|k: int| 0 <= k < r@.len() ==> (#[trigger] r@[k]).1@.len() > 0,
{
    let mut out: Vec<(usize, Vec<i64>)> = Vec::new();
    let mut k: usize = 0;
    assert(rows@.subrange(0, 0) =~= Seq::<(usize, Option<i64>)>::empty());
    while k < rows.len()
        invariant
            k <= rows.len(),
            forall|i: int| #[trigger] mins_at(out@, i) == grouped_mins(
                rows@.subrange(0, k as int),
                i,
            ),
            forall|j: int| 0 <= j < out@.len() ==> (#[trigger] out@[j]).1@.len() > 0,
        decreases rows.len() - k,
    {
        assert(rows@.subrange(0, k + 1).drop_last() =~= rows@.subrange(0, k as int));
        match rows[k].1 {
            Some(m) => {
                push_min(&mut out, rows[k].0, m);
            },
            None => {},
        }
        k += 1;
    }
    assert(rows@.subrange(0, k as int) =~= rows@);
    out
}

pub open spec fn mins_at(s: Seq<(usize, Vec<i64>)>, i: int) -> Seq<i64> {
    match by_index(s, i) {
        Some(v) => v@,
        None => Seq::empty(),
    }
}

fn push_min(list: &mut Vec<(usize, Vec<i64>)>, index: usize, m: i64)
    requires
        forall|j: int| 0 <= j < old(list)@.len() ==> (#[trigger] old(list)@[j]).1@.len() > 0,
    ensures
        forall|j: int| 0 <= j < final(list)@.len() ==> (#[trigger] final(list)@[j]).1@.len() > 0,
        forall|i: int| #[trigger]
            mins_at(final(list)@, i) == if i == index {
                mins_at(old(list)@, i).push(m)
            } else {
                mins_at(old(list)@, i)
            },
{
    let ghost before = list@;
    let mut k: usize = 0;
    while k < list.len() && list[k].0 != index
        invariant
            k <= list.len(),
            list@ == before,
            forall|j: int| 0 <= j < k ==> (#[trigger] before[j]).0 != index,
        decreases list.len() - k,
    {
        k += 1;
    }
    if k == list.len() {
        let one: Vec<i64> = vec![m];
        assert(one@ =~= Seq::<i64>::empty().push(m));
        list.push((index, one));
        proof {
            lemma_first_none(before, has_index::<Vec<i64>>(index as int));
            lemma_first_is(list@, has_index::<Vec<i64>>(index as int), k as int);
        }
    } else {
        list[k].1.push(m);
        proof {
            lemma_first_is(before, has_index::<Vec<i64>>(index as int), k as int);
            lemma_first_is(list@, has_index::<Vec<i64>>(index as int), k as int);
        }
    }
    assert forall|i: int| i != index implies #[trigger] mins_at(list@, i) == mins_at(before, i) by {
        let p = has_index::<Vec<i64>>(i);
        lemma_first_where(before, p);
        match first_where(before, p) {
            Some(j) => {
                assert(list@[j] == before[j]);
                assert forall|q: int| 0 <= q < j implies !p(list@[q]) by {
                    assert(!p(before[q]));
                }
                lemma_first_is(list@, p, j);
            },
            None => {
                assert forall|q: int| 0 <= q < list@.len() implies !p(list@[q]) by {
                    if q < before.len() {
                        assert(!p(before[q]));
                    }
                }
                lemma_first_none(list@, p);
            },
        }
    }
}

} // verus!
