//! How many groups a grouped query has, and when there are too many.

use vstd::prelude::*;
use vstd::string::*;
use crate::bytes::same_bytes;
use crate::pg_types::INVALID_OID;
use crate::scan::agg_types::{groups_view, Group, GroupByColSpec, GroupByExpr, GroupExpr};
use crate::scan::catalog::Relation;
use crate::scan::json_extract::AggChainCtx;
use crate::scan::hook::{bails_on_text, merged_count, merged_ndistinct, text_grouping_bails};
use crate::text::opt_text;

verus! {

/// The name of a grouping's column: that of the relation's column, or else that
/// of the extracted column behind the physical ones.
pub open spec fn group_name(col_idx: i32, rel: Relation, ctx: Option<AggChainCtx>) -> Option<
    Seq<char>,
> {
    match rel.name_of((col_idx + 1) as i16) {
        Some(n) => Some(n),
        None => match ctx {
            Some(c) => if 0 <= col_idx - c.physical_count < c.specs@.len() {
                Some(c.specs@[col_idx - c.physical_count].target_name@)
            } else {
                None
            },
            None => None,
        },
    }
}

/// The name of a grouping's column, where it has one.
pub fn group_column_name(col_idx: i32, rel: &Relation, ctx: &Option<AggChainCtx>) -> (r: Option<
    String,
>)
    ensures
        opt_text(r) == group_name(col_idx, *rel, *ctx),
{
    let attno: i16 = #[verifier::truncate]
    ((col_idx as i64 + 1) as i16);
    match rel.column_name(attno) {
        Some(n) => {
            return Some(n.as_str().to_owned());
        },
        None => {},
    }
    match ctx {
        Some(c) => {
            let at: i64 = col_idx as i64 - c.physical_count as i64;
            if 0 <= at && (at as u64) < c.specs.len() as u64 {
                Some(c.specs[at as usize].target_name.as_str().to_owned())
            } else {
                None
            }
        },
        None => None,
    }
}

/// Whether all rows are grouped, by a column more than half of whose values are
/// distinct.
pub open spec fn too_fine(
    groups: Seq<Group>,
    ndistinct: Seq<Option<i64>>,
    has_where: bool,
    total_rows: i64,
) -> bool {
    !has_where && exists|i: int|
        0 <= i < groups.len() && (#[trigger] groups[i]).expr is Column && (
        ndistinct[i] matches Some(n) && 2 * n > total_rows)
}

/// Whether the grouping is left to PostgreSQL: all rows are grouped, by a column
/// more than half of whose values are distinct. `ndistinct` holds the number of
/// distinct values of each grouping's column, where it is known.
pub fn grouping_too_fine(
    groups: &Vec<GroupByColSpec>,
    ndistinct: &Vec<Option<i64>>,
    has_where: bool,
    total_rows: i64,
) -> (r: bool)
    requires
        groups@.len() == ndistinct@.len(),
    ensures
        r == too_fine(groups_view(groups@), ndistinct@, has_where, total_rows),
{
    if has_where {
        return false;
    }
    let ghost gs = groups_view(groups@);
    let mut i: usize = 0;
    while i < groups.len()
        invariant
            i <= groups.len() == ndistinct.len(),
            !has_where,
            gs == groups_view(groups@),
            forall|j: int|
                0 <= j < i ==> !((#[trigger] gs[j]).expr is Column && (ndistinct@[j] matches Some(n)
                    && 2 * n > total_rows)),
        decreases groups.len() - i,
    {
        assert(gs[i as int] == groups@[i as int].view());
        let plain = matches!(groups[i].expr, GroupByExpr::Column);
        let fine = match ndistinct[i] {
            Some(n) => 2 * (n as i128) > total_rows as i128,
            None => false,
        };
        if plain && fine {
            assert(gs[i as int].expr is Column);
            return true;
        }
        i += 1;
    }
    false
}

/// How many values a unit of time takes; none where that is not bounded.
pub open spec fn unit_values(unit: Seq<u8>) -> Option<int> {
    if unit == "microsecond".spec_bytes() || unit == "microseconds".spec_bytes() {
        Some(60_000_000int)
    } else if unit == "millisecond".spec_bytes() || unit == "milliseconds".spec_bytes() {
        Some(60_000int)
    } else if unit == "second".spec_bytes() || unit == "seconds".spec_bytes() || unit
        == "minute".spec_bytes() || unit == "minutes".spec_bytes() {
        Some(60int)
    } else if unit == "hour".spec_bytes() || unit == "hours".spec_bytes() {
        Some(24int)
    } else if unit == "dow".spec_bytes() {
        Some(7int)
    } else {
        None
    }
}

fn is_unit(unit: &Vec<u8>, name: &str) -> (r: bool)
    ensures
        r == (unit@ == name.spec_bytes()),
{
    same_bytes(unit, name.as_bytes())
}

fn values_of_unit(unit: &Vec<u8>) -> (r: Option<i64>)
    ensures
        match r {
            Some(n) => unit_values(unit@) == Some(n as int),
            None => unit_values(unit@) is None,
        },
{
    if is_unit(unit, "microsecond") || is_unit(unit, "microseconds") {
        Some(60_000_000)
    } else if is_unit(unit, "millisecond") || is_unit(unit, "milliseconds") {
        Some(60_000)
    } else if is_unit(unit, "second") || is_unit(unit, "seconds") || is_unit(unit, "minute")
        || is_unit(unit, "minutes") {
        Some(60)
    } else if is_unit(unit, "hour") || is_unit(unit, "hours") {
        Some(24)
    } else if is_unit(unit, "dow") {
        Some(7)
    } else {
        None
    }
}

/// How many values a grouping takes: those of the unit of time, or of the column.
/// None where that cannot be told.
pub open spec fn group_values(g: Group, ndistinct: Option<i64>, total_rows: i64) -> Option<int> {
    match g.expr {
        GroupExpr::Extract { unit, .. } => match unit_values(unit) {
            Some(n) => Some(n),
            None => Some(total_rows as int),
        },
        GroupExpr::Column | GroupExpr::AddConst { .. } => match ndistinct {
            Some(n) => Some(n as int),
            None => None,
        },
        _ => None,
    }
}

/// How many combinations of values the first `n` groupings have.
pub open spec fn combinations(
    groups: Seq<Group>,
    ndistinct: Seq<Option<i64>>,
    total_rows: i64,
    n: int,
) -> Option<int>
    decreases n,
{
    if n <= 0 {
        Some(1)
    } else {
        match (
            combinations(groups, ndistinct, total_rows, n - 1),
            group_values(groups[n - 1], ndistinct[n - 1], total_rows),
        ) {
            (Some(p), Some(v)) => Some(p * v),
            _ => None,
        }
    }
}

pub open spec fn capped_at(v: int, cap: int) -> int {
    if v <= cap {
        v
    } else {
        cap
    }
}

proof fn lemma_combinations_none(
    groups: Seq<Group>,
    ndistinct: Seq<Option<i64>>,
    total_rows: i64,
    k: int,
    n: int,
)
    requires
        k <= n,
        combinations(groups, ndistinct, total_rows, k) is None,
    ensures
        combinations(groups, ndistinct, total_rows, n) is None,
    decreases n,
{
    if k < n {
        lemma_combinations_none(groups, ndistinct, total_rows, k, n - 1);
    }
}

/// Capping a product early changes nothing, once it is capped.
proof fn lemma_capped_product(p: int, v: int, cap: int)
    requires
        p >= 0,
        v >= 0,
        cap >= 0,
    ensures
        capped_at(capped_at(p, cap) * v, cap) == capped_at(p * v, cap),
{
    if p > cap {
        if v == 0 {
            assert(cap * v == 0 && p * v == 0) by (nonlinear_arith)
                requires
                    v == 0,
            ;
        } else {
            assert(cap * v >= cap && p * v >= p) by (nonlinear_arith)
                requires
                    v >= 1,
                    p >= 0,
                    cap >= 0,
            ;
        }
    }
}

/// The number of groups of a query: that of the combinations of the groupings'
/// values, but no more than there are rows. None where it cannot be told.
pub open spec fn group_count(
    groups: Seq<Group>,
    ndistinct: Seq<Option<i64>>,
    any_known: bool,
    total_rows: i64,
) -> Option<i64> {
    match combinations(groups, ndistinct, total_rows, groups.len() as int) {
        Some(p) => if any_known {
            Some(capped_at(p, total_rows as int) as i64)
        } else {
            None
        },
        None => None,
    }
}

/// The number of groups of a query: that of the combinations of the groupings'
/// values, but no more than there are rows. None where it cannot be told.
/// `ndistinct` holds the number of distinct values of each grouping's column,
/// where it is known, and `any_known` whether it is of any column of the table.
pub fn estimate_groups(
    groups: &Vec<GroupByColSpec>,
    ndistinct: &Vec<Option<i64>>,
    any_known: bool,
    total_rows: i64,
) -> (r: Option<i64>)
    requires
        groups@.len() == ndistinct@.len(),
        total_rows >= 0,
        forall|i: int|
            0 <= i < ndistinct@.len() ==> (#[trigger] ndistinct@[i] matches Some(n) ==> n >= 0),
    ensures
        r == group_count(groups_view(groups@), ndistinct@, any_known, total_rows),
{
    if !any_known {
        return None;
    }
    let ghost gs = groups_view(groups@);
    let mut product: i64 = if total_rows >= 1 {
        1
    } else {
        0
    };
    let mut i: usize = 0;
    while i < groups.len()
        invariant
            i <= groups.len() == ndistinct.len(),
            gs == groups_view(groups@),
            any_known,
            0 <= product <= total_rows,
            forall|k: int|
                0 <= k < ndistinct@.len() ==> (#[trigger] ndistinct@[k] matches Some(n) ==> n >= 0),
            combinations(gs, ndistinct@, total_rows, i as int) matches Some(p) && p >= 0 && product
                == capped_at(p, total_rows as int),
        decreases groups.len() - i,
    {
        assert(gs[i as int] == groups@[i as int].view());
        let values: Option<i64> = match &groups[i].expr {
            GroupByExpr::Extract { unit, .. } => match values_of_unit(unit) {
                Some(n) => Some(n),
                None => Some(total_rows),
            },
            GroupByExpr::Column | GroupByExpr::AddConst { .. } => ndistinct[i],
            _ => None,
        };
        match values {
            Some(v) => {
                let ghost p = combinations(gs, ndistinct@, total_rows, i as int)->0;
                assert(v >= 0);
                proof {
                    lemma_capped_product(p, v as int, total_rows as int);
                    assert(0 <= product * v <= 0x7fff_ffff_ffff_ffff * 0x7fff_ffff_ffff_ffff)
                        by (nonlinear_arith)
                        requires
                            0 <= product <= 0x7fff_ffff_ffff_ffff,
                            0 <= v <= 0x7fff_ffff_ffff_ffff,
                    ;
                    assert(p * v >= 0) by (nonlinear_arith)
                        requires
                            p >= 0,
                            v >= 0,
                    ;
                }
                let next: i128 = (product as i128) * (v as i128);
                product = if next <= total_rows as i128 {
                    next as i64
                } else {
                    total_rows
                };
            },
            None => {
                proof {
                    lemma_combinations_none(gs, ndistinct@, total_rows, i + 1, gs.len() as int);
                }
                return None;
            },
        }
        i += 1;
    }
    Some(product)
}

// ---------------------------------------------------------------------------
// The decision
// ---------------------------------------------------------------------------

/// What the statistics of the partitions say about a grouped query.
#[derive(Clone, Copy, Debug, PartialEq, Eq, Structural)]
pub enum Grouping {
    /// PostgreSQL groups better by itself.
    LeftToServer,
    /// The number of groups.
    Estimated(i64),
    /// The number of groups cannot be told.
    Unknown,
}

/// What is known of the rows that a query groups.
pub struct GroupedRows {
    /// Rows of all partitions.
    pub total: i64,
    /// Numbers of distinct values by column, one for each partition.
    pub counts: Vec<(String, i64)>,
    pub has_where: bool,
    /// Whether the WHERE clause leaves few of the rows.
    pub few: bool,
    pub workers: i32,
}

/// The number of distinct values of each grouping's column, where it is known.
pub open spec fn group_counts(
    groups: Seq<Group>,
    rel: Relation,
    ctx: Option<AggChainCtx>,
    rows: GroupedRows,
) -> Seq<Option<i64>> {
    Seq::new(
        groups.len(),
        |i: int|
            match group_name(groups[i].col_idx, rel, ctx) {
                Some(name) => merged_count(rows.counts@, name, rows.total),
                None => None,
            },
    )
}

/// What the statistics say about a grouping of the rows of a relation. Nothing
/// is known without groupings, a relation or rows.
pub open spec fn grouping_of(
    groups: Seq<Group>,
    group_by_relid: u32,
    rel: Relation,
    ctx: Option<AggChainCtx>,
    rows: GroupedRows,
) -> Grouping {
    let counts = group_counts(groups, rel, ctx, rows);
    if groups.len() == 0 || group_by_relid == INVALID_OID || rows.total <= 0 {
        Grouping::Unknown
    } else if bails_on_text(groups, counts, rows.has_where, rows.workers, rows.few) || too_fine(
        groups,
        counts,
        rows.has_where,
        rows.total,
    ) {
        Grouping::LeftToServer
    } else {
        match group_count(groups, counts, rows.counts@.len() > 0, rows.total) {
            Some(n) => Grouping::Estimated(n),
            None => Grouping::Unknown,
        }
    }
}

fn counts_of_groups(
    groups: &Vec<GroupByColSpec>,
    rel: &Relation,
    ctx: &Option<AggChainCtx>,
    rows: &GroupedRows,
) -> (r: Vec<Option<i64>>)
    requires
        rows.total >= 0,
    ensures
        r@ == group_counts(groups_view(groups@), *rel, *ctx, *rows),
        forall|i: int| 0 <= i < r@.len() ==> (#[trigger] r@[i] matches Some(n) ==> n >= 0),
{
    let ghost gs = groups_view(groups@);
    let mut out: Vec<Option<i64>> = Vec::new();
    let mut i: usize = 0;
    while i < groups.len()
        invariant
            i <= groups.len(),
            rows.total >= 0,
            gs == groups_view(groups@),
            out@ == group_counts(gs, *rel, *ctx, *rows).subrange(0, i as int),
            forall|k: int| 0 <= k < out@.len() ==> (#[trigger] out@[k] matches Some(n) ==> n >= 0),
        decreases groups.len() - i,
    {
        assert(gs[i as int] == groups@[i as int].view());
        let n: Option<i64> = match group_column_name(groups[i].col_idx, rel, ctx) {
            Some(name) => merged_ndistinct(&rows.counts, name.as_str(), rows.total),
            None => None,
        };
        let ghost all = group_counts(gs, *rel, *ctx, *rows);
        out.push(n);
        assert(all[i as int] == n);
        assert(out@ =~= all.subrange(0, i + 1));
        i += 1;
    }
    assert(out@ =~= group_counts(gs, *rel, *ctx, *rows));
    out
}

/// What the statistics of the partitions say about a grouping: whether it is left
/// to PostgreSQL, and else how many groups there are, where that can be told.
pub fn plan_grouping(
    groups: &Vec<GroupByColSpec>,
    group_by_relid: u32,
    rel: &Relation,
    ctx: &Option<AggChainCtx>,
    rows: &GroupedRows,
) -> (r: Grouping)
    ensures
        r == grouping_of(groups_view(groups@), group_by_relid, *rel, *ctx, *rows),
{
    if groups.len() == 0 || group_by_relid == INVALID_OID || rows.total <= 0 {
        return Grouping::Unknown;
    }
    let counts = counts_of_groups(groups, rel, ctx, rows);
    if text_grouping_bails(groups, &counts, rows.has_where, rows.workers, rows.few)
        || grouping_too_fine(groups, &counts, rows.has_where, rows.total) {
        return Grouping::LeftToServer;
    }
    match estimate_groups(groups, &counts, rows.counts.len() > 0, rows.total) {
        Some(n) => Grouping::Estimated(n),
        None => Grouping::Unknown,
    }
}

} // verus!
