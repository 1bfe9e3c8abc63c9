//! What an aggregate plan puts out, and what its description says to a reader
//! that knows the layout.

use vstd::prelude::*;
use crate::scan::agg_laws::{group_value, in_one_group, sql_value, strictly, ScanRow};
use crate::scan::agg_plan::{
    agg_count, agg_plan_ints, base_of, case_count, case_groups, clean_targets, derivation,
    derivations, is_redundant, is_shifted, kept_groups, lemma_case_groups, lemma_derivation,
    output_ints, output_of, outputs_of, topn_ints, having_ints, EliminatedSpec, Output,
    PlanContents,
};
use crate::scan::agg_types::{
    AggExpr, AggSpec, AggType, CaseValue, CaseWhenCondition, CaseWhenOp, Group, GroupExpr,
    HavingFilter, HavingOp, OutputTransform,
};
use crate::scan::json_extract::{AggChainCtx, Target};
use crate::scan::minmax::{meta_ints, MetaAggKind, PlanAggSpec};
use crate::scan::node::{Expr, Head, OpName};
use crate::scan::path::{count_ints, scan_ints, AggTopnInfo, ScanTopn};
use crate::scan::wire::{
    agg_ints, agg_path_ints, aggs_ints, case_value_ints, condition_ints, group_ints, groups_ints,
    qual_ints, text_ints,
};
use crate::search::{first_where, lemma_first_where};

verus! {

// ---------------------------------------------------------------------------
// Groupings that follow from others
// ---------------------------------------------------------------------------

proof fn lemma_kept_at(groups: Seq<Group>, i: int, n: int)
    requires
        0 <= i < n <= groups.len(),
        !is_redundant(groups, i),
    ensures
        0 <= kept_groups(groups, i).len() < kept_groups(groups, n).len(),
        kept_groups(groups, n)[kept_groups(groups, i).len() as int] == groups[i],
    decreases n,
{
    if i < n - 1 {
        lemma_kept_at(groups, i, n - 1);
    }
}

proof fn lemma_kept_from(groups: Seq<Group>, n: int, k: int) -> (i: int)
    requires
        0 <= n <= groups.len(),
        0 <= k < kept_groups(groups, n).len(),
    ensures
        0 <= i < n,
        groups[i] == kept_groups(groups, n)[k],
        !is_redundant(groups, i),
    decreases n,
{
    if !is_redundant(groups, n - 1) && k == kept_groups(groups, n).len() - 1 {
        n - 1
    } else {
        lemma_kept_from(groups, n - 1, k)
    }
}

/// A grouping that is not computed has the value of the one it is derived from
/// plus the difference, on every row.
pub proof fn lemma_derived_value(groups: Seq<Group>, i: int, row: ScanRow)
    requires
        0 <= i < groups.len() <= usize::MAX,
        is_redundant(groups, i),
    ensures
        ({
            let d = derivation(groups, i);
            let kept = kept_groups(groups, groups.len() as int);
            &&& d.base_new_idx < kept.len()
            &&& group_value(row, groups[i]) == strictly(
                group_value(row, kept[d.base_new_idx as int]),
                |x: int| x + d.delta,
            )
        }),
{
    lemma_derivation(groups, i);
}

/// Leaving out the groupings that follow from others leaves the groups as they
/// are.
pub proof fn lemma_kept_groups_suffice(groups: Seq<Group>, a: ScanRow, b: ScanRow)
    requires
        groups.len() <= usize::MAX,
    ensures
        in_one_group(a, b, kept_groups(groups, groups.len() as int)) <==> in_one_group(a, b, groups),
{
    let n = groups.len() as int;
    let kept = kept_groups(groups, n);
    if in_one_group(a, b, kept) {
        assert forall|i: int| 0 <= i < n implies group_value(a, #[trigger] groups[i])
            == group_value(b, groups[i]) by {
            if is_redundant(groups, i) {
                lemma_derived_value(groups, i, a);
                lemma_derived_value(groups, i, b);
                let k = derivation(groups, i).base_new_idx as int;
                assert(group_value(a, kept[k]) == group_value(b, kept[k]));
            } else {
                lemma_kept_at(groups, i, n);
                let k = kept_groups(groups, i).len() as int;
                assert(group_value(a, kept[k]) == group_value(b, kept[k]));
            }
        }
    }
    if in_one_group(a, b, groups) {
        assert forall|k: int| 0 <= k < kept.len() implies group_value(a, #[trigger] kept[k])
            == group_value(b, kept[k]) by {
            let i = lemma_kept_from(groups, n, k);
            assert(group_value(a, groups[i]) == group_value(b, groups[i]));
        }
    }
}

// ---------------------------------------------------------------------------
// Output columns
// ---------------------------------------------------------------------------

/// The value of an output column for a group that `row` is of, where `aggs` gives
/// the answers of the aggregates.
pub open spec fn output_value(
    row: ScanRow,
    kept: Seq<Group>,
    aggs: spec_fn(int) -> Option<int>,
    o: Output,
) -> Option<int> {
    match o {
        Output::Agg(k) => aggs(k as int),
        Output::Group(k) => group_value(row, kept[k as int]),
        Output::Const { type_oid, value, is_null } => if is_null {
            None
        } else {
            Some(value as int)
        },
        Output::Derived { base, delta } => strictly(
            group_value(row, kept[base as int]),
            |x: int| x + delta,
        ),
    }
}

proof fn lemma_derivations_from(groups: Seq<Group>, n: int, k: int) -> (i: int)
    requires
        0 <= n <= groups.len(),
        0 <= k < derivations(groups, n).len(),
    ensures
        0 <= i < n,
        is_redundant(groups, i),
        derivations(groups, n)[k] == derivation(groups, i),
    decreases n,
{
    if is_redundant(groups, n - 1) && k == derivations(groups, n).len() - 1 {
        n - 1
    } else {
        lemma_derivations_from(groups, n - 1, k)
    }
}

proof fn lemma_derivations_at(groups: Seq<Group>, i: int, n: int)
    requires
        0 <= i < n <= groups.len(),
        is_redundant(groups, i),
    ensures
        derivations(groups, n).contains(derivation(groups, i)),
    decreases n,
{
    let all = derivations(groups, n);
    if i < n - 1 {
        lemma_derivations_at(groups, i, n - 1);
        let before = derivations(groups, n - 1);
        let k = choose|k: int| 0 <= k < before.len() && before[k] == derivation(groups, i);
        assert(all[k] == derivation(groups, i));
    } else {
        assert(all[all.len() - 1] == derivation(groups, i));
    }
}

/// A grouped `column + constant` or `column - constant` in the target list is put
/// out with its own value, also where the grouping by it is derived from another.
pub proof fn lemma_shifted_output(
    e: Expr,
    groups: Seq<Group>,
    i: int,
    aggs: int,
    cases: int,
    ctx: Option<AggChainCtx>,
    row: ScanRow,
    answers: spec_fn(int) -> Option<int>,
)
    requires
        0 <= i < groups.len() <= i32::MAX,
        e.head is OpExpr,
        ctx matches Some(c) ==> c.synthetic(e) is None,
        groups[i].expr matches GroupExpr::AddConst { offset, op_oid } && op_oid
            == e.head->OpExpr_0.opno && (crate::scan::pushdown::shift_operands(
            e.head->OpExpr_0.name,
            e.args,
        ) matches Some((v, d)) && d == offset && groups[i].col_idx == v.varattno - 1),
    ensures
        ({
            let n = groups.len() as int;
            let kept = kept_groups(groups, n);
            output_of(e, aggs, cases, kept, derivations(groups, n), ctx) matches Some(o)
                && output_value(row, kept, answers, o) == sql_value(row, e)
        }),
{
    let n = groups.len() as int;
    let op = e.head->OpExpr_0;
    let kept = kept_groups(groups, n);
    let gone = derivations(groups, n);
    let (col, offset) = crate::scan::agg_plan::shift_expr(op.name, e.args);
    let p = |g: Group| crate::scan::agg_plan::is_shift_group(g, col, offset, op.opno);
    let q = |d: EliminatedSpec| d.col_idx == col && d.offset == offset;
    let x = (row.col)(col as int);
    assert(col == groups[i].col_idx && offset == groups[i].expr->offset);
    let (l, r) = (sql_value(row, e.args[0]), sql_value(row, e.args[1]));
    if op.name == OpName::Minus {
        assert(l == x && r == Some(-(offset as int)));
    } else {
        assert((l == x && r == Some(offset as int)) || (r == x && l == Some(offset as int)));
    }
    assert(sql_value(row, e) == strictly(x, |y: int| y + offset));
    assert(group_value(row, groups[i]) == strictly(x, |y: int| y + offset));
    lemma_first_where(kept, p);
    lemma_first_where(gone, q);
    lemma_kept_bound(groups, n);
    match first_where(kept, p) {
        Some(k) => {
            assert(p(kept[k]));
            assert(group_value(row, kept[k]) == strictly(x, |y: int| y + offset));
        },
        None => {
            if is_redundant(groups, i) {
                lemma_derivations_at(groups, i, n);
                let k = choose|k: int| 0 <= k < gone.len() && gone[k] == derivation(groups, i);
                assert(q(gone[k]));
            } else {
                lemma_kept_at(groups, i, n);
                let k = kept_groups(groups, i).len() as int;
                assert(p(kept[k]));
            }
            let k = first_where(gone, q)->0;
            assert(q(gone[k]));
            let j = lemma_derivations_from(groups, n, k);
            lemma_derived_value(groups, j, row);
            assert(group_value(row, groups[j]) == strictly(x, |y: int| y + offset));
        },
    }
}

proof fn lemma_kept_bound(groups: Seq<Group>, n: int)
    requires
        0 <= n <= groups.len(),
    ensures
        kept_groups(groups, n).len() <= n,
    decreases n,
{
    if n > 0 {
        lemma_kept_bound(groups, n - 1);
    }
}

/// A grouped column in the target list is put out with its own value, where no
/// function of the column is grouped by.
pub proof fn lemma_column_output(
    e: Expr,
    groups: Seq<Group>,
    i: int,
    aggs: int,
    cases: int,
    ctx: Option<AggChainCtx>,
    row: ScanRow,
    answers: spec_fn(int) -> Option<int>,
)
    requires
        0 <= i < groups.len() <= i32::MAX,
        e.head matches Head::Var(v) && groups[i].col_idx == v.varattno - 1,
        groups[i].expr is Column,
        forall|k: int|
            0 <= k < groups.len() && (#[trigger] groups[k]).col_idx == groups[i].col_idx
                ==> is_shifted(groups[k]),
    ensures
        ({
            let n = groups.len() as int;
            let kept = kept_groups(groups, n);
            output_of(e, aggs, cases, kept, derivations(groups, n), ctx) matches Some(o)
                && output_value(row, kept, answers, o) == sql_value(row, e)
        }),
{
    let n = groups.len() as int;
    let kept = kept_groups(groups, n);
    let col = groups[i].col_idx;
    let bare = |g: Group| g.col_idx == col && g.expr is Column;
    let on = |g: Group| g.col_idx == col;
    lemma_first_where(groups, bare);
    lemma_first_where(kept, on);
    lemma_kept_bound(groups, n);
    assert(bare(groups[i]));
    let b = base_of(groups, col)->0;
    assert(bare(groups[b]));
    lemma_kept_at(groups, b, n);
    let kb = kept_groups(groups, b).len() as int;
    assert(on(kept[kb]));
    let k = first_where(kept, on)->0;
    assert(on(kept[k]));
    let j = lemma_kept_from(groups, n, k);
    assert(is_shifted(groups[j]));
    assert(j == b);
    let v = e.head->Var_0;
    assert((|g: Group| g.col_idx == crate::scan::agg_plan::col_of(v)) =~= on);
}

/// A grouped function call in the target list is put out with its own value,
/// where it is the only grouping by that function of that column.
pub proof fn lemma_function_output(
    e: Expr,
    groups: Seq<Group>,
    i: int,
    aggs: int,
    cases: int,
    ctx: Option<AggChainCtx>,
    row: ScanRow,
    answers: spec_fn(int) -> Option<int>,
)
    requires
        0 <= i < groups.len() <= i32::MAX,
        e.head is FuncExpr,
        crate::scan::agg_plan::first_var_col(e.args) == groups[i].col_idx,
        is_call_of(groups[i], e.head->FuncExpr_0.funcid),
        group_value(row, groups[i]) == sql_value(row, e),
        forall|k: int|
            0 <= k < groups.len() && (#[trigger] groups[k]).col_idx == groups[i].col_idx
                && is_call_of(groups[k], e.head->FuncExpr_0.funcid) ==> k == i,
    ensures
        ({
            let n = groups.len() as int;
            let kept = kept_groups(groups, n);
            output_of(e, aggs, cases, kept, derivations(groups, n), ctx) matches Some(o)
                && output_value(row, kept, answers, o) == sql_value(row, e)
        }),
{
    let n = groups.len() as int;
    let kept = kept_groups(groups, n);
    let f = e.head->FuncExpr_0;
    let col = crate::scan::agg_plan::first_var_col(e.args);
    let p = |g: Group| crate::scan::agg_plan::is_func_group(g, col, f.funcid);
    lemma_first_where(kept, p);
    lemma_kept_bound(groups, n);
    lemma_kept_at(groups, i, n);
    assert(p(kept[kept_groups(groups, i).len() as int]));
    let k = first_where(kept, p)->0;
    assert(p(kept[k]));
    let j = lemma_kept_from(groups, n, k);
    assert(groups[j].col_idx == col && is_call_of(groups[j], f.funcid));
}

/// Whether a grouping is by a call of the function of that number.
pub open spec fn is_call_of(g: Group, funcid: u32) -> bool {
    match g.expr {
        GroupExpr::RegexpReplace { func_oid, .. } => func_oid == funcid,
        GroupExpr::DateTrunc { func_oid, .. } => func_oid == funcid,
        GroupExpr::Extract { func_oid, .. } => func_oid == funcid,
        _ => false,
    }
}

/// How many of the first `n` entries that are put out are aggregates.
pub open spec fn aggs_before(tlist: Seq<Target>, n: int) -> int
    decreases n,
{
    if n <= 0 {
        0
    } else {
        aggs_before(tlist, n - 1) + if !tlist[n - 1].resjunk && tlist[n - 1].expr.head is Aggref {
            1int
        } else {
            0
        }
    }
}

proof fn lemma_agg_count(
    tlist: Seq<Target>,
    groups: Seq<Group>,
    gone: Seq<EliminatedSpec>,
    ctx: Option<AggChainCtx>,
    n: int,
)
    requires
        0 <= n <= tlist.len(),
    ensures
        agg_count(outputs_of(tlist, groups, gone, ctx, n)) == aggs_before(tlist, n),
    decreases n,
{
    if n > 0 {
        lemma_agg_count(tlist, groups, gone, ctx, n - 1);
        let before = outputs_of(tlist, groups, gone, ctx, n - 1);
        let t = tlist[n - 1];
        if !t.resjunk {
            match output_of(t.expr, agg_count(before), case_count(tlist, n - 1), groups, gone, ctx) {
                Some(o) => assert(before.push(o).drop_last() =~= before),
                None => {},
            }
        }
    }
}

/// Whether the entry of a target list is one that is put out.
pub open spec fn is_put_out(t: Target) -> bool {
    !t.resjunk && match t.expr.head {
        Head::Aggref(_)
        | Head::Var(_)
        | Head::FuncExpr(_)
        | Head::OpExpr(_)
        | Head::CaseExpr
        | Head::Const(_) => true,
        _ => false,
    }
}

/// How many of the first `n` entries are put out.
pub open spec fn put_out_before(tlist: Seq<Target>, n: int) -> int
    decreases n,
{
    if n <= 0 {
        0
    } else {
        put_out_before(tlist, n - 1) + if is_put_out(tlist[n - 1]) {
            1int
        } else {
            0
        }
    }
}

/// Each entry that is put out has its own output column, in order: the k-th
/// aggregate stands for the k-th aggregate of the query, the k-th CASE for the
/// k-th grouping by a CASE, and a constant for itself.
pub proof fn lemma_output_columns(
    tlist: Seq<Target>,
    groups: Seq<Group>,
    gone: Seq<EliminatedSpec>,
    ctx: Option<AggChainCtx>,
    i: int,
    n: int,
)
    requires
        0 <= i < n <= tlist.len() <= i32::MAX,
        groups.len() <= i32::MAX,
        is_put_out(tlist[i]),
    ensures
        ({
            let all = outputs_of(tlist, groups, gone, ctx, n);
            let o = all[put_out_before(tlist, i)];
            &&& all.len() == put_out_before(tlist, n)
            &&& 0 <= put_out_before(tlist, i) < all.len()
            &&& match tlist[i].expr.head {
                Head::Aggref(_) => o == Output::Agg(aggs_before(tlist, i) as i32) && 0
                    <= aggs_before(tlist, i) <= i,
                Head::Const(c) => o matches Output::Const { type_oid, value, is_null } && type_oid
                    == c.consttype && is_null == c.constisnull && (!is_null ==> value == if c.consttype
                    == 21 {
                    c.word as i16 as int
                } else if c.consttype == 23 {
                    c.word as i32 as int
                } else {
                    c.word as int
                }),
                Head::CaseExpr => o matches Output::Group(g) && {
                    let at = case_groups(groups, groups.len() as int);
                    let k = case_count(tlist, i);
                    at.len() > k >= 0 ==> g == at[k] && groups[g as int].expr is CaseWhen
                },
                _ => o == output_of(
                    tlist[i].expr,
                    aggs_before(tlist, i),
                    case_count(tlist, i),
                    groups,
                    gone,
                    ctx,
                )->0,
            }
        }),
    decreases n,
{
    lemma_agg_count(tlist, groups, gone, ctx, n - 1);
    lemma_agg_count(tlist, groups, gone, ctx, i);
    lemma_outputs_len(tlist, groups, gone, ctx, n - 1);
    lemma_outputs_len(tlist, groups, gone, ctx, n);
    lemma_outputs_len(tlist, groups, gone, ctx, i);
    lemma_aggs_before(tlist, i);
    lemma_case_groups(groups, groups.len() as int);
    if i < n - 1 {
        lemma_output_columns(tlist, groups, gone, ctx, i, n - 1);
    }
}

proof fn lemma_aggs_before(tlist: Seq<Target>, n: int)
    requires
        0 <= n,
    ensures
        0 <= aggs_before(tlist, n) <= n,
    decreases n,
{
    if n > 0 {
        lemma_aggs_before(tlist, n - 1);
    }
}

proof fn lemma_outputs_len(
    tlist: Seq<Target>,
    groups: Seq<Group>,
    gone: Seq<EliminatedSpec>,
    ctx: Option<AggChainCtx>,
    n: int,
)
    requires
        0 <= n <= tlist.len(),
    ensures
        outputs_of(tlist, groups, gone, ctx, n).len() == put_out_before(tlist, n),
    decreases n,
{
    if n > 0 {
        lemma_outputs_len(tlist, groups, gone, ctx, n - 1);
    }
}

/// The plan's target list is what the query puts out, entry by entry and in
/// order, numbered from 1.
pub proof fn lemma_plan_targets(tlist: Seq<Target>, i: int, n: int)
    requires
        0 <= i < n <= tlist.len() < i16::MAX,
        !tlist[i].resjunk,
    ensures
        ({
            let all = clean_targets(tlist, n);
            let k = clean_targets(tlist, i).len() as int;
            &&& k < all.len()
            &&& all[k].expr == tlist[i].expr && all[k].resname == tlist[i].resname && !all[k].resjunk
            &&& all[k].resno == k + 1
        }),
    decreases n,
{
    lemma_targets_len(tlist, i);
    if i < n - 1 {
        lemma_plan_targets(tlist, i, n - 1);
    }
}

proof fn lemma_targets_len(tlist: Seq<Target>, n: int)
    requires
        0 <= n,
    ensures
        clean_targets(tlist, n).len() <= n,
    decreases n,
{
    if n > 0 {
        lemma_targets_len(tlist, n - 1);
    }
}

// ---------------------------------------------------------------------------
// Descriptions
// ---------------------------------------------------------------------------

/// The number of an aggregate function in a description.
pub open spec fn function_number(t: AggType) -> i32 {
    match t {
        AggType::CountStar => 0,
        AggType::Count => 1,
        AggType::Sum => 2,
        AggType::Avg => 3,
        AggType::CountDistinct => 4,
        AggType::Min => 5,
        AggType::Max => 6,
    }
}

/// Where a reader of a description finds what an aggregate is: the function, the
/// column, the types, what of the column, then the constant of a sum, then what
/// an extreme is shifted by, low half first.
pub proof fn lemma_agg_layout(a: AggSpec)
    ensures
        ({
            let s = agg_ints(a);
            let extreme = a.agg_type == AggType::Min || a.agg_type == AggType::Max;
            let at = if a.expr_kind == AggExpr::AddConst {
                6int
            } else {
                5
            };
            &&& s[0] == function_number(a.agg_type) && s[1] == a.col_idx
            &&& s[2] as u32 == a.result_type_oid && s[3] as u32 == a.col_type_oid
            &&& s[4] == match a.expr_kind {
                AggExpr::Column => 0,
                AggExpr::LengthOf => 1,
                AggExpr::AddConst => 2i32,
            }
            &&& a.expr_kind == AggExpr::AddConst ==> s[5] == a.const_offset as i32
            &&& s.len() == at + if !extreme {
                0int
            } else if a.output_transform == OutputTransform::Identity {
                1
            } else {
                3
            }
            &&& extreme ==> match a.output_transform {
                OutputTransform::Identity => s[at] == 0,
                OutputTransform::PgUsShift { delta } => s[at] == 1 && s[at + 1] == delta as i32 && s[
                    at + 2
                ] == (delta >> 32) as i32,
            }
        }),
{
    crate::scan::wire_decode::lemma_oid_back(a.result_type_oid);
    crate::scan::wire_decode::lemma_oid_back(a.col_type_oid);
}

/// Where a reader finds a text: its length, then its bytes.
pub proof fn lemma_text_layout(t: Seq<u8>)
    requires
        t.len() <= i32::MAX,
    ensures
        text_ints(t).len() == t.len() + 1,
        text_ints(t)[0] == t.len(),
        forall|i: int| 0 <= i < t.len() ==> text_ints(t)[i + 1] == #[trigger] t[i],
{
}

/// Where a reader finds what a grouping is: the column, its type, a tag, and what
/// the tag asks for.
pub proof fn lemma_group_layout(g: Group)
    ensures
        ({
            let s = group_ints(g);
            &&& s[0] == g.col_idx && s[1] as u32 == g.type_oid
            &&& match g.expr {
                GroupExpr::Column => s[2] == 0 && s.len() == 3,
                GroupExpr::RegexpReplace { pattern, replacement, func_oid, collation } => s[2] == 1
                    && s[3] as u32 == func_oid && s[4] as u32 == collation && s.subrange(
                    5,
                    s.len() as int,
                ) == text_ints(pattern) + text_ints(replacement),
                GroupExpr::DateTrunc { unit, func_oid } => s[2] == 2 && s[3] as u32 == func_oid
                    && s.subrange(4, s.len() as int) == text_ints(unit),
                GroupExpr::Extract { unit, func_oid, divisor } => s[2] == 3 && s[3] as u32
                    == func_oid && s[4] == (divisor >> 32) as i32 && s[5] == divisor as i32
                    && s.subrange(6, s.len() as int) == text_ints(unit),
                GroupExpr::AddConst { offset, op_oid } => s[2] == 4 && s[3] == offset && s[4] as u32
                    == op_oid && s.len() == 5,
                GroupExpr::CaseWhen(c) => s[2] == 5 && s[3] == c.clauses.len() as i32 && s.subrange(
                    4,
                    s.len() as int,
                ) == crate::scan::wire::clauses_ints(c.clauses) + case_value_ints(c.default),
            }
        }),
{
    let s = group_ints(g);
    crate::scan::wire_decode::lemma_oid_back(g.type_oid);
    match g.expr {
        GroupExpr::Column => {},
        GroupExpr::RegexpReplace { pattern, replacement, func_oid, collation } => {
            crate::scan::wire_decode::lemma_oid_back(func_oid);
            crate::scan::wire_decode::lemma_oid_back(collation);
            assert(s.subrange(5, s.len() as int) =~= text_ints(pattern) + text_ints(replacement));
        },
        GroupExpr::DateTrunc { unit, func_oid } => {
            crate::scan::wire_decode::lemma_oid_back(func_oid);
            assert(s.subrange(4, s.len() as int) =~= text_ints(unit));
        },
        GroupExpr::Extract { unit, func_oid, divisor } => {
            crate::scan::wire_decode::lemma_oid_back(func_oid);
            assert(s.subrange(6, s.len() as int) =~= text_ints(unit));
        },
        GroupExpr::AddConst { offset, op_oid } => {
            crate::scan::wire_decode::lemma_oid_back(op_oid);
        },
        GroupExpr::CaseWhen(c) => {
            assert(s.subrange(4, s.len() as int) =~= crate::scan::wire::clauses_ints(c.clauses)
                + case_value_ints(c.default));
        },
    }
}

/// Where a reader finds the conditions and results of a CASE.
pub proof fn lemma_case_layout(c: CaseWhenCondition, v: CaseValue)
    ensures
        ({
            let s = condition_ints(c);
            s.len() == 4 && s[0] == c.col_idx as i32 && s[1] == (if c.op == CaseWhenOp::Eq {
                0i32
            } else {
                1
            }) && s[2] == (c.const_val >> 32) as i32 && s[3] == c.const_val as i32
        }),
        match v {
            CaseValue::ColumnRef(k) => case_value_ints(v).len() == 2 && case_value_ints(v)[0] == 0
                && case_value_ints(v)[1] == k as i32,
            CaseValue::StringConst(t) => case_value_ints(v)[0] == 1 && case_value_ints(v).subrange(
                1,
                case_value_ints(v).len() as int,
            ) == text_ints(t),
        },
{
    match v {
        CaseValue::StringConst(t) => {
            assert(case_value_ints(v).subrange(1, case_value_ints(v).len() as int) =~= text_ints(
                t,
            ));
        },
        _ => {},
    }
}

/// Where a reader finds what an output column, a filter and a limit are.
pub proof fn lemma_output_layout(o: Output, h: HavingFilter, t: Option<AggTopnInfo>)
    ensures
        ({
            let s = output_ints(o);
            match o {
                Output::Agg(k) => s.len() == 2 && s[0] == 0 && s[1] == k,
                Output::Group(k) => s.len() == 2 && s[0] == 1 && s[1] == k,
                Output::Const { type_oid, value, is_null } => s.len() == 6 && s[0] == 2 && s[2] as u32
                    == type_oid && s[3] == (value >> 32) as i32 && s[4] == value as i32 && s[5]
                    == if is_null {
                    1i32
                } else {
                    0
                },
                Output::Derived { base, delta } => s.len() == 4 && s[0] == 3 && s[1] == base && s[2]
                    == (delta >> 32) as i32 && s[3] == delta as i32,
            }
        }),
        ({
            let s = having_ints(h);
            s.len() == 3 && s[0] == h.agg_idx as i32 && s[1] == match h.op {
                HavingOp::Gt => 0i32,
                HavingOp::Lt => 1,
                HavingOp::Ge => 2,
                HavingOp::Le => 3,
                HavingOp::Eq => 4,
                HavingOp::Ne => 5,
            } && s[2] == h.const_val as i32
        }),
        ({
            let s = topn_ints(t);
            match t {
                Some(i) => s[0] == i.limit as i32 && s[1] == i.sort_col && s[2] == (if i.ascending {
                    1i32
                } else {
                    0
                }) && match i.derived_minmax {
                    Some((mx, mn)) => s.len() == 5 && s[3] == mx && s[4] == mn,
                    None => s.len() == 3,
                },
                None => s.len() == 1 && s[0] == 0,
            }
        }),
{
    match o {
        Output::Const { type_oid, value, is_null } => {
            crate::scan::wire_decode::lemma_oid_back(type_oid);
        },
        _ => {},
    }
}

/// Where a reader finds what an answer from metadata is: the kind, the column,
/// the types, how a value is passed, and the constant of a sum, low half first.
pub proof fn lemma_meta_layout(a: PlanAggSpec)
    ensures
        ({
            let s = meta_ints(a);
            &&& s.len() == 8
            &&& s[0] == match a.kind {
                MetaAggKind::Min => 0i32,
                MetaAggKind::Max => 1,
                MetaAggKind::Sum => 2,
                MetaAggKind::CountCol => 3,
                MetaAggKind::CountStar => 4,
            }
            &&& s[1] == a.varattno && s[2] as u32 == a.result_type_oid && s[3] as u32
                == a.col_type_oid && s[4] == a.typlen
            &&& s[5] == if a.typbyval {
                1i32
            } else {
                0
            }
            &&& s[6] == a.const_offset as i32 && s[7] == (a.const_offset >> 32) as i32
        }),
{
    crate::scan::wire_decode::lemma_oid_back(a.result_type_oid);
    crate::scan::wire_decode::lemma_oid_back(a.col_type_oid);
}

/// Whether a description starts with the tables and the mark behind them.
pub open spec fn starts_with_tables(s: Seq<i32>, oids: Seq<u32>) -> bool {
    &&& s.len() > oids.len()
    &&& forall|i: int| 0 <= i < oids.len() ==> s[i] as u32 == #[trigger] oids[i]
    &&& s[oids.len() as int] == -1
}

proof fn lemma_tables(s: Seq<i32>, oids: Seq<u32>)
    requires
        s.len() > oids.len(),
        forall|i: int| 0 <= i < oids.len() ==> s[i] == (#[trigger] oids[i]) as i32,
        s[oids.len() as int] == -1,
    ensures
        starts_with_tables(s, oids),
{
    assert forall|i: int| 0 <= i < oids.len() implies s[i] as u32 == #[trigger] oids[i] by {
        crate::scan::wire_decode::lemma_oid_back(oids[i]);
    }
}

/// A description of a row scan has the tables, the columns to load, and the limit
/// where there is one.
pub proof fn lemma_scan_layout(oids: Seq<u32>, cols: Seq<i32>, t: ScanTopn)
    ensures
        ({
            let s = scan_ints(oids, cols, t);
            let k: int = oids.len() as int + 1 + cols.len();
            &&& starts_with_tables(s, oids)
            &&& forall|i: int| 0 <= i < cols.len() ==> s[oids.len() as int + 1 + i] == #[trigger] cols[i]
            &&& if t.limit > 0 {
                &&& s.len() == k + 6 && s[k as int] == -2 && s[k + 1] == t.limit as i32
                &&& s[k + 2] == if t.ascending {
                    1i32
                } else {
                    0
                }
                &&& s[k + 3] == if t.multi_col {
                    1i32
                } else {
                    0
                }
                &&& s[k + 4] == t.sort_col_attno
                &&& s[k + 5] == if t.nulls_first {
                    1i32
                } else {
                    0
                }
            } else {
                s.len() == k
            }
        }),
{
    lemma_tables(scan_ints(oids, cols, t), oids);
}

/// A description of a count has the tables, then the conditions as text.
pub proof fn lemma_count_layout(oids: Seq<u32>, quals: Option<Seq<u8>>)
    ensures
        ({
            let s = count_ints(oids, quals);
            let rest = s.subrange(oids.len() as int + 1, s.len() as int);
            &&& starts_with_tables(s, oids)
            &&& match quals {
                Some(t) => rest == text_ints(t),
                None => rest == seq![0i32],
            }
        }),
{
    let s = count_ints(oids, quals);
    lemma_tables(s, oids);
    assert(s.subrange(oids.len() as int + 1, s.len() as int) =~= qual_ints(quals));
}

/// A description of an aggregate path has the tables, how many aggregates there
/// are and those, how many groupings there are and those, and whether it is of a
/// worker.
pub proof fn lemma_path_layout(
    oids: Seq<u32>,
    aggs: Seq<AggSpec>,
    groups: Seq<Group>,
    is_partial: bool,
)
    ensures
        ({
            let s = agg_path_ints(oids, aggs, groups, is_partial);
            let a: int = oids.len() as int + 2;
            let b: int = a + aggs_ints(aggs).len();
            let c: int = b + 1 + groups_ints(groups).len();
            &&& starts_with_tables(s, oids)
            &&& s[oids.len() as int + 1] == aggs.len() as i32
            &&& s.subrange(a as int, b as int) == aggs_ints(aggs)
            &&& s[b as int] == groups.len() as i32
            &&& s.subrange(b + 1, c as int) == groups_ints(groups)
            &&& s.len() == c + 1 && s[c as int] == if is_partial {
                1i32
            } else {
                0
            }
        }),
{
    let s = agg_path_ints(oids, aggs, groups, is_partial);
    let a: int = oids.len() as int + 2;
    let b: int = a + aggs_ints(aggs).len();
    let c: int = b + 1 + groups_ints(groups).len();
    lemma_tables(s, oids);
    assert(s.subrange(a as int, b as int) =~= aggs_ints(aggs));
    assert(s.subrange(b + 1, c as int) =~= groups_ints(groups));
}

/// A description of an aggregate plan has the tables, and then each with how many
/// there are: the aggregates, the groupings, the output columns and the filters;
/// then the conditions, the limit, and whether it is of a worker.
pub proof fn lemma_plan_layout(c: PlanContents)
    ensures
        ({
            let s = agg_plan_ints(c);
            let aggs = crate::scan::wire::ints_of(
                crate::scan::agg_plan::parsed_agg_enc(),
                c.aggs,
            );
            let outs = crate::scan::wire::ints_of(crate::scan::agg_plan::output_enc(), c.outputs);
            let having = crate::scan::wire::ints_of(crate::scan::agg_plan::having_enc(), c.having);
            let a: int = c.oids.len() as int + 2;
            let b: int = a + aggs.len();
            let d: int = b + 1 + groups_ints(c.groups).len();
            let e: int = d + 1 + outs.len();
            let f: int = e + 1 + having.len();
            let g: int = f + qual_ints(c.quals).len();
            let h: int = g + topn_ints(c.topn).len();
            &&& starts_with_tables(s, c.oids)
            &&& s[c.oids.len() as int + 1] == c.aggs.len() as i32 && s.subrange(a as int, b as int) == aggs
            &&& s[b as int] == c.groups.len() as i32 && s.subrange(b + 1, d as int) == groups_ints(
                c.groups,
            )
            &&& s[d as int] == c.outputs.len() as i32 && s.subrange(d + 1, e as int) == outs
            &&& s[e as int] == c.having.len() as i32 && s.subrange(e + 1, f as int) == having
            &&& s.subrange(f as int, g as int) == match c.quals {
                Some(t) => text_ints(t),
                None => seq![0i32],
            }
            &&& s.subrange(g as int, h as int) == topn_ints(c.topn)
            &&& s.len() == h + 1 && s[h as int] == if c.is_partial {
                1i32
            } else {
                0
            }
        }),
{
    let s = agg_plan_ints(c);
    let aggs = crate::scan::wire::ints_of(crate::scan::agg_plan::parsed_agg_enc(), c.aggs);
    let outs = crate::scan::wire::ints_of(crate::scan::agg_plan::output_enc(), c.outputs);
    let having = crate::scan::wire::ints_of(crate::scan::agg_plan::having_enc(), c.having);
    let a: int = c.oids.len() as int + 2;
    let b: int = a + aggs.len();
    let d: int = b + 1 + groups_ints(c.groups).len();
    let e: int = d + 1 + outs.len();
    let f: int = e + 1 + having.len();
    let g: int = f + qual_ints(c.quals).len();
    let h: int = g + topn_ints(c.topn).len();
    lemma_tables(s, c.oids);
    assert(s.subrange(a as int, b as int) =~= aggs);
    assert(s.subrange(b + 1, d as int) =~= groups_ints(c.groups));
    assert(s.subrange(d + 1, e as int) =~= outs);
    assert(s.subrange(e + 1, f as int) =~= having);
    assert(s.subrange(f as int, g as int) =~= qual_ints(c.quals));
    assert(s.subrange(g as int, h as int) =~= topn_ints(c.topn));
}

} // verus!
