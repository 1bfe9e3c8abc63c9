//! Which conditions, units and output columns a scan can take over.

use vstd::prelude::*;
use crate::scan::agg_plan::{first_var_col, is_func_group, key_pred, GroupKey};
use crate::scan::agg_types::{Group, GroupExpr};
use crate::scan::exprs::only_aggs;
use crate::scan::json_extract::AggChainCtx;
use crate::scan::node::{is_null, unrelabel, BoolOp, Expr, Head, OpName};
use crate::scan::path::partial_eligible;
use crate::scan::pushdown::{
    extract_unit, func_column, outputs_match, pushable, served, side_type, trunc_usecs,
};
use crate::scan::quals::{
    first_conditions, present, query_conditions, query_has_where, scan_conditions,
};
use crate::scan::time_bounds::minmax_meta_type;
use crate::search::lemma_first_where;

verus! {

// ---------------------------------------------------------------------------
// Types
// ---------------------------------------------------------------------------

/// Whether a type's values are compared as one machine word: integers, floats,
/// dates and times, and booleans.
pub open spec fn is_word_type(t: u32) -> bool {
    t == 21 || t == 23 || t == 20 || t == 700 || t == 701 || t == 1082 || t == 1114 || t == 1184
        || t == 16
}

/// A segment's metadata has the extremes of integers, floats, dates and times;
/// workers also filter by booleans.
pub proof fn lemma_types_compared(t: u32)
    ensures
        minmax_meta_type(t) <==> is_word_type(t) && t != 16,
        partial_eligible(t) <==> is_word_type(t),
{
}

// ---------------------------------------------------------------------------
// Conditions
// ---------------------------------------------------------------------------

/// Whether an expression is a constant other than NULL.
pub open spec fn is_value(e: Expr) -> bool {
    e.head matches Head::Const(c) && !c.constisnull
}

/// Whether a scan compares a column of a type with a constant on its right.
pub open spec fn compares_right(op: OpName, t: u32) -> bool {
    match op {
        OpName::Eq | OpName::Ne | OpName::BangEq => is_word_type(t) || t == 25 || t == 1043,
        OpName::Lt | OpName::Le | OpName::Gt | OpName::Ge => is_word_type(t),
        OpName::Like | OpName::NotLike => t == 25 || t == 1043 || t == 1042,
        _ => false,
    }
}

/// Whether a scan compares a column of a type with a constant on its left.
pub open spec fn compares_left(op: OpName, t: u32) -> bool {
    match op {
        OpName::Eq | OpName::Ne | OpName::BangEq | OpName::Lt | OpName::Le | OpName::Gt
        | OpName::Ge => is_word_type(t),
        _ => false,
    }
}

/// A comparison is taken over where one side is a column, plain or extracted, and
/// the other a constant that is not NULL, and the type has the comparison: words
/// by order, texts by equality and pattern, and only with the column on the left.
pub proof fn lemma_comparisons_taken_over(e: Expr, ctx: Option<AggChainCtx>)
    requires
        e.head is OpExpr,
        e.args.len() == 2,
    ensures
        ({
            let (l, r) = (unrelabel(e.args[0]), unrelabel(e.args[1]));
            let op = e.head->OpExpr_0.name;
            pushable(e, ctx) <==> {
                ||| is_value(r) && (side_type(ctx, l) matches Some(t) && compares_right(op, t))
                ||| is_value(l) && (side_type(ctx, r) matches Some(t) && compares_left(op, t))
            }
        }),
{
}

/// A side of a comparison has the type of the column that it is, or of the
/// extracted column that serves it.
pub proof fn lemma_types_of_sides(e: Expr, ctx: Option<AggChainCtx>)
    ensures
        e.head matches Head::Var(v) ==> side_type(ctx, e) == Some(v.vartype),
        !(e.head is Var) ==> side_type(ctx, e) == match ctx {
            Some(c) => match c.synthetic(e) {
                Some(s) => Some(s.1),
                None => None,
            },
            None => None,
        },
{
}

/// Of the other conditions a scan takes over a boolean column, its negation, a
/// conjunction, whose members are looked at one by one, and membership of a
/// column of integers, times or texts in a constant list; nothing else.
pub proof fn lemma_other_conditions_taken_over(e: Expr, ctx: Option<AggChainCtx>)
    requires
        !(e.head is OpExpr),
    ensures
        pushable(e, ctx) <==> match e.head {
            Head::Var(v) => v.vartype == 16,
            Head::BoolExpr(op) => op == BoolOp::And || (op == BoolOp::Not && e.args.len() == 1 && (
            e.args[0].head matches Head::Var(v) && v.vartype == 16)),
            Head::ScalarArrayOpExpr(any) => any && e.args.len() == 2 && is_value(e.args[1]) && (
            side_type(ctx, unrelabel(e.args[0])) matches Some(t) && (t == 21 || t == 23 || t == 20
                || t == 1082 || t == 1114 || t == 1184 || t == 25 || t == 1043 || t == 1042)),
            _ => false,
        },
{
}

proof fn lemma_present_none(s: Seq<Expr>)
    ensures
        present(s).len() == 0 <==> forall|i: int| 0 <= i < s.len() ==> is_null(#[trigger] s[i]),
    decreases s.len(),
{
    reveal(Seq::filter);
    if s.len() > 0 {
        let f = s.drop_last();
        lemma_present_none(f);
        assert forall|i: int| 0 <= i < f.len() implies f[i] == s[i] by {}
        assert(s[s.len() - 1] == s.last());
        if present(s).len() == 0 {
            assert forall|i: int| 0 <= i < s.len() implies is_null(#[trigger] s[i]) by {
                if i < f.len() {
                    assert(is_null(f[i]));
                }
            }
        } else if forall|i: int| 0 <= i < s.len() ==> is_null(#[trigger] s[i]) {
            assert forall|i: int| 0 <= i < f.len() implies is_null(#[trigger] f[i]) by {
                assert(is_null(s[i]));
            }
        }
    }
}

/// The conditions of a query are those of the first relation that has any, in
/// their order.
pub proof fn lemma_conditions_of_first(rels: Seq<Seq<Expr>>, k: int)
    requires
        0 <= k < rels.len(),
        forall|j: int, i: int|
            0 <= j < k && 0 <= i < rels[j].len() ==> is_null(#[trigger] rels[j][i]),
        exists|i: int| 0 <= i < rels[k].len() && !is_null(#[trigger] rels[k][i]),
    ensures
        first_conditions(rels) == rels[k].filter(|e: Expr| !is_null(e)),
    decreases rels.len(),
{
    lemma_present_none(rels[0]);
    if k > 0 {
        assert forall|i: int| 0 <= i < rels[0].len() implies is_null(#[trigger] rels[0][i]) by {}
        let rest = rels.drop_first();
        assert(rest[k - 1] == rels[k]);
        assert forall|j: int, i: int| 0 <= j < k - 1 && 0 <= i < rest[j].len() implies is_null(
            #[trigger] rest[j][i],
        ) by {
            assert(rest[j] == rels[j + 1]);
            assert(is_null(rels[j + 1][i]));
        }
        let i = choose|i: int| 0 <= i < rels[k].len() && !is_null(#[trigger] rels[k][i]);
        assert(!is_null(rest[k - 1][i]));
        lemma_conditions_of_first(rest, k - 1);
    }
}

/// Where no relation has a condition, there is none.
pub proof fn lemma_no_conditions(rels: Seq<Seq<Expr>>)
    requires
        forall|j: int, i: int|
            0 <= j < rels.len() && 0 <= i < rels[j].len() ==> is_null(#[trigger] rels[j][i]),
    ensures
        first_conditions(rels).len() == 0,
    decreases rels.len(),
{
    if rels.len() > 0 {
        lemma_present_none(rels[0]);
        assert forall|i: int| 0 <= i < rels[0].len() implies is_null(#[trigger] rels[0][i]) by {}
        let rest = rels.drop_first();
        assert forall|j: int, i: int| 0 <= j < rest.len() && 0 <= i < rest[j].len() implies is_null(
            #[trigger] rest[j][i],
        ) by {
            assert(rest[j] == rels[j + 1]);
            assert(is_null(rels[j + 1][i]));
        }
        lemma_no_conditions(rest);
    }
}

/// A query without a WHERE clause has no conditions, and an aggregate scan checks
/// the conditions that the query has.
pub proof fn lemma_conditions_are_checked(jointree: Expr, rels: Seq<Seq<Expr>>)
    ensures
        !query_has_where(jointree, rels) ==> query_conditions(jointree, rels).len() == 0
            && scan_conditions(jointree, rels).len() == 0,
        query_conditions(jointree, rels).len() > 0 ==> scan_conditions(jointree, rels)
            == query_conditions(jointree, rels) && query_has_where(jointree, rels),
        !is_null(jointree) ==> query_has_where(jointree, rels),
{
    if is_null(jointree) && (forall|i: int| 0 <= i < rels.len() ==> (#[trigger] rels[i]).len() == 0) {
        lemma_no_conditions(rels);
    }
    if !query_has_where(jointree, rels) {
        assert forall|i: int| 0 <= i < rels.len() implies (#[trigger] rels[i]).len() == 0 by {}
    }
}

// ---------------------------------------------------------------------------
// Units of time
// ---------------------------------------------------------------------------

proof fn lemma_words_of_units()
    ensures
        "microsecond"@.len() == 11,
        "microseconds"@.len() == 12,
        "us"@.len() == 2,
        "millisecond"@.len() == 11,
        "milliseconds"@.len() == 12,
        "ms"@.len() == 2,
        "second"@.len() == 6,
        "seconds"@.len() == 7,
        "minute"@.len() == 6,
        "minutes"@.len() == 7,
        "hour"@.len() == 4,
        "hours"@.len() == 5,
        "day"@.len() == 3,
        "days"@.len() == 4,
        "microsecond"@ != "millisecond"@,
        "microseconds"@ != "milliseconds"@,
        "us"@ != "ms"@,
        "second"@ != "minute"@,
        "seconds"@ != "minutes"@,
        "hour"@ != "days"@,
{
    reveal_strlit("microsecond");
    reveal_strlit("microseconds");
    reveal_strlit("us");
    reveal_strlit("millisecond");
    reveal_strlit("milliseconds");
    reveal_strlit("ms");
    reveal_strlit("second");
    reveal_strlit("seconds");
    reveal_strlit("minute");
    reveal_strlit("minutes");
    reveal_strlit("hour");
    reveal_strlit("hours");
    reveal_strlit("day");
    reveal_strlit("days");
    assert("microsecond"@[2] == 'c' && "millisecond"@[2] == 'l');
    assert("microseconds"@[2] == 'c' && "milliseconds"@[2] == 'l');
    assert("us"@[0] == 'u' && "ms"@[0] == 'm');
    assert("second"@[0] == 's' && "minute"@[0] == 'm');
    assert("seconds"@[0] == 's' && "minutes"@[0] == 'm');
    assert("hour"@[0] == 'h' && "days"@[0] == 'd');
}

/// The units of `date_trunc` stand in the proportions of the clock, and a unit has
/// one length under each of its names.
pub proof fn lemma_units_of_the_clock()
    ensures
        trunc_usecs("us"@) == Some(1i64),
        trunc_usecs("microsecond"@) == trunc_usecs("us"@),
        trunc_usecs("microseconds"@) == trunc_usecs("us"@),
        trunc_usecs("ms"@) is Some && trunc_usecs("ms"@)->0 == 1000 * trunc_usecs("us"@)->0,
        trunc_usecs("millisecond"@) == trunc_usecs("ms"@),
        trunc_usecs("milliseconds"@) == trunc_usecs("ms"@),
        trunc_usecs("second"@) is Some && trunc_usecs("second"@)->0 == 1000 * trunc_usecs("ms"@)->0,
        trunc_usecs("seconds"@) == trunc_usecs("second"@),
        trunc_usecs("minute"@) is Some && trunc_usecs("minute"@)->0 == 60 * trunc_usecs(
            "second"@,
        )->0,
        trunc_usecs("minutes"@) == trunc_usecs("minute"@),
        trunc_usecs("hour"@) is Some && trunc_usecs("hour"@)->0 == 60 * trunc_usecs("minute"@)->0,
        trunc_usecs("hours"@) == trunc_usecs("hour"@),
        trunc_usecs("day"@) is Some && trunc_usecs("day"@)->0 == 24 * trunc_usecs("hour"@)->0,
        trunc_usecs("days"@) == trunc_usecs("day"@),
{
    lemma_words_of_units();
}

/// A unit of `date_trunc` that is no fixed part of a day is not taken over.
pub proof fn lemma_other_units(u: Seq<char>)
    requires
        trunc_usecs(u) is Some,
    ensures
        u == "us"@ || u == "microsecond"@ || u == "microseconds"@ || u == "ms"@ || u
            == "millisecond"@ || u == "milliseconds"@ || u == "second"@ || u == "seconds"@ || u
            == "minute"@ || u == "minutes"@ || u == "hour"@ || u == "hours"@ || u == "day"@ || u
            == "days"@,
        86_400_000_000int % (trunc_usecs(u)->0 as int) == 0,
{
}

/// `extract` is taken over for the units below a day under their names in
/// singular and plural, and, of a plain column alone, for the weekday and the
/// epoch.
pub proof fn lemma_units_of_extract(u: Seq<char>, divided: bool)
    ensures
        extract_unit(u, divided) <==> (u == "microsecond"@ || u == "microseconds"@ || u
            == "millisecond"@ || u == "milliseconds"@ || u == "second"@ || u == "seconds"@ || u
            == "minute"@ || u == "minutes"@ || u == "hour"@ || u == "hours"@ || (!divided && (u
            == "dow"@ || u == "epoch"@))),
{
}

// ---------------------------------------------------------------------------
// Output columns
// ---------------------------------------------------------------------------

/// Whether a grouping is by a call of a function of a column.
pub open spec fn is_call(g: Group, col: i32, funcid: u32) -> bool {
    g.col_idx == col && match g.expr {
        GroupExpr::DateTrunc { unit, func_oid } => func_oid == funcid,
        GroupExpr::Extract { unit, func_oid, divisor } => func_oid == funcid,
        GroupExpr::RegexpReplace { pattern, replacement, func_oid, collation } => func_oid
            == funcid,
        _ => false,
    }
}

/// Where a target list is taken over, every function call in it is a grouping by
/// the same function of the same column, a CASE expression is grouped by, and
/// every other expression is made of aggregates, is an extracted column that is
/// grouped by, or is a column shifted by the same operator as a grouping.
pub proof fn lemma_outputs_are_grouped(
    funcs: Seq<Expr>,
    ops: Seq<Expr>,
    has_case: bool,
    groups: Seq<Group>,
    ctx: Option<AggChainCtx>,
    i: int,
)
    requires
        outputs_match(funcs, ops, has_case, groups, ctx),
    ensures
        0 <= i < funcs.len() ==> (funcs[i].head matches Head::FuncExpr(f) && exists|k: int|
            0 <= k < groups.len() && is_call(
                #[trigger] groups[k],
                func_column(funcs[i].args, ctx),
                f.funcid,
            )),
        has_case ==> exists|k: int| 0 <= k < groups.len() && (#[trigger] groups[k]).expr is CaseWhen,
        0 <= i < ops.len() && !only_aggs(ops[i]) ==> match served(ctx, ops[i]) {
            Some(s) => exists|k: int|
                0 <= k < groups.len() && (#[trigger] groups[k]).col_idx == s.0
                    && groups[k].expr is Column,
            None => ops[i].head matches Head::OpExpr(op) && first_var_col(ops[i].args) >= 0
                && exists|k: int|
                0 <= k < groups.len() && (#[trigger] groups[k]).col_idx == first_var_col(
                    ops[i].args,
                ) && (groups[k].expr matches GroupExpr::AddConst { offset, op_oid } && op_oid
                    == op.opno),
        },
{
    if has_case {
        lemma_first_where(groups, key_pred(GroupKey::Case));
        let k = crate::search::first_where(groups, key_pred(GroupKey::Case))->0;
        assert(key_pred(GroupKey::Case)(groups[k]));
        assert(groups[k].expr is CaseWhen);
    }
    if 0 <= i < funcs.len() {
        assert(crate::scan::pushdown::func_matches(funcs[i], groups, ctx));
        let f = funcs[i].head->FuncExpr_0;
        let col = func_column(funcs[i].args, ctx);
        let p = key_pred(GroupKey::Func { col, funcid: f.funcid });
        lemma_first_where(groups, p);
        let k = crate::search::first_where(groups, p)->0;
        assert(p(groups[k]));
        assert(is_func_group(groups[k], col, f.funcid));
        assert(is_call(groups[k], col, f.funcid));
    }
    if 0 <= i < ops.len() && !only_aggs(ops[i]) {
        assert(crate::scan::pushdown::op_matches(ops[i], groups, ctx));
        if let Some((col, t)) = served(ctx, ops[i]) {
            let p = key_pred(GroupKey::BareColumn(col));
            lemma_first_where(groups, p);
            let k = crate::search::first_where(groups, p)->0;
            assert(p(groups[k]));
            assert(groups[k].col_idx == col && groups[k].expr is Column);
        } else {
            let op = ops[i].head->OpExpr_0;
            let col = first_var_col(ops[i].args);
            let k = choose|k: int|
                0 <= k < groups.len() && crate::scan::pushdown::is_op_group(
                    #[trigger] groups[k],
                    col,
                    op.opno,
                );
            assert(groups[k].col_idx == col);
        }
    }
}

} // verus!
