//! Conditions, groupings and HAVING clauses that an aggregate scan can take over.

use vstd::prelude::*;
use vstd::string::*;
use vstd::utf8::{encode_utf8, valid_utf8};
use crate::pg_types::{
    is_float_oid, is_float_type, is_integer_oid, is_integer_type, is_string_oid, is_string_type,
    is_temporal_oid, is_temporal_type, BOOLOID, INT8OID, INVALID_OID, NUMERICOID, TEXTOID,
    TIMESTAMPOID, TIMESTAMPTZOID, VARCHAROID,
};
use crate::scan::agg_plan::{
    col_of, const_int_value, find_group, first_var_arg, first_var_col, int_value, key_pred,
    GroupKey,
};
use crate::scan::agg_types::{groups_view, Group, GroupByColSpec, GroupByExpr, GroupExpr};
use crate::scan::catalog::QueryRels;
use crate::scan::exprs::{
    case_clauses_of, case_result, case_spec, expr_only_uses_aggrefs_and_consts, is_int_const,
    only_aggs, parse_case_expr,
};
use crate::scan::json_extract::{unwrap_relabel, AggChainCtx};
use crate::scan::node::{
    exprs, group_node, null_expr, unrelabel, BoolOp, Const, Expr, FuncInfo, FuncName, Head, Node,
    OpInfo, OpName, Payload, Var,
};
use crate::scan::upper::fits_i32;
use crate::scan::wire_decode::{case_value_is_text, group_is_text};
use crate::search::first_where;
use crate::text::text_is;

verus! {

// ---------------------------------------------------------------------------
// WHERE
// ---------------------------------------------------------------------------

/// The extracted column that serves `e`.
pub open spec fn served(ctx: Option<AggChainCtx>, e: Expr) -> Option<(i32, u32)> {
    match ctx {
        Some(c) => c.synthetic(e),
        None => None,
    }
}

fn serve(ctx: &Option<AggChainCtx>, node: &Node) -> (r: Option<(i32, u32)>)
    requires
        *ctx matches Some(c) ==> c.wf(),
    ensures
        r == served(*ctx, node.view()),
{
    match ctx {
        Some(c) => c.match_to_synthetic(node),
        None => None,
    }
}

/// Type of a column or of a chain that an extracted column serves.
pub open spec fn side_type(ctx: Option<AggChainCtx>, e: Expr) -> Option<u32> {
    match e.head {
        Head::Var(v) => Some(v.vartype),
        _ => match served(ctx, e) {
            Some((_, t)) => Some(t),
            None => None,
        },
    }
}

fn type_of_side(ctx: &Option<AggChainCtx>, node: &Node) -> (r: Option<u32>)
    requires
        *ctx matches Some(c) ==> c.wf(),
    ensures
        r == side_type(*ctx, node.view()),
{
    broadcast use group_node;

    match &node.head {
        Head::Var(v) => Some(v.vartype),
        _ => match serve(ctx, node) {
            Some((_, t)) => Some(t),
            None => None,
        },
    }
}

pub open spec fn is_equality(op: OpName) -> bool {
    op == OpName::Eq || op == OpName::Ne || op == OpName::BangEq
}

pub open spec fn is_order(op: OpName) -> bool {
    op == OpName::Lt || op == OpName::Le || op == OpName::Gt || op == OpName::Ge
}

pub open spec fn is_pattern(op: OpName) -> bool {
    op == OpName::Like || op == OpName::NotLike
}

/// Types that are compared as numbers.
pub open spec fn comparable(t: u32) -> bool {
    is_integer_oid(t) || is_float_oid(t) || is_temporal_oid(t) || t == BOOLOID
}

/// Whether the scan can compare a column of type `t` with a constant by `op`.
pub open spec fn comparable_by(op: OpName, t: u32, var_on_left: bool) -> bool {
    if is_pattern(op) {
        var_on_left && is_string_oid(t)
    } else if (t == TEXTOID || t == VARCHAROID) && is_equality(op) {
        var_on_left
    } else {
        comparable(t)
    }
}

/// Whether the scan can check a comparison of a column, or of an extracted
/// chain, with a constant.
pub open spec fn pushable_comparison(op: OpName, l: Expr, r: Expr, ctx: Option<AggChainCtx>) -> bool {
    &&& is_pattern(op) || is_equality(op) || is_order(op)
    &&& match (side_type(ctx, l), r.head, side_type(ctx, r), l.head) {
        (Some(t), Head::Const(c), _, _) => !c.constisnull && comparable_by(op, t, true),
        (_, _, Some(t), Head::Const(c)) => !c.constisnull && comparable_by(op, t, false),
        _ => false,
    }
}

pub open spec fn is_bool_var(e: Expr) -> bool {
    e.head matches Head::Var(v) && v.vartype == BOOLOID
}

/// Whether the scan can check a condition.
pub open spec fn pushable(e: Expr, ctx: Option<AggChainCtx>) -> bool {
    match e.head {
        Head::OpExpr(op) => e.args.len() == 2 && pushable_comparison(
            op.name,
            unrelabel(e.args[0]),
            unrelabel(e.args[1]),
            ctx,
        ),
        Head::Var(v) => v.vartype == BOOLOID,
        Head::BoolExpr(op) => match op {
            BoolOp::And => true,
            BoolOp::Not => e.args.len() == 1 && is_bool_var(e.args[0]),
            BoolOp::Or => false,
        },
        Head::ScalarArrayOpExpr(any) => any && e.args.len() == 2 && (match e.args[1].head {
            Head::Const(c) => !c.constisnull,
            _ => false,
        }) && match side_type(ctx, unrelabel(e.args[0])) {
            Some(t) => is_integer_oid(t) || is_temporal_oid(t) || is_string_oid(t),
            None => false,
        },
        _ => false,
    }
}

fn pushable_const(op: OpName, c: &Const, t: u32, var_on_left: bool) -> (r: bool)
    ensures
        r == (!c.constisnull && comparable_by(op, t, var_on_left)),
{
    if c.constisnull {
        false
    } else if op == OpName::Like || op == OpName::NotLike {
        var_on_left && is_string_type(t)
    } else if (t == TEXTOID || t == VARCHAROID) && (op == OpName::Eq || op == OpName::Ne || op
        == OpName::BangEq) {
        var_on_left
    } else {
        is_integer_type(t) || is_float_type(t) || is_temporal_type(t) || t == BOOLOID
    }
}

/// Whether the scan can check a condition.
pub fn is_pushable(node: &Node, ctx: &Option<AggChainCtx>) -> (r: bool)
    requires
        *ctx matches Some(c) ==> c.wf(),
    ensures
        r == pushable(node.view(), *ctx),
{
    broadcast use group_node;

    let ghost e = node.view();
    match &node.head {
        Head::OpExpr(op) => {
            let name = op.name;
            let known = name == OpName::Like || name == OpName::NotLike || name == OpName::Eq
                || name == OpName::Ne || name == OpName::BangEq || name == OpName::Lt || name
                == OpName::Le || name == OpName::Gt || name == OpName::Ge;
            if !known || node.args.len() != 2 {
                return false;
            }
            let l = match unwrap_relabel(&node.args[0]) {
                Some(n) => n,
                None => {
                    assert(side_type(*ctx, null_expr()) is None);
                    return false;
                },
            };
            let r = match unwrap_relabel(&node.args[1]) {
                Some(n) => n,
                None => {
                    assert(side_type(*ctx, null_expr()) is None);
                    return false;
                },
            };
            if let Head::Const(c) = &r.head {
                if let Some(t) = type_of_side(ctx, l) {
                    return pushable_const(name, c, t, true);
                }
            }
            if let Head::Const(c) = &l.head {
                if let Some(t) = type_of_side(ctx, r) {
                    return pushable_const(name, c, t, false);
                }
            }
            false
        },
        Head::Var(v) => v.vartype == BOOLOID,
        Head::BoolExpr(op) => match op {
            BoolOp::And => true,
            BoolOp::Not => {
                if node.args.len() != 1 {
                    return false;
                }
                match &node.args[0].head {
                    Head::Var(v) => v.vartype == BOOLOID,
                    _ => false,
                }
            },
            BoolOp::Or => false,
        },
        Head::ScalarArrayOpExpr(any) => {
            if !*any || node.args.len() != 2 {
                return false;
            }
            let given = match &node.args[1].head {
                Head::Const(c) => !c.constisnull,
                _ => false,
            };
            if !given {
                return false;
            }
            let t = match unwrap_relabel(&node.args[0]) {
                Some(n) => type_of_side(ctx, n),
                None => {
                    assert(side_type(*ctx, null_expr()) is None);
                    None
                },
            };
            match t {
                Some(t) => is_integer_type(t) || is_temporal_type(t) || is_string_type(t),
                None => false,
            }
        },
        _ => false,
    }
}

/// Whether the scan can check all conditions.
pub fn all_pushable(quals: &Vec<Node>, ctx: &Option<AggChainCtx>) -> (r: bool)
    requires
        *ctx matches Some(c) ==> c.wf(),
    ensures
        r == forall|i: int|
            0 <= i < quals@.len() ==> pushable(#[trigger] exprs(quals@)[i], *ctx),
{
    broadcast use group_node;

    let mut i: usize = 0;
    while i < quals.len()
        invariant
            i <= quals.len(),
            *ctx matches Some(c) ==> c.wf(),
            forall|j: int| 0 <= j < i ==> pushable(#[trigger] exprs(quals@)[j], *ctx),
        decreases quals.len() - i,
    {
        assert(exprs(quals@)[i as int] == quals@[i as int].view());
        if !is_pushable(&quals[i], ctx) {
            return false;
        }
        i += 1;
    }
    true
}

// ---------------------------------------------------------------------------
// GROUP BY
// ---------------------------------------------------------------------------

/// Microseconds of a unit of `date_trunc` that is a fixed part of a day.
pub open spec fn trunc_usecs(u: Seq<char>) -> Option<i64> {
    if u == "microsecond"@ || u == "microseconds"@ || u == "us"@ {
        Some(1i64)
    } else if u == "millisecond"@ || u == "milliseconds"@ || u == "ms"@ {
        Some(1_000i64)
    } else if u == "second"@ || u == "seconds"@ {
        Some(1_000_000i64)
    } else if u == "minute"@ || u == "minutes"@ {
        Some(60_000_000i64)
    } else if u == "hour"@ || u == "hours"@ {
        Some(3_600_000_000i64)
    } else if u == "day"@ || u == "days"@ {
        Some(86_400_000_000i64)
    } else {
        None
    }
}

/// Microseconds of a unit of `date_trunc`; none for a unit of varying length.
pub fn date_trunc_unit_usecs(u: &str) -> (r: Option<i64>)
    ensures
        r == trunc_usecs(u@),
{
    if text_is(u, "microsecond") || text_is(u, "microseconds") || text_is(u, "us") {
        Some(1)
    } else if text_is(u, "millisecond") || text_is(u, "milliseconds") || text_is(u, "ms") {
        Some(1_000)
    } else if text_is(u, "second") || text_is(u, "seconds") {
        Some(1_000_000)
    } else if text_is(u, "minute") || text_is(u, "minutes") {
        Some(60_000_000)
    } else if text_is(u, "hour") || text_is(u, "hours") {
        Some(3_600_000_000)
    } else if text_is(u, "day") || text_is(u, "days") {
        Some(86_400_000_000)
    } else {
        None
    }
}

/// Units of `extract` below a day.
pub open spec fn clock_unit(u: Seq<char>) -> bool {
    u == "microsecond"@ || u == "microseconds"@ || u == "millisecond"@ || u == "milliseconds"@ || u
        == "second"@ || u == "seconds"@ || u == "minute"@ || u == "minutes"@ || u == "hour"@ || u
        == "hours"@
}

/// Units of `extract` that the scan computes; from a divided number only those
/// below a day.
pub open spec fn extract_unit(u: Seq<char>, divided: bool) -> bool {
    clock_unit(u) || (!divided && (u == "dow"@ || u == "epoch"@))
}

/// Whether the scan computes a unit of `extract`.
pub fn is_extract_unit(u: &str, divided: bool) -> (r: bool)
    ensures
        r == extract_unit(u@, divided),
{
    text_is(u, "microsecond") || text_is(u, "microseconds") || text_is(u, "millisecond") || text_is(
        u,
        "milliseconds",
    ) || text_is(u, "second") || text_is(u, "seconds") || text_is(u, "minute") || text_is(
        u,
        "minutes",
    ) || text_is(u, "hour") || text_is(u, "hours") || (!divided && (text_is(u, "dow") || text_is(
        u,
        "epoch",
    )))
}

/// The characters of a text constant that is not null.
pub open spec fn text_of(e: Expr) -> Option<Seq<char>> {
    match e.head {
        Head::Const(c) => if c.constisnull {
            None
        } else {
            match c.payload {
                Payload::Text(s) => Some(s@),
                _ => None,
            }
        },
        _ => None,
    }
}

fn const_text(node: &Node) -> (r: Option<&String>)
    ensures
        match r {
            Some(s) => text_of(node.view()) == Some(s@),
            None => text_of(node.view()) is None,
        },
{
    broadcast use group_node;

    match &node.head {
        Head::Const(c) => {
            if c.constisnull {
                return None;
            }
            match &c.payload {
                Payload::Text(s) => Some(s),
                _ => None,
            }
        },
        _ => None,
    }
}

/// Below one cast: the argument of a function with one, or of a relabelling.
pub open spec fn under_cast(e: Expr) -> Expr {
    match e.head {
        Head::FuncExpr(_) => if e.args.len() == 1 {
            e.args[0]
        } else {
            e
        },
        _ => unrelabel(e),
    }
}

fn strip_cast(node: &Node) -> (r: Option<&Node>)
    ensures
        match r {
            Some(n) => n.view() == under_cast(node.view()),
            None => under_cast(node.view()) == null_expr(),
        },
{
    broadcast use group_node;

    match &node.head {
        Head::FuncExpr(_) => if node.args.len() == 1 {
            Some(&node.args[0])
        } else {
            Some(node)
        },
        _ => unwrap_relabel(node),
    }
}

/// The operator expression in `to_timestamp(a / b)`, under a cast of the number.
pub open spec fn timestamp_operand(e: Expr) -> Option<Expr> {
    match e.head {
        Head::FuncExpr(f) => if f.name == FuncName::ToTimestamp && e.args.len() == 1 {
            let inner = under_cast(e.args[0]);
            if inner.head is OpExpr && inner.args.len() == 2 {
                Some(inner)
            } else {
                None
            }
        } else {
            None
        },
        _ => None,
    }
}

fn match_timestamp_operand(node: &Node) -> (r: Option<&Node>)
    ensures
        match r {
            Some(n) => timestamp_operand(node.view()) == Some(n.view()) && n.args.len() == 2,
            None => timestamp_operand(node.view()) is None,
        },
{
    broadcast use group_node;

    match &node.head {
        Head::FuncExpr(f) => {
            if f.name != FuncName::ToTimestamp || node.args.len() != 1 {
                return None;
            }
            match strip_cast(&node.args[0]) {
                Some(n) => {
                    if matches!(n.head, Head::OpExpr(_)) && n.args.len() == 2 {
                        Some(n)
                    } else {
                        None
                    }
                },
                None => None,
            }
        },
        _ => None,
    }
}

/// A positive integer constant.
pub open spec fn positive_int(e: Expr) -> Option<i64> {
    match e.head {
        Head::Const(c) => if !c.constisnull && int_value(c) > 0 {
            Some(int_value(c))
        } else {
            None
        },
        _ => None,
    }
}

/// What `extract` is taken of: its column, the divisor of the column (0 for a
/// timestamp column), and the relation of a physical column.
#[derive(Clone, Copy, Debug, PartialEq, Eq, Structural)]
pub struct ExtractSource {
    pub col_idx: i32,
    pub divisor: i64,
    pub relid: u32,
}

/// A timestamp column, or `to_timestamp` of a `bigint` column or extracted
/// chain divided by a positive integer.
pub open spec fn extract_source(e: Expr, rels: QueryRels, ctx: Option<AggChainCtx>) -> Option<
    ExtractSource,
> {
    match e.head {
        Head::Var(v) => match rels.column(v) {
            Some((relid, t)) => if t == TIMESTAMPOID || t == TIMESTAMPTZOID {
                Some(ExtractSource { col_idx: col_of(v), divisor: 0, relid })
            } else {
                None
            },
            None => None,
        },
        _ => match timestamp_operand(e) {
            Some(q) => match (q.head, positive_int(q.args[1])) {
                (Head::OpExpr(op), Some(divisor)) => if op.name == OpName::Slash {
                    match q.args[0].head {
                        Head::Var(v) => match rels.column(v) {
                            Some((relid, t)) => if t == INT8OID {
                                Some(ExtractSource { col_idx: col_of(v), divisor, relid })
                            } else {
                                None
                            },
                            None => None,
                        },
                        _ => match served(ctx, q.args[0]) {
                            Some((col, t)) => if t == INT8OID {
                                Some(
                                    ExtractSource { col_idx: col, divisor, relid: INVALID_OID },
                                )
                            } else {
                                None
                            },
                            None => None,
                        },
                    }
                } else {
                    None
                },
                _ => None,
            },
            None => None,
        },
    }
}

fn find_extract_source(node: &Node, rels: &QueryRels, ctx: &Option<AggChainCtx>) -> (r: Option<
    ExtractSource,
>)
    requires
        *ctx matches Some(c) ==> c.wf(),
    ensures
        r == extract_source(node.view(), *rels, *ctx),
{
    broadcast use group_node;

    if let Head::Var(v) = &node.head {
        return match rels.lookup(*v) {
            Some((relid, t)) => if t == TIMESTAMPOID || t == TIMESTAMPTZOID {
                Some(ExtractSource { col_idx: v.varattno as i32 - 1, divisor: 0, relid })
            } else {
                None
            },
            None => None,
        };
    }
    let q = match match_timestamp_operand(node) {
        Some(q) => q,
        None => {
            return None;
        },
    };
    let divide = match &q.head {
        Head::OpExpr(op) => op.name == OpName::Slash,
        _ => false,
    };
    let divisor: i64 = match &q.args[1].head {
        Head::Const(c) => if c.constisnull {
            0
        } else {
            const_int_value(c)
        },
        _ => 0,
    };
    if !divide || divisor <= 0 {
        return None;
    }
    match &q.args[0].head {
        Head::Var(v) => match rels.lookup(*v) {
            Some((relid, t)) => if t == INT8OID {
                Some(ExtractSource { col_idx: v.varattno as i32 - 1, divisor, relid })
            } else {
                None
            },
            None => None,
        },
        _ => match serve(ctx, &q.args[0]) {
            Some((col, t)) => if t == INT8OID {
                Some(ExtractSource { col_idx: col, divisor, relid: INVALID_OID })
            } else {
                None
            },
            None => None,
        },
    }
}

/// A grouping, and the relation of its physical column where that is recorded.
pub struct GroupStep {
    pub group: Group,
    pub relid: u32,
}

/// A grouping by a function call.
pub open spec fn func_group(e: Expr, f: FuncInfo, rels: QueryRels, ctx: Option<AggChainCtx>) -> Option<
    GroupStep,
> {
    if f.name == FuncName::RegexpReplace {
        if e.args.len() == 3 {
            match (e.args[0].head, text_of(e.args[1]), text_of(e.args[2])) {
                (Head::Var(v), Some(pattern), Some(replacement)) => Some(
                    GroupStep {
                        group: Group {
                            col_idx: col_of(v),
                            type_oid: TEXTOID,
                            expr: GroupExpr::RegexpReplace {
                                pattern: encode_utf8(pattern),
                                replacement: encode_utf8(replacement),
                                func_oid: f.funcid,
                                collation: f.inputcollid,
                            },
                        },
                        relid: INVALID_OID,
                    },
                ),
                _ => None,
            }
        } else {
            None
        }
    } else if f.name == FuncName::DateTrunc {
        if e.args.len() == 2 {
            match (text_of(e.args[0]), e.args[1].head) {
                (Some(unit), Head::Var(v)) => match (rels.column(v), trunc_usecs(unit)) {
                    (Some((_, t)), Some(_)) => if t == TIMESTAMPOID || t == TIMESTAMPTZOID {
                        Some(
                            GroupStep {
                                group: Group {
                                    col_idx: col_of(v),
                                    type_oid: t,
                                    expr: GroupExpr::DateTrunc {
                                        unit: encode_utf8(unit),
                                        func_oid: f.funcid,
                                    },
                                },
                                relid: INVALID_OID,
                            },
                        )
                    } else {
                        None
                    },
                    _ => None,
                },
                _ => None,
            }
        } else {
            None
        }
    } else if f.name == FuncName::Extract {
        if e.args.len() == 2 {
            match (text_of(e.args[0]), extract_source(e.args[1], rels, ctx)) {
                (Some(unit), Some(src)) => if extract_unit(unit, src.divisor != 0) {
                    Some(
                        GroupStep {
                            group: Group {
                                col_idx: src.col_idx,
                                type_oid: NUMERICOID,
                                expr: GroupExpr::Extract {
                                    unit: encode_utf8(unit),
                                    func_oid: f.funcid,
                                    divisor: src.divisor,
                                },
                            },
                            relid: src.relid,
                        },
                    )
                } else {
                    None
                },
                _ => None,
            }
        } else {
            None
        }
    } else {
        None
    }
}

/// `column + n`, `n + column` or `column - n`: the column and the signed number.
pub open spec fn shift_operands(op: OpName, args: Seq<Expr>) -> Option<(Var, i64)> {
    if args.len() == 2 && (op == OpName::Plus || op == OpName::Minus) {
        match (args[0].head, args[1].head) {
            (Head::Var(v), Head::Const(c)) => if c.constisnull || !is_int_const(c) {
                None
            } else if op == OpName::Minus {
                Some((v, 0i64.wrapping_sub(int_value(c))))
            } else {
                Some((v, int_value(c)))
            },
            (Head::Const(c), Head::Var(v)) => if op == OpName::Minus || c.constisnull
                || !is_int_const(c) {
                None
            } else {
                Some((v, int_value(c)))
            },
            _ => None,
        }
    } else {
        None
    }
}

/// A grouping by a shifted column.
pub open spec fn shift_group(e: Expr, op: OpInfo, rels: QueryRels) -> Option<GroupStep> {
    match shift_operands(op.name, e.args) {
        Some((v, n)) => match rels.column(v) {
            Some((relid, t)) => if fits_i32(n as int) {
                Some(
                    GroupStep {
                        group: Group {
                            col_idx: col_of(v),
                            type_oid: t,
                            expr: GroupExpr::AddConst { offset: n as i32, op_oid: op.opno },
                        },
                        relid,
                    },
                )
            } else {
                None
            },
            None => None,
        },
        None => None,
    }
}

/// A grouping by `e`, as the scan computes it; none where it cannot.
pub open spec fn group_step(e: Expr, rels: QueryRels, ctx: Option<AggChainCtx>) -> Option<GroupStep> {
    match served(ctx, e) {
        Some((col, t)) => Some(
            GroupStep {
                group: Group { col_idx: col, type_oid: t, expr: GroupExpr::Column },
                relid: INVALID_OID,
            },
        ),
        None => match e.head {
            Head::Var(v) => match rels.column(v) {
                Some((relid, t)) => Some(
                    GroupStep {
                        group: Group { col_idx: col_of(v), type_oid: t, expr: GroupExpr::Column },
                        relid,
                    },
                ),
                None => None,
            },
            Head::FuncExpr(f) => func_group(e, f, rels, ctx),
            Head::OpExpr(op) => shift_group(e, op, rels),
            Head::CaseExpr => match case_spec(e, rels) {
                Some(c) => Some(
                    GroupStep {
                        group: Group {
                            col_idx: -1i32,
                            type_oid: TEXTOID,
                            expr: GroupExpr::CaseWhen(c),
                        },
                        relid: INVALID_OID,
                    },
                ),
                None => None,
            },
            _ => None,
        },
    }
}

proof fn lemma_case_texts(s: Seq<Expr>, rels: QueryRels, n: int)
    requires
        case_clauses_of(s, rels, n) is Some,
    ensures
        forall|i: int|
            0 <= i < case_clauses_of(s, rels, n)->0.len() ==> case_value_is_text(
                (#[trigger] case_clauses_of(s, rels, n)->0[i]).result,
            ),
    decreases n,
{
    if n > 0 {
        lemma_case_texts(s, rels, n - 1);
        lemma_case_result_text(s[n - 1].args[1], rels);
    }
}

proof fn lemma_case_result_text(e: Expr, rels: QueryRels)
    ensures
        case_result(e, rels) matches Some(v) ==> case_value_is_text(v),
{
    broadcast use vstd::utf8::encode_utf8_valid_utf8;

    assert(valid_utf8(Seq::<u8>::empty()));
}

/// The strings in a grouping of a query are UTF-8.
pub proof fn lemma_grouping_is_text(e: Expr, rels: QueryRels, ctx: Option<AggChainCtx>)
    ensures
        group_step(e, rels, ctx) matches Some(s) ==> group_is_text(s.group),
{
    broadcast use vstd::utf8::encode_utf8_valid_utf8;

    assert(valid_utf8(Seq::<u8>::empty()));
    if e.head is CaseExpr && case_spec(e, rels) is Some {
        lemma_case_texts(e.args, rels, e.args.len() as int);
        match e.aux {
            Some(b) => lemma_case_result_text(*b, rels),
            None => {},
        }
    }
}

/// Whether `e` is a constant, which groups nothing.
pub open spec fn groups_nothing(e: Expr, ctx: Option<AggChainCtx>) -> bool {
    served(ctx, e) is None && e.head is Const
}

/// The groupings of a query and the relation of the first physical column.
pub struct Groupings {
    pub groups: Seq<Group>,
    pub relid: u32,
}

/// The first `n` groupings of a query.
pub open spec fn groupings(
    s: Seq<Expr>,
    rels: QueryRels,
    ctx: Option<AggChainCtx>,
    n: int,
) -> Option<Groupings>
    decreases n,
{
    if n <= 0 {
        Some(Groupings { groups: Seq::empty(), relid: INVALID_OID })
    } else {
        match groupings(s, rels, ctx, n - 1) {
            Some(g) => if groups_nothing(s[n - 1], ctx) {
                Some(g)
            } else {
                match group_step(s[n - 1], rels, ctx) {
                    Some(step) => Some(
                        Groupings {
                            groups: g.groups.push(step.group),
                            relid: if g.relid == INVALID_OID {
                                step.relid
                            } else {
                                g.relid
                            },
                        },
                    ),
                    None => None,
                }
            },
            None => None,
        }
    }
}

proof fn lemma_groupings_none(
    s: Seq<Expr>,
    rels: QueryRels,
    ctx: Option<AggChainCtx>,
    k: int,
    n: int,
)
    requires
        k <= n,
        groupings(s, rels, ctx, k) is None,
    ensures
        groupings(s, rels, ctx, n) is None,
    decreases n,
{
    if k < n {
        lemma_groupings_none(s, rels, ctx, k, n - 1);
    }
}

fn parse_func_group(node: &Node, f: FuncInfo, rels: &QueryRels, ctx: &Option<AggChainCtx>) -> (r:
    Option<(GroupByColSpec, u32)>)
    requires
        *ctx matches Some(c) ==> c.wf(),
    ensures
        match r {
            Some((g, relid)) => func_group(node.view(), f, *rels, *ctx) == Some(
                GroupStep { group: g.view(), relid },
            ),
            None => func_group(node.view(), f, *rels, *ctx) is None,
        },
{
    broadcast use group_node;

    if f.name == FuncName::RegexpReplace {
        if node.args.len() != 3 {
            return None;
        }
        let v = match &node.args[0].head {
            Head::Var(v) => *v,
            _ => {
                return None;
            },
        };
        let pattern = match const_text(&node.args[1]) {
            Some(s) => s,
            None => {
                return None;
            },
        };
        let replacement = match const_text(&node.args[2]) {
            Some(s) => s,
            None => {
                return None;
            },
        };
        Some(
            (
                GroupByColSpec {
                    col_idx: v.varattno as i32 - 1,
                    type_oid: TEXTOID,
                    expr: GroupByExpr::RegexpReplace {
                        pattern: pattern.as_str().as_bytes_vec(),
                        replacement: replacement.as_str().as_bytes_vec(),
                        func_oid: f.funcid,
                        collation: f.inputcollid,
                    },
                },
                INVALID_OID,
            ),
        )
    } else if f.name == FuncName::DateTrunc {
        if node.args.len() != 2 {
            return None;
        }
        let unit = match const_text(&node.args[0]) {
            Some(s) => s,
            None => {
                return None;
            },
        };
        let v = match &node.args[1].head {
            Head::Var(v) => *v,
            _ => {
                return None;
            },
        };
        let t: u32 = match rels.lookup(v) {
            Some((_, t)) => t,
            None => {
                return None;
            },
        };
        if (t != TIMESTAMPOID && t != TIMESTAMPTZOID) || date_trunc_unit_usecs(
            unit.as_str(),
        ).is_none() {
            return None;
        }
        Some(
            (
                GroupByColSpec {
                    col_idx: v.varattno as i32 - 1,
                    type_oid: t,
                    expr: GroupByExpr::DateTrunc {
                        unit: unit.as_str().as_bytes_vec(),
                        func_oid: f.funcid,
                    },
                },
                INVALID_OID,
            ),
        )
    } else if f.name == FuncName::Extract {
        if node.args.len() != 2 {
            return None;
        }
        let unit = match const_text(&node.args[0]) {
            Some(s) => s,
            None => {
                return None;
            },
        };
        let src = match find_extract_source(&node.args[1], rels, ctx) {
            Some(s) => s,
            None => {
                return None;
            },
        };
        if !is_extract_unit(unit.as_str(), src.divisor != 0) {
            return None;
        }
        Some(
            (
                GroupByColSpec {
                    col_idx: src.col_idx,
                    type_oid: NUMERICOID,
                    expr: GroupByExpr::Extract {
                        unit: unit.as_str().as_bytes_vec(),
                        func_oid: f.funcid,
                        divisor: src.divisor,
                    },
                },
                src.relid,
            ),
        )
    } else {
        None
    }
}

fn parse_shift_group(node: &Node, op: OpInfo, rels: &QueryRels) -> (r: Option<(GroupByColSpec, u32)>)
    ensures
        match r {
            Some((g, relid)) => shift_group(node.view(), op, *rels) == Some(
                GroupStep { group: g.view(), relid },
            ),
            None => shift_group(node.view(), op, *rels) is None,
        },
{
    broadcast use group_node;

    if node.args.len() != 2 || (op.name != OpName::Plus && op.name != OpName::Minus) {
        return None;
    }
    let (v, n): (Var, i64) = match (&node.args[0].head, &node.args[1].head) {
        (Head::Var(v), Head::Const(c)) => {
            if c.constisnull || !is_integer_type(c.consttype) {
                return None;
            }
            if op.name == OpName::Minus {
                (*v, 0i64.wrapping_sub(const_int_value(c)))
            } else {
                (*v, const_int_value(c))
            }
        },
        (Head::Const(c), Head::Var(v)) => {
            if op.name == OpName::Minus || c.constisnull || !is_integer_type(c.consttype) {
                return None;
            }
            (*v, const_int_value(c))
        },
        _ => {
            return None;
        },
    };
    assert(shift_operands(op.name, node.view().args) == Some((v, n)));
    if n < i32::MIN as i64 || n > i32::MAX as i64 {
        return None;
    }
    match rels.lookup(v) {
        Some((relid, t)) => Some(
            (
                GroupByColSpec {
                    col_idx: v.varattno as i32 - 1,
                    type_oid: t,
                    expr: GroupByExpr::AddConst { offset: n as i32, op_oid: op.opno },
                },
                relid,
            ),
        ),
        None => None,
    }
}

/// A grouping as the scan computes it, and the relation of its physical column.
pub fn parse_group_expr(node: &Node, rels: &QueryRels, ctx: &Option<AggChainCtx>) -> (r: Option<
    (GroupByColSpec, u32),
>)
    requires
        *ctx matches Some(c) ==> c.wf(),
    ensures
        match r {
            Some((g, relid)) => group_step(node.view(), *rels, *ctx) == Some(
                GroupStep { group: g.view(), relid },
            ),
            None => group_step(node.view(), *rels, *ctx) is None,
        },
{
    broadcast use group_node;

    if let Some((col, t)) = serve(ctx, node) {
        return Some(
            (GroupByColSpec { col_idx: col, type_oid: t, expr: GroupByExpr::Column }, INVALID_OID),
        );
    }
    match &node.head {
        Head::Var(v) => match rels.lookup(*v) {
            Some((relid, t)) => Some(
                (
                    GroupByColSpec {
                        col_idx: v.varattno as i32 - 1,
                        type_oid: t,
                        expr: GroupByExpr::Column,
                    },
                    relid,
                ),
            ),
            None => None,
        },
        Head::FuncExpr(f) => parse_func_group(node, *f, rels, ctx),
        Head::OpExpr(op) => parse_shift_group(node, *op, rels),
        Head::CaseExpr => match parse_case_expr(node, rels) {
            Some(c) => Some(
                (
                    GroupByColSpec {
                        col_idx: -1,
                        type_oid: TEXTOID,
                        expr: GroupByExpr::CaseWhen(c),
                    },
                    INVALID_OID,
                ),
            ),
            None => None,
        },
        _ => None,
    }
}

/// The groupings of a query, and the relation of the first physical column
/// among them; none where the scan cannot compute one.
pub fn parse_group_by(group_exprs: &Vec<Node>, rels: &QueryRels, ctx: &Option<AggChainCtx>) -> (r:
    Option<(Vec<GroupByColSpec>, u32)>)
    requires
        *ctx matches Some(c) ==> c.wf(),
    ensures
        match r {
            Some((v, relid)) => groupings(
                exprs(group_exprs@),
                *rels,
                *ctx,
                group_exprs@.len() as int,
            ) == Some(Groupings { groups: groups_view(v@), relid }),
            None => groupings(exprs(group_exprs@), *rels, *ctx, group_exprs@.len() as int) is None,
        },
{
    broadcast use group_node;

    let ghost es = exprs(group_exprs@);
    let mut out: Vec<GroupByColSpec> = Vec::new();
    let mut relid: u32 = INVALID_OID;
    let mut i: usize = 0;
    assert(groups_view(out@) =~= Seq::<Group>::empty());
    while i < group_exprs.len()
        invariant
            i <= group_exprs.len(),
            es == exprs(group_exprs@),
            *ctx matches Some(c) ==> c.wf(),
            groupings(es, *rels, *ctx, i as int) == Some(
                Groupings { groups: groups_view(out@), relid },
            ),
        decreases group_exprs.len() - i,
    {
        let node = &group_exprs[i];
        assert(es[i as int] == node.view());
        if matches!(node.head, Head::Const(_)) && serve(ctx, node).is_none() {
            i += 1;
            continue ;
        }
        match parse_group_expr(node, rels, ctx) {
            Some((g, rel)) => {
                let ghost before = out@;
                out.push(g);
                assert(groups_view(out@) =~= groups_view(before).push(g.view()));
                if relid == INVALID_OID {
                    relid = rel;
                }
            },
            None => {
                proof {
                    lemma_groupings_none(es, *rels, *ctx, i + 1, es.len() as int);
                }
                return None;
            },
        }
        i += 1;
    }
    Some((out, relid))
}

// ---------------------------------------------------------------------------
// Output columns that have to match a grouping
// ---------------------------------------------------------------------------

pub open spec fn some_group(groups: Seq<Group>, p: spec_fn(Group) -> bool) -> bool {
    first_where(groups, p) is Some
}

/// Column that a function in the target list is of: its first argument that is
/// a column, or the dividend in `extract(.. from to_timestamp(a / b))`; else a
/// negative number.
pub open spec fn func_column(args: Seq<Expr>, ctx: Option<AggChainCtx>) -> i32 {
    let col = first_var_col(args);
    if col < 0 && args.len() == 2 {
        match timestamp_operand(args[1]) {
            Some(q) => match q.args[0].head {
                Head::Var(v) => col_of(v),
                _ => match served(ctx, q.args[0]) {
                    Some((c, _)) => c,
                    None => col,
                },
            },
            None => col,
        }
    } else {
        col
    }
}

/// Whether a function in the target list matches a grouping.
pub open spec fn func_matches(e: Expr, groups: Seq<Group>, ctx: Option<AggChainCtx>) -> bool {
    match e.head {
        Head::FuncExpr(f) => {
            let col = func_column(e.args, ctx);
            col >= 0 && some_group(groups, key_pred(GroupKey::Func { col, funcid: f.funcid }))
        },
        _ => false,
    }
}

/// Whether a grouping is by column `col` shifted with the operator `opno`.
pub open spec fn is_op_group(g: Group, col: i32, opno: u32) -> bool {
    g.col_idx == col && (g.expr matches GroupExpr::AddConst { offset, op_oid } && op_oid == opno)
}

/// Whether an operator expression in the target list can be put out: it is
/// computed from aggregates, or it matches a grouping by an extracted or a
/// shifted column.
pub open spec fn op_matches(e: Expr, groups: Seq<Group>, ctx: Option<AggChainCtx>) -> bool {
    only_aggs(e) || match served(ctx, e) {
        Some((col, _)) => some_group(groups, key_pred(GroupKey::BareColumn(col))),
        None => match e.head {
            Head::OpExpr(op) => {
                let col = first_var_col(e.args);
                e.args.len() == 2 && col >= 0 && exists|i: int|
                    0 <= i < groups.len() && is_op_group(#[trigger] groups[i], col, op.opno)
            },
            _ => false,
        },
    }
}

fn find_func_column(args: &Vec<Node>, ctx: &Option<AggChainCtx>) -> (r: i32)
    requires
        *ctx matches Some(c) ==> c.wf(),
    ensures
        r == func_column(exprs(args@), *ctx),
{
    broadcast use group_node;

    let col: i32 = first_var_arg(args);
    if col >= 0 || args.len() != 2 {
        return col;
    }
    assert(exprs(args@)[1] == args@[1].view());
    match match_timestamp_operand(&args[1]) {
        Some(q) => {
            assert(q.view().args[0] == q.args@[0].view());
            match &q.args[0].head {
                Head::Var(v) => v.varattno as i32 - 1,
                _ => match serve(ctx, &q.args[0]) {
                    Some((c, _)) => c,
                    None => col,
                },
            }
        },
        None => col,
    }
}

/// Whether a function in the target list matches a grouping.
pub fn func_expr_matches(node: &Node, groups: &Vec<GroupByColSpec>, ctx: &Option<AggChainCtx>) -> (r:
    bool)
    requires
        *ctx matches Some(c) ==> c.wf(),
    ensures
        r == func_matches(node.view(), groups_view(groups@), *ctx),
{
    broadcast use group_node;

    let f = match &node.head {
        Head::FuncExpr(f) => *f,
        _ => {
            return false;
        },
    };
    let col: i32 = find_func_column(&node.args, ctx);
    col >= 0 && find_group(groups, GroupKey::Func { col, funcid: f.funcid }).is_some()
}

/// Whether an operator expression in the target list can be put out.
pub fn op_expr_matches(node: &Node, groups: &Vec<GroupByColSpec>, ctx: &Option<AggChainCtx>) -> (r:
    bool)
    requires
        *ctx matches Some(c) ==> c.wf(),
    ensures
        r == op_matches(node.view(), groups_view(groups@), *ctx),
{
    broadcast use group_node;

    if expr_only_uses_aggrefs_and_consts(node) {
        return true;
    }
    if let Some((col, _)) = serve(ctx, node) {
        return find_group(groups, GroupKey::BareColumn(col)).is_some();
    }
    let op = match &node.head {
        Head::OpExpr(op) => *op,
        _ => {
            return false;
        },
    };
    let col: i32 = first_var_arg(&node.args);
    if node.args.len() != 2 || col < 0 {
        return false;
    }
    let ghost gs = groups_view(groups@);
    let mut i: usize = 0;
    while i < groups.len()
        invariant
            i <= groups.len(),
            gs == groups_view(groups@),
            forall|j: int| 0 <= j < i ==> !is_op_group(#[trigger] gs[j], col, op.opno),
            node.view().head == Head::OpExpr(op),
            node.view().args.len() == 2,
            col == first_var_col(node.view().args),
            col >= 0,
            !only_aggs(node.view()),
            served(*ctx, node.view()) is None,
        decreases groups.len() - i,
    {
        assert(gs[i as int] == groups@[i as int].view());
        let hit = groups[i].col_idx == col && match &groups[i].expr {
            GroupByExpr::AddConst { op_oid, .. } => *op_oid == op.opno,
            _ => false,
        };
        if hit {
            assert(is_op_group(gs[i as int], col, op.opno));
            return true;
        }
        i += 1;
    }
    false
}

/// Whether every function, operator and CASE expression of a target list can be
/// put out.
pub open spec fn outputs_match(
    funcs: Seq<Expr>,
    ops: Seq<Expr>,
    has_case: bool,
    groups: Seq<Group>,
    ctx: Option<AggChainCtx>,
) -> bool {
    &&& has_case ==> some_group(groups, key_pred(GroupKey::Case))
    &&& forall|i: int| 0 <= i < funcs.len() ==> func_matches(#[trigger] funcs[i], groups, ctx)
    &&& forall|i: int| 0 <= i < ops.len() ==> op_matches(#[trigger] ops[i], groups, ctx)
}

/// Whether every function, operator and CASE expression of a target list can be
/// put out.
pub fn validate_outputs(
    funcs: &Vec<Node>,
    ops: &Vec<Node>,
    has_case: bool,
    groups: &Vec<GroupByColSpec>,
    ctx: &Option<AggChainCtx>,
) -> (r: bool)
    requires
        *ctx matches Some(c) ==> c.wf(),
    ensures
        r == outputs_match(
            exprs(funcs@),
            exprs(ops@),
            has_case,
            groups_view(groups@),
            *ctx,
        ),
{
    broadcast use group_node;

    let ghost gs = groups_view(groups@);
    if has_case && find_group(groups, GroupKey::Case).is_none() {
        return false;
    }
    let mut i: usize = 0;
    while i < funcs.len()
        invariant
            i <= funcs.len(),
            gs == groups_view(groups@),
            *ctx matches Some(c) ==> c.wf(),
            forall|j: int| 0 <= j < i ==> func_matches(#[trigger] exprs(funcs@)[j], gs, *ctx),
        decreases funcs.len() - i,
    {
        assert(exprs(funcs@)[i as int] == funcs@[i as int].view());
        if !func_expr_matches(&funcs[i], groups, ctx) {
            return false;
        }
        i += 1;
    }
    let mut k: usize = 0;
    while k < ops.len()
        invariant
            k <= ops.len(),
            gs == groups_view(groups@),
            *ctx matches Some(c) ==> c.wf(),
            forall|j: int| 0 <= j < k ==> op_matches(#[trigger] exprs(ops@)[j], gs, *ctx),
        decreases ops.len() - k,
    {
        assert(exprs(ops@)[k as int] == ops@[k as int].view());
        if !op_expr_matches(&ops[k], groups, ctx) {
            return false;
        }
        k += 1;
    }
    true
}

} // verus!
