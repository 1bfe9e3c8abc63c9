//! Recognition of the expressions that an aggregate scan can compute.

use vstd::prelude::*;
use vstd::string::*;
use vstd::utf8::encode_utf8;
use crate::pg_types::{
    is_string_oid, is_string_type, FLOAT4OID, FLOAT8OID, INT2OID, INT4OID, INT8OID, INTERVALOID,
    NUMERICOID, TIMESTAMPTZOID,
};
use crate::scan::agg_plan::{const_int_value, int_value};
use crate::scan::agg_types::{
    clauses_view, CaseClause, CaseSpec, CaseValue, CaseWhenClause, CaseWhenCondition, CaseWhenOp,
    CaseWhenSpec, CaseWhenValue,
};
use crate::scan::catalog::QueryRels;
use crate::scan::json_extract::{unwrap_relabel, AggChainCtx};
use crate::scan::node::{
    exprs, group_node, is_null, null_expr, unrelabel, BoolOp, Const, Expr, FuncName, Head, Node,
    OpInfo, OpName, Payload, Var,
};
use crate::search::{first_where, lemma_first_is, lemma_first_none};
use crate::text::text_is;

verus! {

// ---------------------------------------------------------------------------
// CASE expressions
// ---------------------------------------------------------------------------

/// `column = constant` or `column <> constant`, over integers.
pub open spec fn case_condition(e: Expr) -> Option<CaseWhenCondition> {
    match e.head {
        Head::OpExpr(op) => if (op.name == OpName::Eq || op.name == OpName::Ne) && e.args.len()
            == 2 {
            let case_op = if op.name == OpName::Eq {
                CaseWhenOp::Eq
            } else {
                CaseWhenOp::NotEq
            };
            match (unrelabel(e.args[0]).head, unrelabel(e.args[1]).head) {
                (Head::Var(v), Head::Const(c)) | (Head::Const(c), Head::Var(v)) => {
                    if !c.constisnull && is_int_const(c) && v.varattno >= 1 {
                        Some(
                            CaseWhenCondition {
                                col_idx: (v.varattno - 1) as usize,
                                op: case_op,
                                const_val: int_value(c),
                            },
                        )
                    } else {
                        None
                    }
                },
                _ => None,
            }
        } else {
            None
        },
        _ => None,
    }
}

pub open spec fn is_int_const(c: Const) -> bool {
    c.consttype == INT2OID || c.consttype == INT4OID || c.consttype == INT8OID
}

/// The conditions in a list, if all of them are such conditions.
pub open spec fn case_conditions_of(s: Seq<Expr>, n: int) -> Option<Seq<CaseWhenCondition>>
    decreases n,
{
    if n <= 0 {
        Some(Seq::empty())
    } else {
        match (case_conditions_of(s, n - 1), case_condition(s[n - 1])) {
            (Some(before), Some(c)) => Some(before.push(c)),
            _ => None,
        }
    }
}

/// The conditions of a WHEN: one, or a non-empty AND of some.
pub open spec fn when_conditions(e: Expr) -> Option<Seq<CaseWhenCondition>> {
    match e.head {
        Head::BoolExpr(op) => if op == BoolOp::And && e.args.len() > 0 {
            case_conditions_of(e.args, e.args.len() as int)
        } else {
            None
        },
        Head::OpExpr(_) => match case_condition(e) {
            Some(c) => Some(seq![c]),
            None => None,
        },
        _ => None,
    }
}

/// A result of a CASE: a string column, or a string; NULL is the empty string.
pub open spec fn case_result(e: Expr, rels: QueryRels) -> Option<CaseValue> {
    if is_null(e) {
        Some(CaseValue::StringConst(Seq::empty()))
    } else {
        match unrelabel(e).head {
            Head::Var(v) => match rels.column(v) {
                Some((_, t)) => if v.varattno >= 1 && is_string_oid(t) {
                    Some(CaseValue::ColumnRef((v.varattno - 1) as usize))
                } else {
                    None
                },
                None => None,
            },
            Head::Const(c) => if c.constisnull {
                Some(CaseValue::StringConst(Seq::empty()))
            } else if is_string_oid(c.consttype) {
                match c.payload {
                    Payload::Text(s) => Some(CaseValue::StringConst(encode_utf8(s@))),
                    _ => None,
                }
            } else {
                None
            },
            _ => None,
        }
    }
}

/// One `WHEN .. THEN ..`.
pub open spec fn case_clause(e: Expr, rels: QueryRels) -> Option<CaseClause> {
    if e.head is CaseWhen && e.args.len() == 2 {
        match (when_conditions(e.args[0]), case_result(e.args[1], rels)) {
            (Some(conditions), Some(result)) => Some(CaseClause { conditions, result }),
            _ => None,
        }
    } else {
        None
    }
}

pub open spec fn case_clauses_of(s: Seq<Expr>, rels: QueryRels, n: int) -> Option<Seq<CaseClause>>
    decreases n,
{
    if n <= 0 {
        Some(Seq::empty())
    } else {
        match (case_clauses_of(s, rels, n - 1), case_clause(s[n - 1], rels)) {
            (Some(before), Some(c)) => Some(before.push(c)),
            _ => None,
        }
    }
}

/// A searched CASE over such clauses; a missing ELSE is the empty string.
pub open spec fn case_spec(e: Expr, rels: QueryRels) -> Option<CaseSpec> {
    if e.subject is None && e.args.len() > 0 {
        let default = match e.aux {
            Some(b) => case_result(*b, rels),
            None => Some(CaseValue::StringConst(Seq::empty())),
        };
        match (case_clauses_of(e.args, rels, e.args.len() as int), default) {
            (Some(clauses), Some(default)) => Some(CaseSpec { clauses, default }),
            _ => None,
        }
    } else {
        None
    }
}

/// Recognises `column = constant` or `column <> constant`.
pub fn parse_single_condition(node: &Node) -> (r: Option<CaseWhenCondition>)
    ensures
        r == case_condition(node.view()),
{
    broadcast use group_node;

    let op = match &node.head {
        Head::OpExpr(op) => *op,
        _ => {
            return None;
        },
    };
    if (op.name != OpName::Eq && op.name != OpName::Ne) || node.args.len() != 2 {
        return None;
    }
    let case_op = if op.name == OpName::Eq {
        CaseWhenOp::Eq
    } else {
        CaseWhenOp::NotEq
    };
    let left = match unwrap_relabel(&node.args[0]) {
        Some(n) => n,
        None => {
            return None;
        },
    };
    let right = match unwrap_relabel(&node.args[1]) {
        Some(n) => n,
        None => {
            return None;
        },
    };
    match (&left.head, &right.head) {
        (Head::Var(v), Head::Const(c)) | (Head::Const(c), Head::Var(v)) => {
            if c.constisnull || (c.consttype != INT2OID && c.consttype != INT4OID && c.consttype
                != INT8OID) || v.varattno < 1 {
                return None;
            }
            Some(
                CaseWhenCondition {
                    col_idx: (v.varattno - 1) as usize,
                    op: case_op,
                    const_val: const_int_value(c),
                },
            )
        },
        _ => None,
    }
}

proof fn lemma_conditions_none(s: Seq<Expr>, k: int, n: int)
    requires
        k <= n,
        case_conditions_of(s, k) is None,
    ensures
        case_conditions_of(s, n) is None,
    decreases n,
{
    if k < n {
        lemma_conditions_none(s, k, n - 1);
    }
}

/// The conditions of a WHEN.
pub fn parse_case_when_conditions(node: &Node) -> (r: Option<Vec<CaseWhenCondition>>)
    ensures
        match r {
            Some(v) => when_conditions(node.view()) == Some(v@),
            None => when_conditions(node.view()) is None,
        },
{
    broadcast use group_node;

    let ghost e = node.view();
    match &node.head {
        Head::BoolExpr(op) => {
            if *op != BoolOp::And || node.args.len() == 0 {
                return None;
            }
            let mut out: Vec<CaseWhenCondition> = Vec::new();
            let mut i: usize = 0;
            while i < node.args.len()
                invariant
                    i <= node.args.len(),
                    e == node.view(),
                    e.args == exprs(node.args@),
                    e.head == Head::BoolExpr(BoolOp::And),
                    e.args.len() > 0,
                    case_conditions_of(e.args, i as int) == Some(out@),
                decreases node.args.len() - i,
            {
                assert(e.args[i as int] == node.args@[i as int].view());
                match parse_single_condition(&node.args[i]) {
                    Some(c) => {
                        out.push(c);
                    },
                    None => {
                        proof {
                            lemma_conditions_none(e.args, i + 1, e.args.len() as int);
                        }
                        return None;
                    },
                }
                i += 1;
            }
            Some(out)
        },
        Head::OpExpr(_) => match parse_single_condition(node) {
            Some(c) => {
                let mut out: Vec<CaseWhenCondition> = Vec::new();
                out.push(c);
                assert(out@ =~= seq![c]);
                Some(out)
            },
            None => None,
        },
        _ => None,
    }
}

/// A result of a CASE.
pub fn parse_case_when_value(node: &Node, rels: &QueryRels) -> (r: Option<CaseWhenValue>)
    ensures
        match r {
            Some(v) => case_result(node.view(), *rels) == Some(v.view()),
            None => case_result(node.view(), *rels) is None,
        },
{
    broadcast use group_node;

    if node.is_null() {
        return Some(CaseWhenValue::StringConst(Vec::new()));
    }
    let inner = match unwrap_relabel(node) {
        Some(n) => n,
        None => {
            return None;
        },
    };
    match &inner.head {
        Head::Var(v) => {
            match rels.lookup(*v) {
                Some((_, t)) => if v.varattno >= 1 && is_string_type(t) {
                    Some(CaseWhenValue::ColumnRef((v.varattno - 1) as usize))
                } else {
                    None
                },
                None => None,
            }
        },
        Head::Const(c) => {
            if c.constisnull {
                return Some(CaseWhenValue::StringConst(Vec::new()));
            }
            if !is_string_type(c.consttype) {
                return None;
            }
            match &c.payload {
                Payload::Text(s) => Some(CaseWhenValue::StringConst(s.as_str().as_bytes_vec())),
                _ => None,
            }
        },
        _ => None,
    }
}

proof fn lemma_clauses_none(s: Seq<Expr>, rels: QueryRels, k: int, n: int)
    requires
        k <= n,
        case_clauses_of(s, rels, k) is None,
    ensures
        case_clauses_of(s, rels, n) is None,
    decreases n,
{
    if k < n {
        lemma_clauses_none(s, rels, k, n - 1);
    }
}

fn parse_case_clause(node: &Node, rels: &QueryRels) -> (r: Option<CaseWhenClause>)
    ensures
        match r {
            Some(c) => case_clause(node.view(), *rels) == Some(c.view()),
            None => case_clause(node.view(), *rels) is None,
        },
{
    broadcast use group_node;

    if !matches!(node.head, Head::CaseWhen) || node.args.len() != 2 {
        return None;
    }
    let conditions = match parse_case_when_conditions(&node.args[0]) {
        Some(c) => c,
        None => {
            return None;
        },
    };
    match parse_case_when_value(&node.args[1], rels) {
        Some(result) => Some(CaseWhenClause { conditions, result }),
        None => None,
    }
}

/// Recognises a searched CASE with integer conditions and string results.
pub fn parse_case_expr(node: &Node, rels: &QueryRels) -> (r: Option<CaseWhenSpec>)
    ensures
        match r {
            Some(c) => case_spec(node.view(), *rels) == Some(c.view()),
            None => case_spec(node.view(), *rels) is None,
        },
{
    broadcast use group_node;

    let ghost e = node.view();
    if node.subject.is_some() || node.args.len() == 0 {
        return None;
    }
    let mut clauses: Vec<CaseWhenClause> = Vec::new();
    let mut i: usize = 0;
    assert(clauses_view(clauses@) =~= Seq::<CaseClause>::empty());
    while i < node.args.len()
        invariant
            i <= node.args.len(),
            e == node.view(),
            e.args == exprs(node.args@),
            case_clauses_of(e.args, *rels, i as int) == Some(clauses_view(clauses@)),
        decreases node.args.len() - i,
    {
        let ghost before = clauses@;
        assert(e.args[i as int] == node.args@[i as int].view());
        match parse_case_clause(&node.args[i], rels) {
            Some(c) => {
                clauses.push(c);
                assert(clauses_view(clauses@) =~= clauses_view(before).push(c.view()));
            },
            None => {
                proof {
                    lemma_clauses_none(e.args, *rels, i + 1, e.args.len() as int);
                }
                return None;
            },
        }
        i += 1;
    }
    let default = match &node.aux {
        Some(b) => match parse_case_when_value(b, rels) {
            Some(v) => v,
            None => {
                return None;
            },
        },
        None => CaseWhenValue::StringConst(Vec::new()),
    };
    assert(node.aux is None ==> default.view() == CaseValue::StringConst(Seq::empty()));
    Some(CaseWhenSpec { clauses, default })
}

// ---------------------------------------------------------------------------
// Timestamps shifted by an extracted number of microseconds
// ---------------------------------------------------------------------------

/// Whether an operator has the given name and result type, and operand types
/// where they are given.
pub open spec fn op_is(
    op: OpInfo,
    name: OpName,
    left: Option<u32>,
    right: Option<u32>,
    result: u32,
) -> bool {
    &&& op.name == name
    &&& op.oprresult == result
    &&& left matches Some(t) ==> op.oprleft == t
    &&& right matches Some(t) ==> op.oprright == t
}

/// Whether an operator has the given name, operand types and result type.
pub fn is_op_named(
    op: &OpInfo,
    name: OpName,
    left: Option<u32>,
    right: Option<u32>,
    result: u32,
) -> (r: bool)
    ensures
        r == op_is(*op, name, left, right, result),
{
    op.name == name && op.oprresult == result && (match left {
        Some(t) => op.oprleft == t,
        None => true,
    }) && (match right {
        Some(t) => op.oprright == t,
        None => true,
    })
}

/// OID of the function that casts `bigint` to `double precision`.
pub const FLOAT8_OF_INT8: u32 = 482;

/// Below casts of `bigint` to `double precision`.
pub open spec fn under_numeric_cast(e: Expr) -> Expr
    decreases e,
{
    match e.head {
        Head::FuncExpr(f) => if e.args.len() == 1 && f.funcid == FLOAT8_OF_INT8 {
            under_numeric_cast(e.args[0])
        } else {
            e
        },
        Head::RelabelType(_) => if e.args.len() > 0 {
            under_numeric_cast(e.args[0])
        } else {
            null_expr()
        },
        _ => e,
    }
}

/// The expression below casts of `bigint` to `double precision`.
pub fn strip_numeric_cast(node: &Node) -> (r: Option<&Node>)
    ensures
        match r {
            Some(n) => n.view() == under_numeric_cast(node.view()),
            None => under_numeric_cast(node.view()) == null_expr(),
        },
    decreases node,
{
    broadcast use group_node;

    match &node.head {
        Head::FuncExpr(f) => if node.args.len() == 1 && f.funcid == FLOAT8_OF_INT8 {
            strip_numeric_cast(&node.args[0])
        } else {
            Some(node)
        },
        Head::RelabelType(_) => if node.args.len() > 0 {
            strip_numeric_cast(&node.args[0])
        } else {
            None
        },
        _ => Some(node),
    }
}

/// Whether `e` is a constant interval.
pub open spec fn is_interval_const(e: Expr) -> bool {
    e.head matches Head::Const(c) && c.consttype == INTERVALOID
}

/// The constant and the other operand of `interval * number`, either way round.
pub open spec fn interval_product(e: Expr) -> Option<(Const, Expr)> {
    match e.head {
        Head::OpExpr(op) => if op_is(op, OpName::Star, None, None, INTERVALOID) && e.args.len() == 2
            && !is_null(e.args[0]) && !is_null(e.args[1]) {
            if is_interval_const(e.args[0]) {
                Some((e.args[0].head->Const_0, e.args[1]))
            } else if is_interval_const(e.args[1]) {
                Some((e.args[1].head->Const_0, e.args[0]))
            } else {
                None
            }
        } else {
            None
        },
        _ => None,
    }
}

/// Whether an interval is exactly one microsecond.
pub open spec fn is_one_microsecond(c: Const) -> bool {
    !c.constisnull && (c.payload matches Payload::Interval { time, day, month } && month == 0 && day
        == 0 && time == 1)
}

/// The timestamp constant and the other operand of `timestamp + interval`,
/// where the latter is an operator expression.
pub open spec fn epoch_sum(e: Expr) -> Option<(Const, Expr)> {
    match e.head {
        Head::OpExpr(op) => if op_is(
            op,
            OpName::Plus,
            Some(TIMESTAMPTZOID),
            Some(INTERVALOID),
            TIMESTAMPTZOID,
        ) && e.args.len() == 2 {
            match (e.args[0].head, e.args[1].head) {
                (Head::Const(c), Head::OpExpr(_)) => Some((c, e.args[1])),
                (Head::OpExpr(_), Head::Const(c)) => Some((c, e.args[0])),
                _ => None,
            }
        } else {
            None
        },
        _ => None,
    }
}

/// `e` as `epoch + interval '1 microsecond' * chain`, where the chain is served
/// by a `bigint` extracted column: that column, its type, and the epoch.
pub open spec fn shifted_chain(ctx: AggChainCtx, e: Expr) -> Option<(i32, u32, i64)> {
    match epoch_sum(e) {
        Some((epoch, product)) => if !epoch.constisnull && epoch.consttype == TIMESTAMPTZOID {
            match interval_product(product) {
                Some((unit, number)) => if is_one_microsecond(unit) {
                    match ctx.synthetic(under_numeric_cast(number)) {
                        Some((col, t)) => if t == INT8OID {
                            Some((col, INT8OID, epoch.word))
                        } else {
                            None
                        },
                        None => None,
                    }
                } else {
                    None
                },
                None => None,
            }
        } else {
            None
        },
        None => None,
    }
}

fn match_interval_product(node: &Node) -> (r: Option<(&Const, &Node)>)
    ensures
        match r {
            Some((c, n)) => interval_product(node.view()) == Some((*c, n.view())),
            None => interval_product(node.view()) is None,
        },
{
    broadcast use group_node;

    match &node.head {
        Head::OpExpr(op) => {
            if !is_op_named(op, OpName::Star, None, None, INTERVALOID) || node.args.len() != 2
                || node.args[0].is_null() || node.args[1].is_null() {
                return None;
            }
            if let Head::Const(c) = &node.args[0].head {
                if c.consttype == INTERVALOID {
                    return Some((c, &node.args[1]));
                }
            }
            if let Head::Const(c) = &node.args[1].head {
                if c.consttype == INTERVALOID {
                    return Some((c, &node.args[0]));
                }
            }
            None
        },
        _ => None,
    }
}

fn match_epoch_sum(node: &Node) -> (r: Option<(&Const, &Node)>)
    ensures
        match r {
            Some((c, n)) => epoch_sum(node.view()) == Some((*c, n.view())),
            None => epoch_sum(node.view()) is None,
        },
{
    broadcast use group_node;

    match &node.head {
        Head::OpExpr(op) => {
            if !is_op_named(
                op,
                OpName::Plus,
                Some(TIMESTAMPTZOID),
                Some(INTERVALOID),
                TIMESTAMPTZOID,
            ) || node.args.len() != 2 {
                return None;
            }
            match (&node.args[0].head, &node.args[1].head) {
                (Head::Const(c), Head::OpExpr(_)) => Some((c, &node.args[1])),
                (Head::OpExpr(_), Head::Const(c)) => Some((c, &node.args[0])),
                _ => None,
            }
        },
        _ => None,
    }
}

/// Recognises `epoch + interval '1 microsecond' * chain`. The smallest and
/// greatest of such timestamps are those of the chain, shifted by the epoch.
pub fn try_match_timestamp_interval_min_max(ctx: &AggChainCtx, node: &Node) -> (r: Option<
    (i32, u32, i64),
>)
    requires
        ctx.wf(),
    ensures
        r == shifted_chain(*ctx, node.view()),
{
    let (epoch, product) = match match_epoch_sum(node) {
        Some(x) => x,
        None => {
            return None;
        },
    };
    if epoch.constisnull || epoch.consttype != TIMESTAMPTZOID {
        return None;
    }
    let (unit, number) = match match_interval_product(product) {
        Some(x) => x,
        None => {
            return None;
        },
    };
    if unit.constisnull {
        return None;
    }
    match &unit.payload {
        Payload::Interval { time, day, month } => {
            if *month != 0 || *day != 0 || *time != 1 {
                return None;
            }
        },
        _ => {
            return None;
        },
    }
    let found = match strip_numeric_cast(number) {
        Some(chain) => ctx.match_to_synthetic(chain),
        None => {
            let nothing = Node::null();
            ctx.match_to_synthetic(&nothing)
        },
    };
    match found {
        Some((col, t)) => if t == INT8OID {
            Some((col, INT8OID, epoch.word))
        } else {
            None
        },
        None => None,
    }
}

// ---------------------------------------------------------------------------
// Expressions over aggregates
// ---------------------------------------------------------------------------

/// Whether an expression consists of aggregates, constants, operators,
/// functions and casts alone.
pub open spec fn only_aggs(e: Expr) -> bool
    decreases e,
{
    match e.head {
        Head::Null | Head::Aggref(_) | Head::Const(_) => true,
        Head::RelabelType(_) | Head::CoerceViaIO(_) | Head::OpExpr(_) | Head::FuncExpr(_) => {
            forall|i: int| 0 <= i < e.args.len() ==> only_aggs(#[trigger] e.args[i])
        },
        _ => false,
    }
}

/// Whether an expression can be computed from aggregates and constants alone.
pub fn expr_only_uses_aggrefs_and_consts(node: &Node) -> (r: bool)
    ensures
        r == only_aggs(node.view()),
    decreases node,
{
    broadcast use group_node;

    let ghost e = node.view();
    match &node.head {
        Head::Null | Head::Aggref(_) | Head::Const(_) => true,
        Head::RelabelType(_) | Head::CoerceViaIO(_) | Head::OpExpr(_) | Head::FuncExpr(_) => {
            let mut i: usize = 0;
            while i < node.args.len()
                invariant
                    i <= node.args.len(),
                    e == node.view(),
                    e.args == exprs(node.args@),
                    e.head is RelabelType || e.head is CoerceViaIO || e.head is OpExpr
                        || e.head is FuncExpr,
                    forall|j: int| 0 <= j < i ==> only_aggs(#[trigger] e.args[j]),
                decreases node.args.len() - i,
            {
                assert(e.args[i as int] == node.args@[i as int].view());
                if !expr_only_uses_aggrefs_and_consts(&node.args[i]) {
                    return false;
                }
                i += 1;
            }
            true
        },
        _ => false,
    }
}

/// The aggregates in an expression, under operators, functions and casts.
pub open spec fn aggs_in(e: Expr) -> Seq<Expr>
    decreases e, 0int,
{
    match e.head {
        Head::Aggref(_) => seq![e],
        Head::RelabelType(_) | Head::CoerceViaIO(_) | Head::OpExpr(_) | Head::FuncExpr(_) => {
            aggs_in_list(e.args, e.args.len() as int)
        },
        _ => Seq::empty(),
    }
}

pub open spec fn aggs_in_list(s: Seq<Expr>, n: int) -> Seq<Expr>
    decreases s, n,
{
    if n <= 0 || n > s.len() {
        Seq::empty()
    } else {
        aggs_in_list(s, n - 1) + aggs_in(s[n - 1])
    }
}

/// Appends the aggregates in an expression to `out`.
pub fn collect_aggrefs_in_expr(node: &Node, out: &mut Vec<Node>)
    ensures
        exprs(final(out)@) == exprs(old(out)@) + aggs_in(node.view()),
    decreases node,
{
    broadcast use group_node;

    let ghost e = node.view();
    let ghost base = exprs(out@);
    match &node.head {
        Head::Aggref(_) => {
            let n = node.dup();
            let ghost before = out@;
            out.push(n);
            assert(exprs(out@) =~= exprs(before) + seq![e]);
        },
        Head::RelabelType(_) | Head::CoerceViaIO(_) | Head::OpExpr(_) | Head::FuncExpr(_) => {
            let mut i: usize = 0;
            assert(exprs(out@) =~= base + aggs_in_list(e.args, 0));
            while i < node.args.len()
                invariant
                    i <= node.args.len(),
                    e == node.view(),
                    e.args == exprs(node.args@),
                    exprs(out@) == base + aggs_in_list(e.args, i as int),
                decreases node.args.len() - i,
            {
                assert(e.args[i as int] == node.args@[i as int].view());
                collect_aggrefs_in_expr(&node.args[i], out);
                i += 1;
                assert(exprs(out@) =~= base + aggs_in_list(e.args, i as int));
            }
        },
        _ => {
            assert(exprs(out@) =~= base + aggs_in(e));
        },
    }
}

/// Whether a constant is a positive number: a positive integer, a positive
/// float (by its bits), or a `numeric` that its header does not mark negative
/// or special.
pub open spec fn is_positive(c: Const) -> bool {
    !c.constisnull && {
        if c.consttype == INT2OID || c.consttype == INT4OID || c.consttype == INT8OID {
            int_value(c) > 0
        } else if c.consttype == FLOAT4OID {
            0 < (c.word as i32) <= 0x7f80_0000
        } else if c.consttype == FLOAT8OID {
            0 < c.word <= 0x7ff0_0000_0000_0000
        } else if c.consttype == NUMERICOID {
            c.payload matches Payload::NumericHeader(h) && (h < 0x4000 || 0x8000 <= h < 0xa000)
        } else {
            false
        }
    }
}

/// Whether a constant is a positive number.
pub fn const_is_positive_numeric(c: &Const) -> (r: bool)
    ensures
        r == is_positive(*c),
{
    if c.constisnull {
        false
    } else if c.consttype == INT2OID || c.consttype == INT4OID || c.consttype == INT8OID {
        const_int_value(c) > 0
    } else if c.consttype == FLOAT4OID {
        let bits: i32 = #[verifier::truncate]
        (c.word as i32);
        0 < bits && bits <= 0x7f80_0000
    } else if c.consttype == FLOAT8OID {
        0 < c.word && c.word <= 0x7ff0_0000_0000_0000
    } else if c.consttype == NUMERICOID {
        match &c.payload {
            Payload::NumericHeader(h) => *h < 0x4000 || (0x8000 <= *h && *h < 0xa000),
            _ => false,
        }
    } else {
        false
    }
}

/// Whether `e` is the text constant `epoch`, the field of a time that grows as
/// the time does. Fields such as the minute start over.
pub open spec fn names_epoch(e: Expr) -> bool {
    e.head matches Head::Const(c) && !c.constisnull && (c.payload matches Payload::Text(s)
        && s@ == "epoch"@)
}

fn is_epoch(node: &Node) -> (r: bool)
    ensures
        r == names_epoch(node.view()),
{
    broadcast use group_node;

    match &node.head {
        Head::Const(c) => {
            if c.constisnull {
                return false;
            }
            match &c.payload {
                Payload::Text(s) => text_is(s.as_str(), "epoch"),
                _ => false,
            }
        },
        _ => false,
    }
}

/// What `e` wraps, where the wrapper keeps the order: a product with a positive
/// constant, `extract` or `date_part` of the epoch, or a cast.
pub open spec fn monotonic_inner(e: Expr) -> Option<Expr> {
    match e.head {
        Head::OpExpr(op) => if op.name == OpName::Star && e.args.len() == 2 && !is_null(e.args[0])
            && !is_null(e.args[1]) {
            match (e.args[0].head, e.args[1].head) {
                (Head::Const(_), Head::Const(_)) => None,
                (Head::Const(c), _) => if is_positive(c) {
                    Some(e.args[1])
                } else {
                    None
                },
                (_, Head::Const(c)) => if is_positive(c) {
                    Some(e.args[0])
                } else {
                    None
                },
                _ => None,
            }
        } else {
            None
        },
        Head::FuncExpr(f) => if (f.name == FuncName::Extract || f.name == FuncName::DatePart)
            && e.args.len() >= 2 && names_epoch(e.args[0]) {
            Some(e.args[e.args.len() - 1])
        } else {
            None
        },
        Head::RelabelType(_) | Head::CoerceViaIO(_) => if e.args.len() > 0 {
            Some(e.args[0])
        } else {
            Some(null_expr())
        },
        _ => None,
    }
}

/// Under all wrappers that keep the order.
pub open spec fn under_monotonic(e: Expr) -> Expr
    decreases e,
{
    match monotonic_inner(e) {
        Some(inner) => if e.args.len() > 0 {
            under_monotonic(inner)
        } else {
            inner
        },
        None => e,
    }
}

/// Only wrappers that keep the order are removed: where each such wrapper keeps
/// the order of two rows, of which `x` gives the values in the first and `y` in
/// the second, what is left orders the rows as the whole expression does.
pub proof fn lemma_stripping_keeps_order(
    e: Expr,
    x: spec_fn(Expr) -> int,
    y: spec_fn(Expr) -> int,
)
    requires
        forall|w: Expr|
            (#[trigger] monotonic_inner(w)) matches Some(inner) && x(inner) <= y(inner) ==> x(w)
                <= y(w),
    ensures
        x(under_monotonic(e)) <= y(under_monotonic(e)) ==> x(e) <= y(e),
    decreases e,
{
    match monotonic_inner(e) {
        Some(inner) => if e.args.len() > 0 {
            lemma_stripping_keeps_order(inner, x, y);
        },
        None => {},
    }
}

/// A product with a constant that is not positive, and `extract` or `date_part`
/// of a field other than the epoch, come back as they are.
pub proof fn lemma_other_wrappers_stay(e: Expr)
    requires
        match e.head {
            Head::OpExpr(op) => forall|i: int|
                0 <= i < e.args.len() ==> ((#[trigger] e.args[i]).head matches Head::Const(c)
                    ==> !is_positive(c)),
            Head::FuncExpr(f) => e.args.len() > 0 && !names_epoch(e.args[0]),
            _ => false,
        },
    ensures
        under_monotonic(e) == e,
{
}

/// The expression under wrappers that keep the order.
pub fn strip_monotonic_topn_wrappers(node: &Node) -> (r: Option<&Node>)
    ensures
        match r {
            Some(n) => n.view() == under_monotonic(node.view()),
            None => under_monotonic(node.view()) == null_expr(),
        },
    decreases node,
{
    broadcast use group_node;

    match &node.head {
        Head::OpExpr(op) => {
            if op.name != OpName::Star || node.args.len() != 2 || node.args[0].is_null()
                || node.args[1].is_null() {
                return Some(node);
            }
            match (&node.args[0].head, &node.args[1].head) {
                (Head::Const(_), Head::Const(_)) => Some(node),
                (Head::Const(c), _) => if const_is_positive_numeric(c) {
                    strip_monotonic_topn_wrappers(&node.args[1])
                } else {
                    Some(node)
                },
                (_, Head::Const(c)) => if const_is_positive_numeric(c) {
                    strip_monotonic_topn_wrappers(&node.args[0])
                } else {
                    Some(node)
                },
                _ => Some(node),
            }
        },
        Head::FuncExpr(f) => {
            if (f.name == FuncName::Extract || f.name == FuncName::DatePart) && node.args.len()
                >= 2 && is_epoch(&node.args[0]) {
                strip_monotonic_topn_wrappers(&node.args[node.args.len() - 1])
            } else {
                Some(node)
            }
        },
        Head::RelabelType(_) | Head::CoerceViaIO(_) => if node.args.len() > 0 {
            strip_monotonic_topn_wrappers(&node.args[0])
        } else {
            None
        },
        _ => Some(node),
    }
}

/// Position of the node with the given identity.
pub open spec fn by_ident(aggs: Seq<Expr>, ident: u64) -> Option<int> {
    first_where(aggs, |a: Expr| a.ident == ident)
}

/// Finds the node with the given identity.
pub fn find_ident(aggs: &Vec<Node>, ident: u64) -> (r: Option<usize>)
    ensures
        match r {
            Some(i) => by_ident(exprs(aggs@), ident) == Some(i as int) && i < aggs.len(),
            None => by_ident(exprs(aggs@), ident) is None,
        },
{
    broadcast use group_node;

    let ghost es = exprs(aggs@);
    let ghost p = |a: Expr| a.ident == ident;
    let mut i: usize = 0;
    while i < aggs.len()
        invariant
            i <= aggs.len(),
            es == exprs(aggs@),
            p == (|a: Expr| a.ident == ident),
            forall|j: int| 0 <= j < i ==> !p(#[trigger] es[j]),
        decreases aggs.len() - i,
    {
        assert(es[i as int] == aggs@[i as int].view());
        if aggs[i].ident == ident {
            proof {
                lemma_first_is(es, p, i as int);
            }
            return Some(i);
        }
        i += 1;
    }
    proof {
        lemma_first_none(es, p);
    }
    None
}

/// `e` as a difference `max(..) - min(..)` of two of the aggregates, under
/// wrappers that keep the order: their positions.
pub open spec fn minmax_difference(e: Expr, aggs: Seq<Expr>) -> Option<(int, int)> {
    let inner = under_monotonic(e);
    match inner.head {
        Head::OpExpr(op) => if op.name == OpName::Minus && inner.args.len() == 2 {
            let l = unrelabel(inner.args[0]);
            let r = unrelabel(inner.args[1]);
            match (l.head, r.head) {
                (Head::Aggref(a), Head::Aggref(b)) => if a.name == FuncName::Max && b.name
                    == FuncName::Min {
                    match (by_ident(aggs, l.ident), by_ident(aggs, r.ident)) {
                        (Some(i), Some(j)) => Some((i, j)),
                        _ => None,
                    }
                } else {
                    None
                },
                _ => None,
            }
        } else {
            None
        },
        _ => None,
    }
}

/// Recognises a sort by a difference of a MAX and a MIN among `aggs`.
pub fn try_match_derived_minmax_topn(node: &Node, aggs: &Vec<Node>) -> (r: Option<(usize, usize)>)
    ensures
        match r {
            Some((i, j)) => minmax_difference(node.view(), exprs(aggs@)) == Some(
                (i as int, j as int),
            ) && i < aggs.len() && j < aggs.len(),
            None => minmax_difference(node.view(), exprs(aggs@)) is None,
        },
{
    broadcast use group_node;

    let inner = match strip_monotonic_topn_wrappers(node) {
        Some(n) => n,
        None => {
            return None;
        },
    };
    match &inner.head {
        Head::OpExpr(op) => {
            if op.name != OpName::Minus || inner.args.len() != 2 {
                return None;
            }
        },
        _ => {
            return None;
        },
    }
    let l = match unwrap_relabel(&inner.args[0]) {
        Some(n) => n,
        None => {
            return None;
        },
    };
    let r = match unwrap_relabel(&inner.args[1]) {
        Some(n) => n,
        None => {
            return None;
        },
    };
    match (&l.head, &r.head) {
        (Head::Aggref(a), Head::Aggref(b)) => {
            if a.name != FuncName::Max || b.name != FuncName::Min {
                return None;
            }
            match (find_ident(aggs, l.ident), find_ident(aggs, r.ident)) {
                (Some(i), Some(j)) => Some((i, j)),
                _ => None,
            }
        },
        _ => None,
    }
}

} // verus!
