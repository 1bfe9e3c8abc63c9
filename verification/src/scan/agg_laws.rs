//! What an aggregate scan is asked to compute is what the query asks for.

use vstd::prelude::*;
use vstd::utf8::encode_utf8;
use crate::scan::agg_types::{
    AggExpr, AggSpec, AggType, CaseSpec, CaseValue, CaseWhenCondition, CaseWhenOp, Group, GroupExpr,
    OutputTransform,
};
use crate::scan::catalog::QueryRels;
use crate::scan::exprs::{
    case_clauses_of, case_condition, case_conditions_of, case_result, case_spec, interval_product,
    shifted_chain, under_numeric_cast, when_conditions,
};
use crate::scan::json_extract::AggChainCtx;
use crate::scan::node::{
    func_name_of, is_null, null_expr, op_name_of, unrelabel, BoolOp, Const, Expr, FuncName, Head,
    OpName, Payload, Var,
};
use crate::scan::pushdown::{group_step, groupings, groups_nothing, timestamp_operand};
use crate::scan::upper::{agg_arg, agg_spec, single_arg};

verus! {

// ---------------------------------------------------------------------------
// Values
// ---------------------------------------------------------------------------

/// A row of a scan. Values are numbers, and stand for texts by their place among
/// texts; none is NULL.
pub struct ScanRow {
    /// The columns by index from 0: the physical ones, then the extracted ones.
    pub col: spec_fn(int) -> Option<int>,
    /// The length of the text in a column.
    pub length: spec_fn(int) -> Option<int>,
    /// A text.
    pub text: spec_fn(Seq<u8>) -> int,
    /// `regexp_replace`: the text, the pattern, the replacement, the collation.
    pub regexp: spec_fn(int, Seq<u8>, Seq<u8>, u32) -> int,
    /// `date_trunc`.
    pub trunc: spec_fn(Seq<u8>, int) -> int,
    /// `extract`.
    pub part: spec_fn(Seq<u8>, int) -> int,
    /// `to_timestamp`.
    pub time_of: spec_fn(int) -> int,
    pub quotient: spec_fn(int, int) -> int,
    /// Anything else.
    pub other: spec_fn(Expr) -> Option<int>,
}

/// A function of two values that are not NULL.
pub open spec fn strict(a: Option<int>, b: Option<int>, f: spec_fn(int, int) -> int) -> Option<int> {
    match (a, b) {
        (Some(x), Some(y)) => Some(f(x, y)),
        _ => None,
    }
}

pub open spec fn strictly(a: Option<int>, f: spec_fn(int) -> int) -> Option<int> {
    match a {
        Some(x) => Some(f(x)),
        None => None,
    }
}

/// The bytes of a text constant.
pub open spec fn constant_bytes(e: Expr) -> Option<Seq<u8>> {
    match e.head {
        Head::Const(c) => match c.payload {
            Payload::Text(s) => if c.constisnull {
                None
            } else {
                Some(encode_utf8(s@))
            },
            _ => None,
        },
        _ => None,
    }
}

/// The value of a constant: a number by its type's width, a time in
/// microseconds, or an interval without days and months in microseconds.
pub open spec fn constant_value(row: ScanRow, e: Expr) -> Option<int> {
    match e.head {
        Head::Const(c) => if c.constisnull {
            None
        } else if c.consttype == 21 {
            Some(c.word as i16 as int)
        } else if c.consttype == 23 {
            Some(c.word as i32 as int)
        } else if c.consttype == 20 || c.consttype == 1114 || c.consttype == 1184 {
            Some(c.word as int)
        } else {
            match c.payload {
                Payload::Interval { time, day, month } => if day == 0 && month == 0 {
                    Some(time as int)
                } else {
                    (row.other)(e)
                },
                _ => (row.other)(e),
            }
        },
        _ => None,
    }
}

/// The value of an expression of a query. A cast keeps the value.
pub open spec fn sql_value(row: ScanRow, e: Expr) -> Option<int>
    decreases e,
{
    match e.head {
        Head::Var(v) => (row.col)(v.varattno - 1),
        Head::Const(_) => constant_value(row, e),
        Head::RelabelType(_) => if e.args.len() > 0 {
            sql_value(row, e.args[0])
        } else {
            None
        },
        Head::OpExpr(op) => if e.args.len() == 2 && op.name == OpName::Plus {
            strict(sql_value(row, e.args[0]), sql_value(row, e.args[1]), |x: int, y: int| x + y)
        } else if e.args.len() == 2 && op.name == OpName::Minus {
            strict(sql_value(row, e.args[0]), sql_value(row, e.args[1]), |x: int, y: int| x - y)
        } else if e.args.len() == 2 && op.name == OpName::Star {
            strict(sql_value(row, e.args[0]), sql_value(row, e.args[1]), |x: int, y: int| x * y)
        } else if e.args.len() == 2 && op.name == OpName::Slash {
            strict(sql_value(row, e.args[0]), sql_value(row, e.args[1]), row.quotient)
        } else {
            (row.other)(e)
        },
        Head::FuncExpr(f) => if f.funcid == 482 && e.args.len() == 1 {
            sql_value(row, e.args[0])
        } else if f.name == FuncName::Length && e.args.len() == 1 && e.args[0].head is Var {
            (row.length)(e.args[0].head->Var_0.varattno - 1)
        } else if f.name == FuncName::ToTimestamp && e.args.len() == 1 {
            strictly(
                if e.args[0].head is FuncExpr && e.args[0].args.len() == 1 {
                    sql_value(row, e.args[0].args[0])
                } else {
                    sql_value(row, e.args[0])
                },
                row.time_of,
            )
        } else if f.name == FuncName::RegexpReplace && e.args.len() == 3 && constant_bytes(
            e.args[1],
        ) is Some && constant_bytes(e.args[2]) is Some {
            strictly(
                sql_value(row, e.args[0]),
                |x: int|
                    (row.regexp)(
                        x,
                        constant_bytes(e.args[1])->0,
                        constant_bytes(e.args[2])->0,
                        f.inputcollid,
                    ),
            )
        } else if f.name == FuncName::DateTrunc && e.args.len() == 2 && constant_bytes(
            e.args[0],
        ) is Some {
            strictly(
                sql_value(row, e.args[1]),
                |x: int| (row.trunc)(constant_bytes(e.args[0])->0, x),
            )
        } else if f.name == FuncName::Extract && e.args.len() == 2 && constant_bytes(
            e.args[0],
        ) is Some {
            strictly(
                sql_value(row, e.args[1]),
                |x: int| (row.part)(constant_bytes(e.args[0])->0, x),
            )
        } else {
            (row.other)(e)
        },
        _ => (row.other)(e),
    }
}

/// Whether extracted columns hold the values of the chains that they serve.
pub open spec fn row_serves(row: ScanRow, ctx: Option<AggChainCtx>) -> bool {
    ctx matches Some(c) ==> forall|e: Expr|
        (#[trigger] c.synthetic(e)) matches Some((col, t)) ==> sql_value(row, e) == (row.col)(
            col as int,
        )
}

// ---------------------------------------------------------------------------
// Arguments
// ---------------------------------------------------------------------------

/// The value that a scan aggregates, by its description.
pub open spec fn described_value(
    row: ScanRow,
    col_idx: i32,
    kind: AggExpr,
    offset: i64,
) -> Option<int> {
    match kind {
        AggExpr::Column => (row.col)(col_idx as int),
        AggExpr::LengthOf => (row.length)(col_idx as int),
        AggExpr::AddConst => strictly((row.col)(col_idx as int), |x: int| x + offset),
    }
}

/// What is added to an extreme before it is put out.
pub open spec fn shift_of(t: OutputTransform) -> int {
    match t {
        OutputTransform::Identity => 0,
        OutputTransform::PgUsShift { delta } => delta as int,
    }
}

/// Whether a function that has another name is not the one that casts `bigint` to
/// `double precision`, which has the number 482.
pub open spec fn is_no_cast(e: Expr) -> bool {
    e.head matches Head::FuncExpr(f) ==> f.name != FuncName::Other ==> f.funcid != 482
}

proof fn lemma_under_casts(row: ScanRow, e: Expr)
    requires
        !is_null(under_numeric_cast(e)),
    ensures
        sql_value(row, e) == sql_value(row, under_numeric_cast(e)),
    decreases e,
{
    match e.head {
        Head::FuncExpr(f) => if e.args.len() == 1 && f.funcid == 482 {
            lemma_under_casts(row, e.args[0]);
        },
        Head::RelabelType(_) => if e.args.len() > 0 {
            lemma_under_casts(row, e.args[0]);
        },
        _ => {},
    }
}

proof fn lemma_no_chain_is_null(ctx: AggChainCtx)
    ensures
        ctx.synthetic(null_expr()) is None,
{
}

/// What an aggregate is taken over, as it is described, has the value of the
/// aggregate's argument on every row, up to the shift that is made good at the
/// end.
pub proof fn lemma_argument_value(e: Expr, rels: QueryRels, ctx: Option<AggChainCtx>, row: ScanRow)
    requires
        row_serves(row, ctx),
        agg_arg(e, rels, ctx) is Some,
        is_no_cast(e),
    ensures
        ({
            let a = agg_arg(e, rels, ctx)->0;
            sql_value(row, e) == strictly(
                described_value(row, a.col_idx, a.kind, a.offset),
                |x: int| x + shift_of(a.transform),
            )
        }),
{
    let a = agg_arg(e, rels, ctx)->0;
    let own = match ctx {
        Some(c) => c.synthetic(e) is None && shifted_chain(c, e) is None,
        None => true,
    };
    if own {
        match e.head {
            Head::Var(v) => {
                assert(sql_value(row, e) == (row.col)(a.col_idx as int));
            },
            Head::RelabelType(_) => {
                assert(sql_value(row, e.args[0]) == (row.col)(a.col_idx as int));
                assert(sql_value(row, e) == (row.col)(a.col_idx as int));
            },
            Head::FuncExpr(f) => {
                assert(sql_value(row, e) == (row.length)(a.col_idx as int));
            },
            _ => {
                let x = (row.col)(a.col_idx as int);
                let (l, r) = (sql_value(row, e.args[0]), sql_value(row, e.args[1]));
                assert((l == x && r == Some(a.offset as int)) || (r == x && l == Some(
                    a.offset as int,
                )));
                assert(sql_value(row, e) == strictly(x, |x: int| x + a.offset));
            },
        }
    }
    if let Some(c) = ctx {
        if c.synthetic(e) is None {
            if let Some((col, t, delta)) = shifted_chain(c, e) {
                let (epoch, product) = crate::scan::exprs::epoch_sum(e)->0;
                let (unit, number) = interval_product(product)->0;
                let inner = under_numeric_cast(number);
                if is_null(inner) {
                    assert(c.synthetic(inner) is None);
                }
                lemma_under_casts(row, number);
                let x = (row.col)(col as int);
                assert(sql_value(row, inner) == x);
                assert(sql_value(row, number) == x);
                assert(constant_value(row, product.args[0]) == Some(1int) || constant_value(
                    row,
                    product.args[1],
                ) == Some(1int));
                assert forall|y: int| #[trigger] (1int * y) == y && #[trigger] (y * 1int) == y by {}
                let (l, r) = (sql_value(row, product.args[0]), sql_value(row, product.args[1]));
                assert((l == x && r == Some(1int)) || (r == x && l == Some(1int)));
                assert(sql_value(row, product) == x);
                assert(sql_value(row, e) == strictly(x, |x: int| x + delta));
            }
        }
    }
}

// ---------------------------------------------------------------------------
// Aggregates
// ---------------------------------------------------------------------------

/// The answer of an aggregate.
pub enum Answer {
    Null,
    Number(int),
    /// An average, as a sum and how many it is of.
    Average(int, int),
}

/// The values of an expression on rows.
pub open spec fn sql_values(rows: Seq<ScanRow>, e: Expr) -> Seq<Option<int>> {
    Seq::new(rows.len(), |i: int| sql_value(rows[i], e))
}

pub open spec fn total_value(s: Seq<Option<int>>) -> int
    decreases s.len(),
{
    if s.len() == 0 {
        0
    } else {
        total_value(s.drop_last()) + match s.last() {
            Some(x) => x,
            None => 0,
        }
    }
}

/// How many are not NULL.
pub open spec fn count_value(s: Seq<Option<int>>) -> int
    decreases s.len(),
{
    if s.len() == 0 {
        0
    } else {
        count_value(s.drop_last()) + if s.last() is Some {
            1int
        } else {
            0
        }
    }
}

/// The values that are not NULL.
pub open spec fn different_values(s: Seq<Option<int>>) -> Set<int> {
    Set::new(|x: int| s.contains(Some(x)))
}

/// Whether `x` is a value and none is smaller.
pub open spec fn is_smallest(s: Seq<Option<int>>, x: int) -> bool {
    s.contains(Some(x)) && forall|i: int|
        0 <= i < s.len() ==> ((#[trigger] s[i]) matches Some(y) ==> x <= y)
}

/// Whether `x` is a value and none is larger.
pub open spec fn is_largest(s: Seq<Option<int>>, x: int) -> bool {
    s.contains(Some(x)) && forall|i: int|
        0 <= i < s.len() ==> ((#[trigger] s[i]) matches Some(y) ==> y <= x)
}

pub open spec fn all_null(s: Seq<Option<int>>) -> bool {
    forall|i: int| 0 <= i < s.len() ==> (#[trigger] s[i]) is None
}

/// Whether `a` is the answer that SQL gives to an aggregate of that name over
/// values, of which `distinct` asks for the different ones alone.
pub open spec fn sql_answer(
    name: FuncName,
    star: bool,
    distinct: bool,
    s: Seq<Option<int>>,
    a: Answer,
) -> bool {
    if star {
        a == Answer::Number(s.len() as int)
    } else {
        match name {
            FuncName::Count => if distinct {
                a == Answer::Number(different_values(s).len() as int)
            } else {
                a == Answer::Number(count_value(s))
            },
            FuncName::Sum => if all_null(s) {
                a is Null
            } else {
                a == Answer::Number(total_value(s))
            },
            FuncName::Avg => if all_null(s) {
                a is Null
            } else {
                a == Answer::Average(total_value(s), count_value(s))
            },
            FuncName::Min => if all_null(s) {
                a is Null
            } else {
                a matches Answer::Number(x) && is_smallest(s, x)
            },
            FuncName::Max => if all_null(s) {
                a is Null
            } else {
                a matches Answer::Number(x) && is_largest(s, x)
            },
            _ => false,
        }
    }
}

/// The values that a description aggregates on rows.
pub open spec fn described_values(rows: Seq<ScanRow>, s: AggSpec) -> Seq<Option<int>> {
    Seq::new(
        rows.len(),
        |i: int| described_value(rows[i], s.col_idx, s.expr_kind, s.const_offset),
    )
}

/// Whether `a` is the answer that a scan gives by a description: it counts rows,
/// counts values, sums them, averages them, counts different ones, or takes the
/// smallest or the largest and shifts it.
pub open spec fn scan_answer(rows: Seq<ScanRow>, s: AggSpec, a: Answer) -> bool {
    let vals = described_values(rows, s);
    match s.agg_type {
        AggType::CountStar => a == Answer::Number(rows.len() as int),
        AggType::Count => a == Answer::Number(count_value(vals)),
        AggType::CountDistinct => a == Answer::Number(different_values(vals).len() as int),
        AggType::Sum => if all_null(vals) {
            a is Null
        } else {
            a == Answer::Number(total_value(vals))
        },
        AggType::Avg => if all_null(vals) {
            a is Null
        } else {
            a == Answer::Average(total_value(vals), count_value(vals))
        },
        AggType::Min => if all_null(vals) {
            a is Null
        } else {
            a matches Answer::Number(x) && is_smallest(vals, x - shift_of(s.output_transform))
        },
        AggType::Max => if all_null(vals) {
            a is Null
        } else {
            a matches Answer::Number(x) && is_largest(vals, x - shift_of(s.output_transform))
        },
    }
}

proof fn lemma_shifted_extremes(s: Seq<Option<int>>, t: Seq<Option<int>>, d: int, x: int)
    requires
        s.len() == t.len(),
        forall|i: int| 0 <= i < s.len() ==> #[trigger] t[i] == strictly(s[i], |y: int| y + d),
    ensures
        all_null(s) <==> all_null(t),
        is_smallest(t, x) <==> is_smallest(s, x - d),
        is_largest(t, x) <==> is_largest(s, x - d),
{
    assert forall|i: int| 0 <= i < s.len() implies (#[trigger] s[i]) is None == (t[i] is None) by {}
    assert forall|i: int| 0 <= i < s.len() implies (#[trigger] t[i]) is None == (s[i] is None) by {}
    if t.contains(Some(x)) {
        let i = choose|i: int| 0 <= i < t.len() && t[i] == Some(x);
        assert(s[i] == Some(x - d));
    }
    if s.contains(Some(x - d)) {
        let i = choose|i: int| 0 <= i < s.len() && s[i] == Some(x - d);
        assert(t[i] == Some(x));
    }
    if is_smallest(t, x) {
        assert forall|i: int| 0 <= i < s.len() implies ((#[trigger] s[i]) matches Some(y) ==> x - d
            <= y) by {
            assert(t[i] == strictly(s[i], |y: int| y + d));
        }
    }
    if is_largest(t, x) {
        assert forall|i: int| 0 <= i < s.len() implies ((#[trigger] s[i]) matches Some(y) ==> y <= x
            - d) by {
            assert(t[i] == strictly(s[i], |y: int| y + d));
        }
    }
}

proof fn lemma_same_nulls(s: Seq<Option<int>>, t: Seq<Option<int>>)
    requires
        s.len() == t.len(),
        forall|i: int| 0 <= i < s.len() ==> (#[trigger] s[i]) is Some == (t[i] is Some),
    ensures
        count_value(s) == count_value(t),
    decreases s.len(),
{
    if s.len() > 0 {
        assert forall|i: int| 0 <= i < s.len() - 1 implies (#[trigger] s.drop_last()[i]) is Some
            == (t.drop_last()[i] is Some) by {
            assert(s[i] is Some == (t[i] is Some));
        }
        lemma_same_nulls(s.drop_last(), t.drop_last());
        assert(s[s.len() - 1] is Some == (t[t.len() - 1] is Some));
    }
}

/// Shifting values tells them apart as before.
proof fn lemma_shifted_differ(s: Seq<Option<int>>, t: Seq<Option<int>>, d: int)
    requires
        s.len() == t.len(),
        forall|i: int| 0 <= i < s.len() ==> #[trigger] t[i] == strictly(s[i], |y: int| y + d),
    ensures
        different_values(t).len() == different_values(s).len(),
{
    let f = |y: int| y + d;
    let a = different_values(s);
    let b = different_values(t);
    lemma_values_finite(s);
    assert(a.map(f) =~= b) by {
        assert forall|y: int| a.map(f).contains(y) == b.contains(y) by {
            if b.contains(y) {
                let i = choose|i: int| 0 <= i < t.len() && t[i] == Some(y);
                assert(s[i] == Some(y - d));
                assert(a.contains(y - d));
                assert(f(y - d) == y);
            }
            if a.map(f).contains(y) {
                let x = choose|x: int| a.contains(x) && f(x) == y;
                let i = choose|i: int| 0 <= i < s.len() && s[i] == Some(x);
                assert(t[i] == Some(y));
            }
        }
    }
    assert(vstd::relations::injective(f));
    vstd::set_lib::lemma_map_size(a, b, f);
}

proof fn lemma_values_finite(s: Seq<Option<int>>)
    ensures
        different_values(s).finite(),
    decreases s.len(),
{
    if s.len() == 0 {
        assert(different_values(s) =~= Set::empty());
    } else {
        let front = s.drop_last();
        lemma_values_finite(front);
        let all = match s.last() {
            Some(x) => different_values(front).insert(x),
            None => different_values(front),
        };
        assert(different_values(s) =~= all) by {
            assert forall|x: int| s.contains(Some(x)) == all.contains(x) by {
                if front.contains(Some(x)) {
                    let i = choose|i: int| 0 <= i < front.len() && front[i] == Some(x);
                    assert(s[i] == Some(x));
                }
                if s.contains(Some(x)) {
                    let i = choose|i: int| 0 <= i < s.len() && s[i] == Some(x);
                    if i < front.len() {
                        assert(front[i] == Some(x));
                    }
                }
                if s.last() == Some(x) {
                    assert(s[s.len() - 1] == Some(x));
                }
            }
        }
    }
}

/// The scan's answer to an aggregate, by its description, is SQL's answer on the
/// rows of every group: the same function, over the same argument. (SUM and AVG
/// are of all values; a DISTINCT there is not looked at, and there is no sum of
/// times.)
pub proof fn lemma_scan_answers_as_sql(
    agg: Expr,
    rels: QueryRels,
    ctx: Option<AggChainCtx>,
    rows: Seq<ScanRow>,
    a: Answer,
)
    requires
        forall|i: int| 0 <= i < rows.len() ==> row_serves(#[trigger] rows[i], ctx),
        agg_spec(agg, rels, ctx) is Some,
        single_arg(agg) matches Some(e) ==> is_no_cast(e),
        ({
            let info = agg.head->Aggref_0;
            info.aggstar || !(info.name == FuncName::Sum || info.name == FuncName::Avg) || (
            !info.distinct && shift_of(agg_arg(single_arg(agg)->0, rels, ctx)->0.transform) == 0)
        }),
    ensures
        ({
            let info = agg.head->Aggref_0;
            let s = agg_spec(agg, rels, ctx)->0;
            &&& agg.head is Aggref
            &&& scan_answer(rows, s, a) <==> if info.aggstar {
                a == Answer::Number(rows.len() as int)
            } else {
                single_arg(agg) matches Some(e) && sql_answer(
                    info.name,
                    false,
                    info.distinct,
                    sql_values(rows, e),
                    a,
                )
            }
            &&& s.result_type_oid == info.aggtype
        }),
{
    let info = agg.head->Aggref_0;
    let s = agg_spec(agg, rels, ctx)->0;
    if !info.aggstar {
        let e = single_arg(agg)->0;
        let arg = agg_arg(e, rels, ctx)->0;
        let d = shift_of(arg.transform);
        let u = described_values(rows, s);
        let v = sql_values(rows, e);
        assert forall|i: int| 0 <= i < rows.len() implies #[trigger] v[i] == strictly(
            u[i],
            |y: int| y + d,
        ) by {
            assert(row_serves(rows[i], ctx));
            lemma_argument_value(e, rels, ctx, rows[i]);
        }
        assert forall|i: int| 0 <= i < u.len() implies (#[trigger] u[i]) is Some == (v[i] is Some) by {
            assert(v[i] == strictly(u[i], |y: int| y + d));
        }
        lemma_same_nulls(u, v);
        lemma_shifted_differ(u, v, d);
        match a {
            Answer::Number(x) => lemma_shifted_extremes(u, v, d, x),
            _ => lemma_shifted_extremes(u, v, d, 0),
        }
        if d == 0 {
            assert(u =~= v) by {
                assert forall|i: int| 0 <= i < u.len() implies u[i] == v[i] by {
                    assert(v[i] == strictly(u[i], |y: int| y + d));
                }
            }
        }
    }
}

// ---------------------------------------------------------------------------
// Groupings
// ---------------------------------------------------------------------------

/// Whether a comparison of a CASE holds on a row.
pub open spec fn condition_holds(row: ScanRow, c: CaseWhenCondition) -> bool {
    match (row.col)(c.col_idx as int) {
        Some(x) => match c.op {
            CaseWhenOp::Eq => x == c.const_val,
            CaseWhenOp::NotEq => x != c.const_val,
        },
        None => false,
    }
}

pub open spec fn case_result_value(row: ScanRow, v: CaseValue) -> Option<int> {
    match v {
        CaseValue::ColumnRef(c) => (row.col)(c as int),
        CaseValue::StringConst(t) => Some((row.text)(t)),
    }
}

/// The result of a CASE from clause `i` on: that of the first clause all of whose
/// conditions hold, else the default.
pub open spec fn case_described(row: ScanRow, c: CaseSpec, i: int) -> Option<int>
    decreases c.clauses.len() - i,
{
    if 0 <= i < c.clauses.len() {
        if forall|k: int|
            0 <= k < c.clauses[i].conditions.len() ==> condition_holds(
                row,
                #[trigger] c.clauses[i].conditions[k],
            ) {
            case_result_value(row, c.clauses[i].result)
        } else {
            case_described(row, c, i + 1)
        }
    } else {
        case_result_value(row, c.default)
    }
}

/// What a scan groups by, by its description.
pub open spec fn group_value(row: ScanRow, g: Group) -> Option<int> {
    let x = (row.col)(g.col_idx as int);
    match g.expr {
        GroupExpr::Column => x,
        GroupExpr::AddConst { offset, op_oid } => strictly(x, |y: int| y + offset),
        GroupExpr::RegexpReplace { pattern, replacement, func_oid, collation } => strictly(
            x,
            |y: int| (row.regexp)(y, pattern, replacement, collation),
        ),
        GroupExpr::DateTrunc { unit, func_oid } => strictly(x, |y: int| (row.trunc)(unit, y)),
        GroupExpr::Extract { unit, func_oid, divisor } => if divisor == 0 {
            strictly(x, |y: int| (row.part)(unit, y))
        } else {
            strictly(
                x,
                |y: int| (row.part)(unit, (row.time_of)((row.quotient)(y, divisor as int))),
            )
        },
        GroupExpr::CaseWhen(c) => case_described(row, c, 0),
    }
}

/// Whether a WHEN condition of a query holds on a row: `=` or `<>` of two values
/// that are not NULL, or an AND of such.
pub open spec fn when_holds(row: ScanRow, e: Expr) -> bool
    decreases e,
{
    match e.head {
        Head::BoolExpr(BoolOp::And) => forall|i: int|
            0 <= i < e.args.len() ==> when_holds(row, #[trigger] e.args[i]),
        Head::OpExpr(op) => if e.args.len() == 2 {
            match (sql_value(row, e.args[0]), sql_value(row, e.args[1])) {
                (Some(x), Some(y)) => if op.name == OpName::Eq {
                    x == y
                } else if op.name == OpName::Ne {
                    x != y
                } else {
                    (row.other)(e) is Some
                },
                _ => false,
            }
        } else {
            (row.other)(e) is Some
        },
        _ => (row.other)(e) is Some,
    }
}

/// A result of a CASE: a text or a column; NULL counts as the empty text.
pub open spec fn case_text(row: ScanRow, e: Expr) -> Option<int> {
    match unrelabel(e).head {
        Head::Const(c) => match c.payload {
            Payload::Text(s) => if c.constisnull {
                Some((row.text)(Seq::empty()))
            } else {
                Some((row.text)(encode_utf8(s@)))
            },
            _ => Some((row.text)(Seq::empty())),
        },
        Head::Null => Some((row.text)(Seq::empty())),
        _ => sql_value(row, unrelabel(e)),
    }
}

/// The value of a searched CASE from clause `i` on.
pub open spec fn sql_case(row: ScanRow, e: Expr, i: int) -> Option<int>
    decreases e.args.len() - i,
{
    if 0 <= i < e.args.len() {
        if when_holds(row, e.args[i].args[0]) {
            case_text(row, e.args[i].args[1])
        } else {
            sql_case(row, e, i + 1)
        }
    } else {
        match e.aux {
            Some(b) => case_text(row, *b),
            None => Some((row.text)(Seq::empty())),
        }
    }
}

proof fn lemma_condition_value(row: ScanRow, e: Expr)
    requires
        case_condition(e) is Some,
    ensures
        condition_holds(row, case_condition(e)->0) == when_holds(row, e),
{
    let c = case_condition(e)->0;
    let (a, b) = (e.args[0], e.args[1]);
    assert(sql_value(row, a) == sql_value(row, unrelabel(a)));
    assert(sql_value(row, b) == sql_value(row, unrelabel(b)));
    let x = (row.col)(c.col_idx as int);
    assert((sql_value(row, a) == x && sql_value(row, b) == Some(c.const_val as int)) || (sql_value(
        row,
        b,
    ) == x && sql_value(row, a) == Some(c.const_val as int)));
}

proof fn lemma_conditions_at(s: Seq<Expr>, n: int, k: int)
    requires
        0 <= k < n,
        case_conditions_of(s, n) is Some,
    ensures
        case_conditions_of(s, n)->0.len() == n,
        case_condition(s[k]) == Some(case_conditions_of(s, n)->0[k]),
    decreases n,
{
    lemma_conditions_len(s, n - 1);
    if k < n - 1 {
        lemma_conditions_at(s, n - 1, k);
    }
}

proof fn lemma_conditions_len(s: Seq<Expr>, n: int)
    requires
        0 <= n,
        case_conditions_of(s, n) is Some,
    ensures
        case_conditions_of(s, n)->0.len() == n,
    decreases n,
{
    if n > 0 {
        lemma_conditions_len(s, n - 1);
    }
}

proof fn lemma_when_value(row: ScanRow, e: Expr)
    requires
        when_conditions(e) is Some,
    ensures
        when_holds(row, e) <==> forall|k: int|
            0 <= k < when_conditions(e)->0.len() ==> condition_holds(
                row,
                #[trigger] when_conditions(e)->0[k],
            ),
{
    let c = when_conditions(e)->0;
    if e.head is BoolExpr {
        let n = e.args.len() as int;
        lemma_conditions_at(e.args, n, 0);
        assert forall|k: int| 0 <= k < n implies condition_holds(row, #[trigger] c[k])
            == when_holds(row, e.args[k]) by {
            lemma_conditions_at(e.args, n, k);
            lemma_condition_value(row, e.args[k]);
        }
        assert forall|k: int| 0 <= k < n implies when_holds(row, #[trigger] e.args[k])
            == condition_holds(row, c[k]) by {
            lemma_conditions_at(e.args, n, k);
            lemma_condition_value(row, e.args[k]);
        }
        assert(c.len() == n);
    } else {
        lemma_condition_value(row, e);
        assert(c[0] == case_condition(e)->0);
    }
}

proof fn lemma_clause_at(s: Seq<Expr>, rels: QueryRels, n: int, k: int)
    requires
        0 <= k < n,
        case_clauses_of(s, rels, n) is Some,
    ensures
        case_clauses_of(s, rels, n)->0.len() == n,
        crate::scan::exprs::case_clause(s[k], rels) == Some(case_clauses_of(s, rels, n)->0[k]),
    decreases n,
{
    lemma_clauses_len(s, rels, n - 1);
    if k < n - 1 {
        lemma_clause_at(s, rels, n - 1, k);
    }
}

proof fn lemma_clauses_len(s: Seq<Expr>, rels: QueryRels, n: int)
    requires
        0 <= n,
        case_clauses_of(s, rels, n) is Some,
    ensures
        case_clauses_of(s, rels, n)->0.len() == n,
    decreases n,
{
    if n > 0 {
        lemma_clauses_len(s, rels, n - 1);
    }
}

proof fn lemma_case_result_value(row: ScanRow, e: Expr, rels: QueryRels)
    requires
        case_result(e, rels) is Some,
    ensures
        case_result_value(row, case_result(e, rels)->0) == case_text(row, e),
{
    if is_null(e) {
        assert(unrelabel(e) == e);
    }
}

proof fn lemma_case_from(row: ScanRow, e: Expr, rels: QueryRels, i: int)
    requires
        case_spec(e, rels) is Some,
        0 <= i <= e.args.len(),
    ensures
        case_described(row, case_spec(e, rels)->0, i) == sql_case(row, e, i),
    decreases e.args.len() - i,
{
    let c = case_spec(e, rels)->0;
    lemma_clause_at(e.args, rels, e.args.len() as int, 0);
    if i < e.args.len() {
        lemma_clause_at(e.args, rels, e.args.len() as int, i);
        lemma_when_value(row, e.args[i].args[0]);
        lemma_case_result_value(row, e.args[i].args[1], rels);
        lemma_case_from(row, e, rels, i + 1);
        assert(c.clauses[i].conditions == when_conditions(e.args[i].args[0])->0);
        assert(when_holds(row, e.args[i].args[0]) <==> forall|k: int|
            0 <= k < c.clauses[i].conditions.len() ==> condition_holds(
                row,
                #[trigger] c.clauses[i].conditions[k],
            ));
        assert(c.clauses.len() == e.args.len());
    } else {
        match e.aux {
            Some(b) => lemma_case_result_value(row, *b, rels),
            None => {},
        }
    }
}

/// The value of what a query groups by.
pub open spec fn grouped_value(row: ScanRow, e: Expr) -> Option<int> {
    if e.head is CaseExpr {
        sql_case(row, e, 0)
    } else {
        sql_value(row, e)
    }
}

/// What a scan groups by, as it is described, has the value of what the query
/// groups by, on every row.
pub proof fn lemma_group_value(e: Expr, rels: QueryRels, ctx: Option<AggChainCtx>, row: ScanRow)
    requires
        row_serves(row, ctx),
        group_step(e, rels, ctx) is Some,
        is_no_cast(e),
        e.args.len() == 2 ==> is_no_cast(e.args[1]),
    ensures
        group_value(row, group_step(e, rels, ctx)->0.group) == grouped_value(row, e),
{
    let g = group_step(e, rels, ctx)->0.group;
    let chain = match ctx {
        Some(c) => c.synthetic(e),
        None => None,
    };
    let x = (row.col)(g.col_idx as int);
    if chain is Some {
        if e.head is CaseExpr {
            assert(crate::scan::json_extract::uncast(e, None).0 == e);
        }
    } else {
        match e.head {
            Head::CaseExpr => lemma_case_from(row, e, rels, 0),
            Head::OpExpr(op) => {
                let (l, r) = (sql_value(row, e.args[0]), sql_value(row, e.args[1]));
                if op.name == OpName::Minus {
                    assert(l == x);
                    assert(r == Some(-(g.expr->offset as int)));
                } else {
                    assert((l == x && r == Some(g.expr->offset as int)) || (r == x && l == Some(
                        g.expr->offset as int,
                    )));
                }
                assert(sql_value(row, e) == strictly(x, |y: int| y + g.expr->offset));
            },
            Head::FuncExpr(f) => {
                match g.expr {
                    GroupExpr::RegexpReplace { pattern, replacement, func_oid, collation } => {
                        assert(sql_value(row, e.args[0]) == x);
                        assert(constant_bytes(e.args[1]) == Some(pattern));
                        assert(constant_bytes(e.args[2]) == Some(replacement));
                        assert(sql_value(row, e) == strictly(
                            x,
                            |y: int| (row.regexp)(y, pattern, replacement, collation),
                        ));
                    },
                    GroupExpr::DateTrunc { unit, func_oid } => {
                        assert(sql_value(row, e.args[1]) == x);
                        assert(constant_bytes(e.args[0]) == Some(unit));
                        assert(sql_value(row, e) == strictly(x, |y: int| (row.trunc)(unit, y)));
                    },
                    GroupExpr::Extract { unit, func_oid, divisor } => {
                        assert(constant_bytes(e.args[0]) == Some(unit));
                        let inner = e.args[1];
                        if inner.head is Var {
                            assert(sql_value(row, inner) == x);
                            assert(sql_value(row, e) == strictly(x, |y: int| (row.part)(unit, y)));
                        } else {
                            let q = timestamp_operand(inner)->0;
                            let arg = inner.args[0];
                            assert(sql_value(row, q.args[0]) == x);
                            assert(sql_value(row, q.args[1]) == Some(divisor as int));
                            assert(sql_value(row, q) == strictly(
                                x,
                                |y: int| (row.quotient)(y, divisor as int),
                            ));
                            assert(inner.head->FuncExpr_0.funcid != 482);
                            if !(arg.head is FuncExpr) {
                                assert(sql_value(row, arg) == sql_value(row, unrelabel(arg)));
                            }
                            assert(sql_value(row, inner) == strictly(
                                sql_value(row, q),
                                row.time_of,
                            ));
                            assert(sql_value(row, e) == strictly(
                                x,
                                |y: int|
                                    (row.part)(
                                        unit,
                                        (row.time_of)((row.quotient)(y, divisor as int)),
                                    ),
                            ));
                        }
                    },
                    _ => {},
                }
            },
            _ => {},
        }
    }
}

/// Whether two rows are in one group of a scan.
pub open spec fn in_one_group(a: ScanRow, b: ScanRow, groups: Seq<Group>) -> bool {
    forall|i: int|
        0 <= i < groups.len() ==> group_value(a, #[trigger] groups[i]) == group_value(b, groups[i])
}

/// Two rows are in one group of the scan exactly where all that the query groups
/// by has the same values on both.
pub proof fn lemma_same_groups(
    s: Seq<Expr>,
    rels: QueryRels,
    ctx: Option<AggChainCtx>,
    n: int,
    a: ScanRow,
    b: ScanRow,
)
    requires
        0 <= n <= s.len(),
        row_serves(a, ctx),
        row_serves(b, ctx),
        forall|e: Expr| e.head is Const ==> #[trigger] (a.other)(e) == (b.other)(e),
        forall|i: int|
            0 <= i < n ==> is_no_cast(#[trigger] s[i]) && (s[i].args.len() == 2 ==> is_no_cast(
                s[i].args[1],
            )),
        groupings(s, rels, ctx, n) is Some,
    ensures
        in_one_group(a, b, groupings(s, rels, ctx, n)->0.groups) <==> forall|i: int|
            0 <= i < n ==> grouped_value(a, #[trigger] s[i]) == grouped_value(b, s[i]),
    decreases n,
{
    if n > 0 {
        lemma_same_groups(s, rels, ctx, n - 1, a, b);
        let e = s[n - 1];
        let before = groupings(s, rels, ctx, n - 1)->0.groups;
        let all = groupings(s, rels, ctx, n)->0.groups;
        if groups_nothing(e, ctx) {
            assert(grouped_value(a, e) == grouped_value(b, e));
        } else {
            lemma_group_value(e, rels, ctx, a);
            lemma_group_value(e, rels, ctx, b);
            let g = group_step(e, rels, ctx)->0.group;
            assert(all[before.len() as int] == g);
            if in_one_group(a, b, all) {
                assert forall|i: int| 0 <= i < before.len() implies group_value(
                    a,
                    #[trigger] before[i],
                ) == group_value(b, before[i]) by {
                    assert(all[i] == before[i]);
                }
            }
            if in_one_group(a, b, before) && grouped_value(a, e) == grouped_value(b, e) {
                assert forall|i: int| 0 <= i < all.len() implies group_value(a, #[trigger] all[i])
                    == group_value(b, all[i]) by {
                    if i < before.len() {
                        assert(all[i] == before[i]);
                    }
                }
            }
        }
    }
}

/// The groupings are recorded in order, each with the type of its column, and
/// with the number of the function or operator that the query calls.
pub proof fn lemma_group_numbers(e: Expr, rels: QueryRels, ctx: Option<AggChainCtx>)
    requires
        group_step(e, rels, ctx) is Some,
    ensures
        ({
            let g = group_step(e, rels, ctx)->0.group;
            match g.expr {
                GroupExpr::RegexpReplace { func_oid, .. } => e.head matches Head::FuncExpr(f)
                    && f.funcid == func_oid,
                GroupExpr::DateTrunc { func_oid, .. } => e.head matches Head::FuncExpr(f)
                    && f.funcid == func_oid,
                GroupExpr::Extract { func_oid, .. } => e.head matches Head::FuncExpr(f) && f.funcid
                    == func_oid,
                GroupExpr::AddConst { op_oid, .. } => e.head matches Head::OpExpr(op) && op.opno
                    == op_oid,
                GroupExpr::CaseWhen(_) => e.head is CaseExpr && g.type_oid == 25,
                GroupExpr::Column => match ctx {
                    Some(c) => c.synthetic(e) matches Some((col, t)) ==> g.type_oid == t,
                    None => true,
                },
            }
        }),
{
}

/// A catalog name is that of a function exactly where it is spelt so.
pub proof fn lemma_function_names(s: Seq<char>)
    ensures
        func_name_of(s) == FuncName::Sum <==> s == "sum"@,
        func_name_of(s) == FuncName::Avg <==> s == "avg"@,
        func_name_of(s) == FuncName::Count <==> s == "count"@,
        func_name_of(s) == FuncName::Min <==> s == "min"@,
        func_name_of(s) == FuncName::Max <==> s == "max"@,
        func_name_of(s) == FuncName::Length <==> s == "length"@,
        func_name_of(s) == FuncName::RegexpReplace <==> s == "regexp_replace"@,
        func_name_of(s) == FuncName::DateTrunc <==> s == "date_trunc"@,
        func_name_of(s) == FuncName::Extract <==> s == "extract"@,
        func_name_of(s) == FuncName::DatePart <==> s == "date_part"@,
        func_name_of(s) == FuncName::ToTimestamp <==> s == "to_timestamp"@,
{
    reveal_strlit("sum");
    reveal_strlit("avg");
    reveal_strlit("count");
    reveal_strlit("min");
    reveal_strlit("max");
    reveal_strlit("length");
    reveal_strlit("regexp_replace");
    reveal_strlit("date_trunc");
    reveal_strlit("extract");
    reveal_strlit("date_part");
    reveal_strlit("to_timestamp");
    assert("sum"@[0] != "avg"@[0] && "min"@[1] != "max"@[1] && "sum"@[0] != "min"@[0] && "sum"@[0]
        != "max"@[0] && "avg"@[0] != "min"@[0] && "avg"@[0] != "max"@[0]);
    assert("length"@.len() == 6 && "extract"@.len() == 7 && "date_part"@.len() == 9
        && "date_trunc"@.len() == 10 && "to_timestamp"@.len() == 12 && "regexp_replace"@.len()
        == 14 && "count"@.len() == 5);
}

/// A catalog name is that of an operator exactly where it is spelt so.
pub proof fn lemma_operator_names(s: Seq<char>)
    ensures
        op_name_of(s) == OpName::Plus <==> s == "+"@,
        op_name_of(s) == OpName::Minus <==> s == "-"@,
        op_name_of(s) == OpName::Star <==> s == "*"@,
        op_name_of(s) == OpName::Slash <==> s == "/"@,
        op_name_of(s) == OpName::Eq <==> s == "="@,
        op_name_of(s) == OpName::Ne <==> s == "<>"@,
        op_name_of(s) == OpName::BangEq <==> s == "!="@,
        op_name_of(s) == OpName::Lt <==> s == "<"@,
        op_name_of(s) == OpName::Le <==> s == "<="@,
        op_name_of(s) == OpName::Gt <==> s == ">"@,
        op_name_of(s) == OpName::Ge <==> s == ">="@,
        op_name_of(s) == OpName::Like <==> s == "~~"@,
        op_name_of(s) == OpName::NotLike <==> s == "!~~"@,
{
    reveal_strlit("+");
    reveal_strlit("-");
    reveal_strlit("*");
    reveal_strlit("/");
    reveal_strlit("=");
    reveal_strlit("<>");
    reveal_strlit("!=");
    reveal_strlit("<");
    reveal_strlit("<=");
    reveal_strlit(">");
    reveal_strlit(">=");
    reveal_strlit("~~");
    reveal_strlit("!~~");
    assert("+"@[0] == '+' && "-"@[0] == '-' && "*"@[0] == '*' && "/"@[0] == '/' && "="@[0] == '='
        && "<"@[0] == '<' && ">"@[0] == '>');
    assert("<>"@[1] == '>' && "<="@[1] == '=' && "!="@[0] == '!' && ">="@[0] == '>' && "~~"@[0]
        == '~');
    assert("<>"@[0] == '<' && "<="@[0] == '<');
    assert("!~~"@.len() == 3);
    assert("<"@.len() == 1 && ">"@.len() == 1 && "="@.len() == 1 && "<>"@.len() == 2 && "<="@.len()
        == 2 && ">="@.len() == 2 && "!="@.len() == 2 && "~~"@.len() == 2);
}

} // verus!
