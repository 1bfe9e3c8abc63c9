//! What the conditions of a query mean, and what metadata may be asked.

use vstd::prelude::*;
use crate::scan::catalog::Relation;
use crate::scan::node::{unrelabel, BoolOp, Const, Expr, Head, OpName, Var};
use crate::scan::quals::implicit_ands;
use crate::scan::time_bounds::{contained, meta_bounds, meta_bounds_list, unbounded, TimeBounds};
use crate::scan::upper_path::{meta_where, upper_path, UpperCatalog, UpperQuery};
use crate::text::texts;

verus! {

/// The instant that a time constant stands for, in microseconds: a timestamp's
/// word counts microseconds, the low 32 bits of a date's count days.
pub open spec fn instant(c: Const) -> int {
    if c.consttype == 1082 {
        (c.word as i32) * 86_400_000_000
    } else {
        c.word as int
    }
}

/// Whether `a <op> b`.
pub open spec fn compares(a: int, op: OpName, b: int) -> bool {
    match op {
        OpName::Eq => a == b,
        OpName::Ne | OpName::BangEq => a != b,
        OpName::Lt => a < b,
        OpName::Le => a <= b,
        OpName::Gt => a > b,
        OpName::Ge => a >= b,
        _ => false,
    }
}

/// A row as conditions see it: its time, whether it meets a comparison of a
/// column with a constant (`true` where the constant stands on the left), and
/// whether it meets anything else.
pub struct CondRow {
    pub time: int,
    pub column: spec_fn(Seq<char>, OpName, Const, bool) -> bool,
    pub other: spec_fn(Expr) -> bool,
}

/// A table as conditions see it.
pub struct CondTable {
    pub relation: Relation,
    pub time_column: Seq<char>,
    pub segment_by: Seq<Seq<char>>,
}

/// Whether a type is a date or a timestamp with or without a time zone.
pub open spec fn is_time_type(t: u32) -> bool {
    t == 1082 || t == 1114 || t == 1184
}

/// Whether a constant says when: a time that is not null.
pub open spec fn says_when(c: Const) -> bool {
    !c.constisnull && is_time_type(c.consttype)
}

/// Whether a row meets `column <op> constant`, or `constant <op> column`.
pub open spec fn meets_column(
    t: CondTable,
    row: CondRow,
    name: Seq<char>,
    op: OpName,
    c: Const,
    constant_first: bool,
) -> bool {
    if !t.segment_by.contains(name) && name == t.time_column && says_when(c) {
        if constant_first {
            compares(instant(c), op, row.time)
        } else {
            compares(row.time, op, instant(c))
        }
    } else {
        (row.column)(name, op, c, constant_first)
    }
}

/// The column and the constant that a comparison is of, and whether the constant
/// stands on the left.
pub open spec fn compared(e: Expr) -> Option<(Var, Const, bool)> {
    if e.head is OpExpr && e.args.len() == 2 {
        match (unrelabel(e.args[0]).head, unrelabel(e.args[1]).head) {
            (Head::Var(v), Head::Const(c)) => Some((v, c, false)),
            (Head::Const(c), Head::Var(v)) => Some((v, c, true)),
            _ => None,
        }
    } else {
        None
    }
}

/// Whether a row meets a condition.
pub open spec fn meets_condition(t: CondTable, row: CondRow, e: Expr) -> bool
    decreases e,
{
    match e.head {
        Head::BoolExpr(BoolOp::And) => forall|i: int|
            0 <= i < e.args.len() ==> meets_condition(t, row, #[trigger] e.args[i]),
        Head::OpExpr(op) => match compared(e) {
            Some((v, c, constant_first)) => match t.relation.name_of(v.varattno) {
                Some(name) => meets_column(t, row, name, op.name, c, constant_first),
                None => (row.other)(e),
            },
            None => (row.other)(e),
        },
        _ => (row.other)(e),
    }
}

/// Whether the row is of a segment that was picked: it meets every equality on a
/// column that segments are split by.
pub open spec fn is_picked(t: CondTable, row: CondRow) -> bool {
    forall|name: Seq<char>, c: Const, first: bool|
        t.segment_by.contains(name) ==> #[trigger] (row.column)(name, OpName::Eq, c, first)
}

/// Whether the instants of the time constants of a condition, and the ones after
/// them, have 64 bits.
pub open spec fn instants_fit(e: Expr) -> bool
    decreases e,
{
    match e.head {
        Head::BoolExpr(BoolOp::And) => forall|i: int|
            0 <= i < e.args.len() ==> instants_fit(#[trigger] e.args[i]),
        _ => compared(e) matches Some((v, c, first)) ==> is_time_type(c.consttype) ==> i64::MIN
            <= instant(c) < i64::MAX,
    }
}

proof fn lemma_date_word(d: i32)
    requires
        i64::MIN <= d * 86_400_000_000 <= i64::MAX,
    ensures
        (d as i64).wrapping_mul(86_400_000_000i64) == d * 86_400_000_000,
{
}

/// The bounds that a condition leaves hold exactly the times that meet it, among
/// the rows of segments that were picked: dates count as their first instant, and
/// either side of a comparison may be the constant.
pub proof fn lemma_bounds_hold_what_qualifies(
    t: CondTable,
    row: CondRow,
    e: Expr,
    b: TimeBounds,
)
    requires
        is_picked(t, row),
        instants_fit(e),
        meta_bounds(e, t.relation, t.time_column, t.segment_by, b) is Some,
    ensures
        meta_bounds(e, t.relation, t.time_column, t.segment_by, b)->0.holds(row.time) <==> b.holds(
            row.time,
        ) && meets_condition(t, row, e),
    decreases e, 0int,
{
    if e.head is BoolExpr {
        lemma_bounds_of_list(t, row, e.args, b, e.args.len() as int);
    } else {
        let (v, c, first) = compared(e)->0;
        let name = t.relation.name_of(v.varattno)->0;
        if t.segment_by.contains(name) {
            assert((row.column)(name, OpName::Eq, c, first));
        } else if c.consttype == 1082 {
            lemma_date_word(c.word as i32);
        }
    }
}

proof fn lemma_bounds_of_list(
    t: CondTable,
    row: CondRow,
    s: Seq<Expr>,
    b: TimeBounds,
    n: int,
)
    requires
        is_picked(t, row),
        0 <= n <= s.len(),
        forall|i: int| 0 <= i < n ==> instants_fit(#[trigger] s[i]),
        meta_bounds_list(s, t.relation, t.time_column, t.segment_by, b, n) is Some,
    ensures
        meta_bounds_list(s, t.relation, t.time_column, t.segment_by, b, n)->0.holds(row.time)
            <==> b.holds(row.time) && forall|i: int|
            0 <= i < n ==> meets_condition(t, row, #[trigger] s[i]),
    decreases s, n,
{
    if n > 0 {
        lemma_bounds_of_list(t, row, s, b, n - 1);
        let c = meta_bounds_list(s, t.relation, t.time_column, t.segment_by, b, n - 1)->0;
        lemma_bounds_hold_what_qualifies(t, row, s[n - 1], c);
    }
}

/// Whether metadata can answer a condition at all: a range of the time column, an
/// equality on a column that segments are split by, or an AND of such.
pub open spec fn metadata_answers(t: CondTable, e: Expr) -> bool
    decreases e,
{
    match e.head {
        Head::BoolExpr(op) => op == BoolOp::And && e.args.len() > 0 && forall|i: int|
            0 <= i < e.args.len() ==> metadata_answers(t, #[trigger] e.args[i]),
        Head::OpExpr(op) => compared(e) matches Some((v, c, first)) && (
        t.relation.name_of(v.varattno) matches Some(name) && if t.segment_by.contains(name) {
            op.name == OpName::Eq
        } else {
            name == t.time_column && says_when(c) && (op.name == OpName::Lt || op.name == OpName::Le
                || op.name == OpName::Gt || op.name == OpName::Ge)
        }),
        _ => false,
    }
}

/// Conditions that metadata can answer are told from others.
pub proof fn lemma_what_metadata_answers(t: CondTable, e: Expr, b: TimeBounds)
    ensures
        meta_bounds(e, t.relation, t.time_column, t.segment_by, b) is Some <==> metadata_answers(
            t,
            e,
        ),
    decreases e, 0int,
{
    if e.head is BoolExpr {
        lemma_list_answers(t, e.args, b, e.args.len() as int);
    }
}

proof fn lemma_list_answers(t: CondTable, s: Seq<Expr>, b: TimeBounds, n: int)
    requires
        0 <= n <= s.len(),
    ensures
        meta_bounds_list(s, t.relation, t.time_column, t.segment_by, b, n) is Some <==> forall|
            i: int,
        |
            0 <= i < n ==> metadata_answers(t, #[trigger] s[i]),
    decreases s, n,
{
    if n > 0 {
        lemma_list_answers(t, s, b, n - 1);
        match meta_bounds_list(s, t.relation, t.time_column, t.segment_by, b, n - 1) {
            Some(c) => lemma_what_metadata_answers(t, s[n - 1], c),
            None => {
                let i = choose|i: int| 0 <= i < n - 1 && !metadata_answers(t, #[trigger] s[i]);
                assert(!metadata_answers(t, s[i]));
            },
        }
    }
}

/// Whether a partition's times, from `range.0` up to but without `range.1`, all
/// lie in the bounds.
pub proof fn lemma_contained_exactly(b: TimeBounds, range: (i64, i64))
    requires
        range.0 < range.1,
    ensures
        contained(b, range) <==> forall|t: int| range.0 <= t < range.1 ==> #[trigger] b.holds(t),
{
    if forall|t: int| range.0 <= t < range.1 ==> #[trigger] b.holds(t) {
        assert(b.holds(range.0 as int));
        assert(b.holds(range.1 - 1));
    }
}

/// A list of conditions holds where the condition that it was made of does.
pub proof fn lemma_implicit_ands(t: CondTable, row: CondRow, e: Expr)
    requires
        e.head is BoolExpr || e.head is OpExpr,
    ensures
        meets_condition(t, row, e) <==> forall|i: int|
            0 <= i < implicit_ands(e).len() ==> meets_condition(
                t,
                row,
                #[trigger] implicit_ands(e)[i],
            ),
{
    let s = implicit_ands(e);
    if !(e.head is BoolExpr && e.head->BoolExpr_0 == BoolOp::And) {
        assert(s =~= seq![e]);
        assert(s[0] == e);
    }
}

/// A constant condition is left out of a list exactly where it is TRUE; one that is
/// FALSE or NULL stays, and a list stands for its members.
pub proof fn lemma_constant_conditions(t: CondTable, row: CondRow, e: Expr)
    requires
        e.head is Const || e.head is List || e.head is Null,
        e.head matches Head::Const(c) ==> ((row.other)(e) <==> c.consttype == 16 && !c.constisnull
            && c.word != 0),
    ensures
        e.head is Const ==> (meets_condition(t, row, e) <==> forall|i: int|
            0 <= i < implicit_ands(e).len() ==> meets_condition(
                t,
                row,
                #[trigger] implicit_ands(e)[i],
            )),
        e.head is List ==> implicit_ands(e) == e.args,
        e.head is Null ==> implicit_ands(e).len() == 0,
{
    let s = implicit_ands(e);
    if s.len() > 0 && e.head is Const {
        assert(s[0] == e);
    }
}

/// The table of a catalog as conditions see it.
pub open spec fn cond_table(cat: UpperCatalog) -> CondTable {
    CondTable {
        relation: cat.parent->0.relation,
        time_column: cat.parent->0.time_column@,
        segment_by: texts(cat.parent->0.segment_by@),
    }
}

/// Where metadata answers a WHERE clause, it counts no row that the clause leaves
/// out: every row of a picked segment of any partition meets every condition.
pub proof fn lemma_metadata_rows_qualify(q: UpperQuery, cat: UpperCatalog, k: int, row: CondRow)
    requires
        meta_where(q, cat),
        forall|i: int| 0 <= i < q.where_conditions().len() ==> instants_fit(
            #[trigger] q.where_conditions()[i],
        ),
        is_picked(cond_table(cat), row),
        cat.partition_ranges matches Some(v) ==> 0 <= k < v@.len() && v@[k].0 <= row.time < v@[k].1,
    ensures
        cat.parent is Some,
        forall|i: int| 0 <= i < q.where_conditions().len() ==> meets_condition(
            cond_table(cat),
            row,
            #[trigger] q.where_conditions()[i],
        ),
{
    let s = q.where_conditions();
    let t = cond_table(cat);
    let n = s.len() as int;
    lemma_bounds_of_list(t, row, s, unbounded(), n);
    let b = meta_bounds_list(s, t.relation, t.time_column, t.segment_by, unbounded(), n)->0;
    if b.lo is Some || b.hi is Some {
        let v = cat.partition_ranges->0;
        assert(contained(b, v@[k]));
    }
    assert(b.holds(row.time));
}

/// A query's rows are answered from metadata only where every row that metadata
/// counts meets the WHERE clause.
pub proof fn lemma_metadata_paths_qualify(q: UpperQuery, cat: UpperCatalog, k: int, row: CondRow)
    requires
        upper_path(q, cat) is Count || upper_path(q, cat) is MinMax,
        q.has_where(),
        forall|i: int| 0 <= i < q.where_conditions().len() ==> instants_fit(
            #[trigger] q.where_conditions()[i],
        ),
        is_picked(cond_table(cat), row),
        cat.partition_ranges matches Some(v) ==> 0 <= k < v@.len() && v@[k].0 <= row.time < v@[k].1,
    ensures
        forall|i: int| 0 <= i < q.where_conditions().len() ==> meets_condition(
            cond_table(cat),
            row,
            #[trigger] q.where_conditions()[i],
        ),
{
    crate::scan::upper_path::lemma_no_condition_is_dropped(q, cat);
    lemma_metadata_rows_qualify(q, cat, k, row);
}

} // verus!
