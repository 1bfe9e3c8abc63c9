//! HAVING clauses and limits that an aggregate scan applies itself.

use vstd::prelude::*;
use crate::pg_types::{
    is_float_oid, is_float_type, is_integer_oid, is_integer_type, is_temporal_oid, is_temporal_type,
    INT2OID, INT4OID,
};
use crate::scan::agg_types::{AggSpec, AggType, HavingFilter, HavingOp};
use crate::scan::exprs::{by_ident, find_ident, minmax_difference, try_match_derived_minmax_topn};
use crate::scan::node::{
    dup_nodes, exprs, group_node, is_null, BoolOp, Const, Expr, Head, Node, OpName, Var,
};
use crate::scan::path::{
    clear_agg_topn_info, set_agg_topn_info, set_agg_topn_info_derived_minmax, AggTopnInfo,
    PathState, TOPN_SORT_COL_DERIVED,
};
use crate::scan::upper::{qtargets, QTarget, QueryTarget};
use crate::search::{first_where, lemma_first_is, lemma_first_none, lemma_first_where};

verus! {

// ---------------------------------------------------------------------------
// HAVING
// ---------------------------------------------------------------------------

/// The conditions of a HAVING clause; none for an OR or a NOT.
pub open spec fn having_conditions(e: Expr) -> Option<Seq<Expr>> {
    match e.head {
        Head::List => Some(e.args),
        Head::BoolExpr(op) => if op == BoolOp::And {
            Some(e.args)
        } else {
            None
        },
        _ => Some(seq![e]),
    }
}

pub open spec fn having_op(op: OpName) -> Option<HavingOp> {
    match op {
        OpName::Gt => Some(HavingOp::Gt),
        OpName::Lt => Some(HavingOp::Lt),
        OpName::Ge => Some(HavingOp::Ge),
        OpName::Le => Some(HavingOp::Le),
        OpName::Eq => Some(HavingOp::Eq),
        OpName::Ne | OpName::BangEq => Some(HavingOp::Ne),
        _ => None,
    }
}

/// The comparison with its operands exchanged.
pub open spec fn flipped(op: HavingOp) -> HavingOp {
    match op {
        HavingOp::Gt => HavingOp::Lt,
        HavingOp::Lt => HavingOp::Gt,
        HavingOp::Ge => HavingOp::Le,
        HavingOp::Le => HavingOp::Ge,
        _ => op,
    }
}

/// Exchanging the operands twice changes nothing.
pub proof fn lemma_flipped_twice(op: HavingOp)
    ensures
        flipped(flipped(op)) == op,
{
}

/// The column that the only argument of an aggregate is.
pub open spec fn arg_attno(agg: Expr) -> Option<i16> {
    if agg.args.len() == 1 && agg.args[0].args.len() > 0 {
        match agg.args[0].args[0].head {
            Head::Var(v) => Some(v.varattno),
            _ => None,
        }
    } else {
        None
    }
}

/// Whether two aggregates are the same function of all rows or of the same
/// column. One with a FILTER clause is not of all rows.
pub open spec fn same_agg(a: Expr, b: Expr) -> bool {
    match (a.head, b.head) {
        (Head::Aggref(x), Head::Aggref(y)) => x.aggfnoid == y.aggfnoid && x.aggstar == y.aggstar
            && a.aux is None && b.aux is None && (x.aggstar || (arg_attno(a) is Some && arg_attno(a) == arg_attno(b))),
        _ => false,
    }
}

/// Position of an aggregate of the HAVING clause among those of the query: the
/// same node, else the first that computes the same.
pub open spec fn having_agg(aggs: Seq<Expr>, a: Expr) -> Option<int> {
    match by_ident(aggs, a.ident) {
        Some(i) => Some(i),
        None => first_where(aggs, |x: Expr| same_agg(x, a)),
    }
}

/// An aggregate of the HAVING clause stands for itself or for one that computes
/// the same; none that has a FILTER clause stands for another.
pub proof fn lemma_having_agg(aggs: Seq<Expr>, a: Expr)
    ensures
        having_agg(aggs, a) matches Some(i) ==> 0 <= i < aggs.len() && (aggs[i].ident == a.ident
            || (same_agg(aggs[i], a) && a.aux is None)),
{
    lemma_first_where(aggs, |x: Expr| x.ident == a.ident);
    lemma_first_where(aggs, |x: Expr| same_agg(x, a));
}

/// `aggregate <op> constant`, either way round.
pub open spec fn having_filter(e: Expr, aggs: Seq<Expr>) -> Option<HavingFilter> {
    match e.head {
        Head::OpExpr(op) => if e.args.len() == 2 {
            match (e.args[0].head, e.args[1].head, having_op(op.name)) {
                (Head::Aggref(_), Head::Const(c), Some(h)) => filter_on(e.args[0], h, c, aggs),
                (Head::Const(c), Head::Aggref(_), Some(h)) => filter_on(
                    e.args[1],
                    flipped(h),
                    c,
                    aggs,
                ),
                _ => None,
            }
        } else {
            None
        },
        _ => None,
    }
}

pub open spec fn filter_on(a: Expr, op: HavingOp, c: Const, aggs: Seq<Expr>) -> Option<
    HavingFilter,
> {
    if c.constisnull {
        None
    } else {
        match having_agg(aggs, a) {
            Some(i) => Some(HavingFilter { agg_idx: i as usize, op, const_val: c.word }),
            None => None,
        }
    }
}

/// The filters of the first `n` conditions.
pub open spec fn having_filters(s: Seq<Expr>, aggs: Seq<Expr>, n: int) -> Option<Seq<HavingFilter>>
    decreases n,
{
    if n <= 0 {
        Some(Seq::empty())
    } else {
        match (having_filters(s, aggs, n - 1), having_filter(s[n - 1], aggs)) {
            (Some(before), Some(f)) => Some(before.push(f)),
            _ => None,
        }
    }
}

/// The filters of a HAVING clause; none where the scan cannot apply it.
pub open spec fn having_of(e: Expr, aggs: Seq<Expr>) -> Option<Seq<HavingFilter>> {
    match having_conditions(e) {
        Some(s) => having_filters(s, aggs, s.len() as int),
        None => None,
    }
}

fn agg_arg_attno(node: &Node) -> (r: Option<i16>)
    ensures
        r == arg_attno(node.view()),
{
    broadcast use group_node;

    if node.args.len() != 1 || node.args[0].args.len() == 0 {
        return None;
    }
    match &node.args[0].args[0].head {
        Head::Var(v) => Some(v.varattno),
        _ => None,
    }
}

fn is_same_agg(a: &Node, b: &Node) -> (r: bool)
    ensures
        r == same_agg(a.view(), b.view()),
{
    broadcast use group_node;

    match (&a.head, &b.head) {
        (Head::Aggref(x), Head::Aggref(y)) => {
            if x.aggfnoid != y.aggfnoid || x.aggstar != y.aggstar || a.aux.is_some()
                || b.aux.is_some() {
                return false;
            }
            if x.aggstar {
                return true;
            }
            match (agg_arg_attno(a), agg_arg_attno(b)) {
                (Some(m), Some(n)) => m == n,
                _ => false,
            }
        },
        _ => false,
    }
}

fn find_having_agg(aggs: &Vec<Node>, a: &Node) -> (r: Option<usize>)
    ensures
        match r {
            Some(i) => having_agg(exprs(aggs@), a.view()) == Some(i as int) && i < aggs.len(),
            None => having_agg(exprs(aggs@), a.view()) is None,
        },
{
    broadcast use group_node;

    if let Some(i) = find_ident(aggs, a.ident) {
        return Some(i);
    }
    let ghost es = exprs(aggs@);
    let ghost p = |x: Expr| same_agg(x, a.view());
    let mut i: usize = 0;
    while i < aggs.len()
        invariant
            i <= aggs.len(),
            es == exprs(aggs@),
            p == (|x: Expr| same_agg(x, a.view())),
            forall|j: int| 0 <= j < i ==> !p(#[trigger] es[j]),
            by_ident(es, a.view().ident) is None,
        decreases aggs.len() - i,
    {
        assert(es[i as int] == aggs@[i as int].view());
        if is_same_agg(&aggs[i], a) {
            proof {
                lemma_first_is(es, p, i as int);
            }
            return Some(i);
        }
        i += 1;
    }
    proof {
        lemma_first_none(es, p);
    }
    None
}

fn filter_for(a: &Node, op: HavingOp, c: &Const, aggs: &Vec<Node>) -> (r: Option<HavingFilter>)
    ensures
        r == filter_on(a.view(), op, *c, exprs(aggs@)),
{
    if c.constisnull {
        return None;
    }
    match find_having_agg(aggs, a) {
        Some(i) => Some(HavingFilter { agg_idx: i, op, const_val: c.word }),
        None => None,
    }
}

fn parse_having_condition(node: &Node, aggs: &Vec<Node>) -> (r: Option<HavingFilter>)
    ensures
        r == having_filter(node.view(), exprs(aggs@)),
{
    broadcast use group_node;

    let name = match &node.head {
        Head::OpExpr(op) => op.name,
        _ => {
            return None;
        },
    };
    if node.args.len() != 2 {
        return None;
    }
    let h = match name {
        OpName::Gt => HavingOp::Gt,
        OpName::Lt => HavingOp::Lt,
        OpName::Ge => HavingOp::Ge,
        OpName::Le => HavingOp::Le,
        OpName::Eq => HavingOp::Eq,
        OpName::Ne | OpName::BangEq => HavingOp::Ne,
        _ => {
            return None;
        },
    };
    match (&node.args[0].head, &node.args[1].head) {
        (Head::Aggref(_), Head::Const(c)) => filter_for(&node.args[0], h, c, aggs),
        (Head::Const(c), Head::Aggref(_)) => {
            let f = match h {
                HavingOp::Gt => HavingOp::Lt,
                HavingOp::Lt => HavingOp::Gt,
                HavingOp::Ge => HavingOp::Le,
                HavingOp::Le => HavingOp::Ge,
                other => other,
            };
            filter_for(&node.args[1], f, c, aggs)
        },
        _ => None,
    }
}

proof fn lemma_having_none(s: Seq<Expr>, aggs: Seq<Expr>, k: int, n: int)
    requires
        k <= n,
        having_filters(s, aggs, k) is None,
    ensures
        having_filters(s, aggs, n) is None,
    decreases n,
{
    if k < n {
        lemma_having_none(s, aggs, k, n - 1);
    }
}

/// The filters of a HAVING clause over the aggregates `aggs` of the query; none
/// where the scan cannot apply it.
pub fn parse_having(node: &Node, aggs: &Vec<Node>) -> (r: Option<Vec<HavingFilter>>)
    ensures
        match r {
            Some(v) => having_of(node.view(), exprs(aggs@)) == Some(v@),
            None => having_of(node.view(), exprs(aggs@)) is None,
        },
{
    broadcast use group_node;

    let list: Vec<Node> = match &node.head {
        Head::List => dup_nodes(&node.args),
        Head::BoolExpr(op) => {
            if *op != BoolOp::And {
                return None;
            }
            dup_nodes(&node.args)
        },
        _ => {
            let mut v: Vec<Node> = Vec::new();
            let n = node.dup();
            v.push(n);
            assert(exprs(v@) =~= seq![node.view()]);
            v
        },
    };
    let ghost s = exprs(list@);
    let ghost es = exprs(aggs@);
    assert(having_conditions(node.view()) == Some(s));
    let mut out: Vec<HavingFilter> = Vec::new();
    let mut i: usize = 0;
    while i < list.len()
        invariant
            i <= list.len(),
            s == exprs(list@),
            es == exprs(aggs@),
            having_conditions(node.view()) == Some(s),
            having_filters(s, es, i as int) == Some(out@),
        decreases list.len() - i,
    {
        assert(s[i as int] == list@[i as int].view());
        match parse_having_condition(&list[i], aggs) {
            Some(f) => {
                out.push(f);
            },
            None => {
                proof {
                    lemma_having_none(s, es, i + 1, s.len() as int);
                }
                return None;
            },
        }
        i += 1;
    }
    Some(out)
}

// ---------------------------------------------------------------------------
// ORDER BY .. LIMIT
// ---------------------------------------------------------------------------

/// The largest number of rows that a limit is applied to inside a scan.
pub const MAX_TOPN: i64 = 10_000;

/// An entry of an ORDER BY clause.
#[derive(Clone, Copy, Debug, PartialEq, Eq, Structural)]
pub struct SortEntry {
    /// Number of the target list entry.
    pub tle_ref: u32,
    /// Name of the ordering operator.
    pub sortop: OpName,
}

/// Value of a constant LIMIT; 0 where it is none.
pub open spec fn const_word(e: Expr) -> int {
    match e.head {
        Head::Const(c) => if c.constisnull {
            0
        } else {
            c.word as int
        },
        _ => 0,
    }
}

/// Number of groups that a query with this LIMIT and OFFSET needs; 0 where it
/// is unlimited, not constant, or too large.
pub open spec fn agg_limit(limit: Expr, offset: Expr) -> int {
    let n = const_word(limit);
    let total = if n > 0 && !is_null(offset) {
        match offset.head {
            Head::Const(c) => if c.constisnull {
                0
            } else {
                n + c.word
            },
            _ => 0,
        }
    } else {
        n
    };
    if total > MAX_TOPN || total < 0 {
        0
    } else {
        total
    }
}

/// The entry of the target list that ORDER BY refers to.
pub open spec fn sort_target(tlist: Seq<QTarget>, r: u32) -> Option<int> {
    first_where(tlist, |t: QTarget| t.sortgroupref == r)
}

/// Number of output columns among the first `n` entries.
pub open spec fn output_count(tlist: Seq<QTarget>, n: int) -> int
    decreases n,
{
    if n <= 0 {
        0
    } else {
        output_count(tlist, n - 1) + if tlist[n - 1].resjunk {
            0int
        } else {
            1
        }
    }
}

/// Number of the output column with the given `resno`.
pub open spec fn output_col(tlist: Seq<QTarget>, resno: i16) -> Option<int> {
    match first_where(tlist, |t: QTarget| !t.resjunk && t.resno == resno) {
        Some(i) => Some(output_count(tlist, i)),
        None => None,
    }
}

/// Whether the scan can order groups by an aggregate.
pub open spec fn sortable(a: AggSpec) -> bool {
    match a.agg_type {
        AggType::CountStar | AggType::Count | AggType::CountDistinct => true,
        AggType::Sum => a.col_type_oid == INT2OID || a.col_type_oid == INT4OID,
        AggType::Avg => is_integer_oid(a.col_type_oid) || is_float_oid(a.col_type_oid),
        AggType::Min | AggType::Max => is_integer_oid(a.col_type_oid),
    }
}

/// Whether two aggregates are the same function, both of rows or both of a column.
pub open spec fn same_func(a: Expr, b: Expr) -> bool {
    match (a.head, b.head) {
        (Head::Aggref(x), Head::Aggref(y)) => x.aggfnoid == y.aggfnoid && x.aggstar == y.aggstar,
        _ => false,
    }
}

/// Position of the aggregate that is sorted by: the same node, else the first
/// of the same function.
pub open spec fn sort_agg(aggs: Seq<Expr>, a: Expr) -> Option<int> {
    match by_ident(aggs, a.ident) {
        Some(i) => Some(i),
        None => first_where(aggs, |x: Expr| same_func(x, a)),
    }
}

/// Whether the extremes of a column of this type can be subtracted.
pub open spec fn subtractable(t: u32) -> bool {
    is_integer_oid(t) || is_temporal_oid(t)
}

/// Whether two aggregates are the maximum and the minimum of one column whose
/// values can be subtracted.
pub open spec fn is_span(mx: AggSpec, mn: AggSpec) -> bool {
    mx.agg_type == AggType::Max && mn.agg_type == AggType::Min && subtractable(mx.col_type_oid)
        && mx.col_type_oid == mn.col_type_oid && mx.col_idx == mn.col_idx
}

/// The output column of the aggregate that a query is sorted by, where the scan
/// can sort by it.
pub open spec fn direct_sort(
    s: SortEntry,
    tlist: Seq<QTarget>,
    aggs: Seq<Expr>,
    specs: Seq<AggSpec>,
) -> Option<int> {
    match sort_target(tlist, s.tle_ref) {
        Some(t) => match tlist[t].expr.head {
            Head::Aggref(_) => match sort_agg(aggs, tlist[t].expr) {
                Some(i) => if sortable(specs[i]) && s.sortop != OpName::Missing {
                    output_col(tlist, tlist[t].resno)
                } else {
                    None
                },
                None => None,
            },
            _ => None,
        },
        None => None,
    }
}

/// The aggregates whose difference a query is sorted by.
pub open spec fn span_sort(
    s: SortEntry,
    tlist: Seq<QTarget>,
    aggs: Seq<Expr>,
    specs: Seq<AggSpec>,
) -> Option<(int, int)> {
    match sort_target(tlist, s.tle_ref) {
        Some(t) => match minmax_difference(tlist[t].expr, aggs) {
            Some((i, j)) => if is_span(specs[i], specs[j]) && s.sortop != OpName::Missing {
                Some((i, j))
            } else {
                None
            },
            None => None,
        },
        None => None,
    }
}

/// The limit of a grouped query that the scan applies itself, and whether the
/// scan's output is sorted.
pub struct TopnChoice {
    pub info: Option<AggTopnInfo>,
    pub sorted: bool,
}

/// The limit of a grouped query: by an aggregate or a difference of two where
/// ORDER BY is just that, of any groups where there is no ORDER BY, else none.
pub open spec fn topn_choice(
    limit: int,
    sort: Seq<SortEntry>,
    tlist: Seq<QTarget>,
    aggs: Seq<Expr>,
    specs: Seq<AggSpec>,
) -> TopnChoice {
    if limit <= 0 {
        TopnChoice { info: None, sorted: false }
    } else if sort.len() == 0 {
        TopnChoice {
            info: Some(
                AggTopnInfo {
                    limit: limit as i64,
                    sort_col: -1i32,
                    ascending: true,
                    derived_minmax: None,
                },
            ),
            sorted: false,
        }
    } else if sort.len() == 1 {
        match (direct_sort(sort[0], tlist, aggs, specs), span_sort(sort[0], tlist, aggs, specs)) {
            (Some(col), _) => TopnChoice {
                info: Some(
                    AggTopnInfo {
                        limit: limit as i64,
                        sort_col: col as i32,
                        ascending: sort[0].sortop == OpName::Lt,
                        derived_minmax: None,
                    },
                ),
                sorted: true,
            },
            (None, Some((mx, mn))) => TopnChoice {
                info: Some(
                    AggTopnInfo {
                        limit: limit as i64,
                        sort_col: TOPN_SORT_COL_DERIVED,
                        ascending: sort[0].sortop == OpName::Lt,
                        derived_minmax: Some((mx as i32, mn as i32)),
                    },
                ),
                sorted: true,
            },
            (None, None) => TopnChoice { info: None, sorted: false },
        }
    } else {
        TopnChoice { info: None, sorted: false }
    }
}

fn find_agg_limit(limit: &Node, offset: &Node) -> (r: i64)
    ensures
        r == agg_limit(limit.view(), offset.view()),
{
    broadcast use group_node;

    let n: i64 = match &limit.head {
        Head::Const(c) => if c.constisnull {
            0
        } else {
            c.word
        },
        _ => 0,
    };
    let total: i128 = if n > 0 && !offset.is_null() {
        match &offset.head {
            Head::Const(c) => if c.constisnull {
                0
            } else {
                n as i128 + c.word as i128
            },
            _ => 0,
        }
    } else {
        n as i128
    };
    if total > MAX_TOPN as i128 || total < 0 {
        0
    } else {
        total as i64
    }
}

pub fn find_sort_target(tlist: &Vec<QueryTarget>, r: u32) -> (res: Option<usize>)
    ensures
        match res {
            Some(i) => sort_target(qtargets(tlist@), r) == Some(i as int) && i < tlist.len(),
            None => sort_target(qtargets(tlist@), r) is None,
        },
{
    let ghost tl = qtargets(tlist@);
    let ghost p = |t: QTarget| t.sortgroupref == r;
    let mut i: usize = 0;
    while i < tlist.len()
        invariant
            i <= tlist.len(),
            tl == qtargets(tlist@),
            p == (|t: QTarget| t.sortgroupref == r),
            forall|j: int| 0 <= j < i ==> !p(#[trigger] tl[j]),
        decreases tlist.len() - i,
    {
        assert(tl[i as int] == tlist@[i as int].view());
        if tlist[i].sortgroupref == r {
            proof {
                lemma_first_is(tl, p, i as int);
            }
            return Some(i);
        }
        i += 1;
    }
    proof {
        lemma_first_none(tl, p);
    }
    None
}

fn find_output_col(tlist: &Vec<QueryTarget>, resno: i16) -> (r: Option<usize>)
    ensures
        match r {
            Some(c) => output_col(qtargets(tlist@), resno) == Some(c as int),
            None => output_col(qtargets(tlist@), resno) is None,
        },
{
    let ghost tl = qtargets(tlist@);
    let ghost p = |t: QTarget| !t.resjunk && t.resno == resno;
    let mut count: usize = 0;
    let mut i: usize = 0;
    while i < tlist.len()
        invariant
            i <= tlist.len(),
            count <= i,
            tl == qtargets(tlist@),
            p == (|t: QTarget| !t.resjunk && t.resno == resno),
            count == output_count(tl, i as int),
            forall|j: int| 0 <= j < i ==> !p(#[trigger] tl[j]),
        decreases tlist.len() - i,
    {
        assert(tl[i as int] == tlist@[i as int].view());
        if !tlist[i].resjunk {
            if tlist[i].resno == resno {
                proof {
                    lemma_first_is(tl, p, i as int);
                }
                return Some(count);
            }
            count += 1;
        }
        i += 1;
    }
    proof {
        lemma_first_none(tl, p);
    }
    None
}

fn is_sortable(a: &AggSpec) -> (r: bool)
    ensures
        r == sortable(*a),
{
    match a.agg_type {
        AggType::CountStar | AggType::Count | AggType::CountDistinct => true,
        AggType::Sum => a.col_type_oid == INT2OID || a.col_type_oid == INT4OID,
        AggType::Avg => is_integer_type(a.col_type_oid) || is_float_type(a.col_type_oid),
        AggType::Min | AggType::Max => is_integer_type(a.col_type_oid),
    }
}

fn find_sort_agg(aggs: &Vec<Node>, a: &Node) -> (r: Option<usize>)
    ensures
        match r {
            Some(i) => sort_agg(exprs(aggs@), a.view()) == Some(i as int) && i < aggs.len(),
            None => sort_agg(exprs(aggs@), a.view()) is None,
        },
{
    broadcast use group_node;

    if let Some(i) = find_ident(aggs, a.ident) {
        return Some(i);
    }
    let ghost es = exprs(aggs@);
    let ghost p = |x: Expr| same_func(x, a.view());
    let mut i: usize = 0;
    while i < aggs.len()
        invariant
            i <= aggs.len(),
            es == exprs(aggs@),
            p == (|x: Expr| same_func(x, a.view())),
            forall|j: int| 0 <= j < i ==> !p(#[trigger] es[j]),
            by_ident(es, a.view().ident) is None,
        decreases aggs.len() - i,
    {
        assert(es[i as int] == aggs@[i as int].view());
        let hit = match (&aggs[i].head, &a.head) {
            (Head::Aggref(x), Head::Aggref(y)) => x.aggfnoid == y.aggfnoid && x.aggstar
                == y.aggstar,
            _ => false,
        };
        if hit {
            proof {
                lemma_first_is(es, p, i as int);
            }
            return Some(i);
        }
        i += 1;
    }
    proof {
        lemma_first_none(es, p);
    }
    None
}

fn find_direct_sort(
    s: SortEntry,
    tlist: &Vec<QueryTarget>,
    aggs: &Vec<Node>,
    specs: &Vec<AggSpec>,
) -> (r: Option<usize>)
    requires
        specs@.len() == aggs@.len(),
    ensures
        match r {
            Some(c) => direct_sort(s, qtargets(tlist@), exprs(aggs@), specs@) == Some(c as int),
            None => direct_sort(s, qtargets(tlist@), exprs(aggs@), specs@) is None,
        },
{
    broadcast use group_node;

    let t = match find_sort_target(tlist, s.tle_ref) {
        Some(t) => t,
        None => {
            return None;
        },
    };
    assert(qtargets(tlist@)[t as int] == tlist@[t as int].view());
    if !matches!(tlist[t].expr.head, Head::Aggref(_)) {
        return None;
    }
    match find_sort_agg(aggs, &tlist[t].expr) {
        Some(i) => {
            if !is_sortable(&specs[i]) || s.sortop == OpName::Missing {
                return None;
            }
            find_output_col(tlist, tlist[t].resno)
        },
        None => None,
    }
}

fn find_span_sort(
    s: SortEntry,
    tlist: &Vec<QueryTarget>,
    aggs: &Vec<Node>,
    specs: &Vec<AggSpec>,
) -> (r: Option<(usize, usize)>)
    requires
        specs@.len() == aggs@.len(),
    ensures
        match r {
            Some((i, j)) => span_sort(s, qtargets(tlist@), exprs(aggs@), specs@) == Some(
                (i as int, j as int),
            ),
            None => span_sort(s, qtargets(tlist@), exprs(aggs@), specs@) is None,
        },
{
    let t = match find_sort_target(tlist, s.tle_ref) {
        Some(t) => t,
        None => {
            return None;
        },
    };
    assert(qtargets(tlist@)[t as int] == tlist@[t as int].view());
    match try_match_derived_minmax_topn(&tlist[t].expr, aggs) {
        Some((i, j)) => {
            let mx = specs[i];
            let mn = specs[j];
            let span = mx.agg_type == AggType::Max && mn.agg_type == AggType::Min && (
            is_integer_type(mx.col_type_oid) || is_temporal_type(mx.col_type_oid))
                && mx.col_type_oid == mn.col_type_oid && mx.col_idx == mn.col_idx;
            if span && s.sortop != OpName::Missing {
                Some((i, j))
            } else {
                None
            }
        },
        None => None,
    }
}

/// Decides the limit that an aggregate scan applies itself and keeps it for the
/// plan; an earlier one is dropped. Returns whether the scan's output is sorted.
pub fn choose_agg_topn(
    state: &mut PathState,
    has_group_by: bool,
    limit: &Node,
    offset: &Node,
    sort: &Vec<SortEntry>,
    tlist: &Vec<QueryTarget>,
    aggs: &Vec<Node>,
    specs: &Vec<AggSpec>,
) -> (r: bool)
    requires
        specs@.len() == aggs@.len(),
    ensures
        ({
            let choice = topn_choice(
                if has_group_by {
                    agg_limit(limit.view(), offset.view())
                } else {
                    0
                },
                sort@,
                qtargets(tlist@),
                exprs(aggs@),
                specs@,
            );
            final(state).agg_topn == choice.info && r == choice.sorted
        }),
        final(state).having_filters == old(state).having_filters,
{
    clear_agg_topn_info(state);
    if !has_group_by {
        return false;
    }
    let n: i64 = find_agg_limit(limit, offset);
    if n <= 0 {
        return false;
    }
    if sort.len() == 0 {
        set_agg_topn_info(state, n, -1, true);
        return false;
    }
    if sort.len() != 1 {
        return false;
    }
    let s = sort[0];
    let ascending = s.sortop == OpName::Lt;
    if let Some(col) = find_direct_sort(s, tlist, aggs, specs) {
        let c: i32 = #[verifier::truncate]
        (col as i32);
        set_agg_topn_info(state, n, c, ascending);
        return true;
    }
    if let Some((mx, mn)) = find_span_sort(s, tlist, aggs, specs) {
        let max_idx: i32 = #[verifier::truncate]
        (mx as i32);
        let min_idx: i32 = #[verifier::truncate]
        (mn as i32);
        set_agg_topn_info_derived_minmax(state, n, ascending, max_idx, min_idx);
        return true;
    }
    false
}

/// A limit that is kept is between 1 and `MAX_TOPN`.
pub proof fn lemma_topn_limit_bounded(
    limit: Expr,
    offset: Expr,
    sort: Seq<SortEntry>,
    tlist: Seq<QTarget>,
    aggs: Seq<Expr>,
    specs: Seq<AggSpec>,
)
    ensures
        topn_choice(agg_limit(limit, offset), sort, tlist, aggs, specs).info matches Some(info)
            ==> 1 <= info.limit <= MAX_TOPN,
{
}

} // verus!
