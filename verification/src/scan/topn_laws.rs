//! What a limit and the filters of HAVING must keep when a scan applies them.

use vstd::prelude::*;
use crate::scan::agg_types::{AggSpec, AggType, HavingFilter, HavingOp};
use crate::scan::exprs::{lemma_stripping_keeps_order, monotonic_inner, under_monotonic};
use crate::scan::having::{
    agg_limit, direct_sort, having_conditions, having_filter, having_filters, having_of, is_span,
    output_count, sort_target, sortable, span_sort, topn_choice, SortEntry,
};
use crate::scan::hook::{topn_info, PathKey, SortDirection};
use crate::scan::meta_laws::compares;
use crate::scan::node::{is_null, unrelabel, BoolOp, Const, Expr, Head, OpName};
use crate::scan::upper::QTarget;
use crate::search::{first_where, lemma_first_where};

verus! {

// ---------------------------------------------------------------------------
// LIMIT and OFFSET
// ---------------------------------------------------------------------------

/// The number in a constant.
pub open spec fn constant_number(e: Expr) -> Option<int> {
    match e.head {
        Head::Const(c) => if c.constisnull {
            None
        } else {
            Some(c.word as int)
        },
        _ => None,
    }
}

/// How many rows a query returns and how many it skips first, where both are
/// constants; no OFFSET, or a NULL, skips none.
pub open spec fn window(limit: Expr, offset: Expr) -> Option<(int, int)> {
    match constant_number(limit) {
        Some(n) => match constant_number(offset) {
            Some(k) => Some((n, k)),
            None => if is_null(offset) || offset.head is Const {
                Some((n, 0int))
            } else {
                None
            },
        },
        None => None,
    }
}

/// `n` of the rows, after the first `k`.
pub open spec fn page<G>(rows: Seq<G>, n: int, k: int) -> Seq<G> {
    rows.subrange(
        if k < rows.len() {
            k
        } else {
            rows.len() as int
        },
        if n + k < rows.len() {
            n + k
        } else {
            rows.len() as int
        },
    )
}

/// The first `n` rows.
pub open spec fn first_rows<G>(rows: Seq<G>, n: int) -> Seq<G> {
    if n < rows.len() {
        rows.subrange(0, n)
    } else {
        rows
    }
}

proof fn lemma_page_of_first<G>(rows: Seq<G>, n: int, k: int)
    requires
        n >= 0,
        k >= 0,
    ensures
        page(first_rows(rows, n + k), n, k) == page(rows, n, k),
{
    assert(page(first_rows(rows, n + k), n, k) =~= page(rows, n, k));
}

/// A limit that is kept for an aggregate scan is LIMIT and OFFSET together, and
/// so enough: the page that the query asks for is that of all groups in order,
/// though the scan puts out no more than the limit.
pub proof fn lemma_group_limit_is_enough<G>(limit: Expr, offset: Expr, groups: Seq<G>)
    requires
        agg_limit(limit, offset) > 0,
        window(limit, offset) matches Some((n, k)) ==> k >= 0,
    ensures
        window(limit, offset) matches Some((n, k)) && agg_limit(limit, offset) == n + k && n > 0
            && page(first_rows(groups, agg_limit(limit, offset)), n, k) == page(groups, n, k),
{
    let (n, k) = window(limit, offset)->0;
    lemma_page_of_first(groups, n, k);
}

/// LIMIT and OFFSET are kept for an aggregate scan where they are constants of at
/// most 10000 together.
pub proof fn lemma_group_limit_is_kept(limit: Expr, offset: Expr, n: int, k: int)
    requires
        constant_number(limit) == Some(n),
        n > 0,
        k >= 0,
        constant_number(offset) == Some(k) || (is_null(offset) && k == 0),
    ensures
        agg_limit(limit, offset) == if n + k <= 10_000 {
            n + k
        } else {
            0
        },
{
}

/// A limit that is kept for the scan of rows is LIMIT and OFFSET together, and so
/// enough; the rows are sorted by the first key, in its direction.
pub proof fn lemma_row_limit_is_enough<G>(
    is_agg: bool,
    limit: Expr,
    offset: Expr,
    keys: Seq<PathKey>,
    rows: Seq<G>,
)
    requires
        topn_info(is_agg, limit, offset, keys).limit > 0,
        window(limit, offset) matches Some((n, k)) ==> k >= 0,
    ensures
        ({
            let t = topn_info(is_agg, limit, offset, keys);
            &&& window(limit, offset) matches Some((n, k)) && t.limit == n + k && n > 0 && page(
                first_rows(rows, t.limit as int),
                n,
                k,
            ) == page(rows, n, k)
            &&& !is_agg
            &&& t.limit <= 10_000
            &&& keys.len() > 0
            &&& keys[0].direction == SortDirection::Ascending <==> t.ascending
            &&& keys[0].direction != SortDirection::Other
            &&& t.nulls_first == keys[0].nulls_first
            &&& t.multi_col <==> keys.len() > 1
        }),
{
    let (n, k) = window(limit, offset)->0;
    lemma_page_of_first(rows, n, k);
}

/// LIMIT and OFFSET are kept for the scan of rows where they are constants of at
/// most 10000 together, and the query is sorted and does not aggregate.
pub proof fn lemma_row_limit_is_kept(
    limit: Expr,
    offset: Expr,
    keys: Seq<PathKey>,
    n: int,
    k: int,
)
    requires
        window(limit, offset) == Some((n, k)),
        n > 0,
        k >= 0,
        n + k <= 10_000,
        keys.len() > 0,
        keys[0].direction != SortDirection::Other,
    ensures
        topn_info(false, limit, offset, keys).limit == n + k,
{
}

// ---------------------------------------------------------------------------
// ORDER BY
// ---------------------------------------------------------------------------

/// The entries that are put out, in order.
pub open spec fn put_out(tlist: Seq<QTarget>, n: int) -> Seq<QTarget>
    decreases n,
{
    if n <= 0 {
        Seq::empty()
    } else if tlist[n - 1].resjunk {
        put_out(tlist, n - 1)
    } else {
        put_out(tlist, n - 1).push(tlist[n - 1])
    }
}

proof fn lemma_put_out(tlist: Seq<QTarget>, i: int, n: int)
    requires
        0 <= i < n <= tlist.len(),
        !tlist[i].resjunk,
    ensures
        0 <= output_count(tlist, i) < put_out(tlist, n).len(),
        put_out(tlist, n)[output_count(tlist, i)] == tlist[i],
        put_out(tlist, n).len() == output_count(tlist, n),
    decreases n,
{
    lemma_put_out_len(tlist, n);
    lemma_put_out_len(tlist, i);
    if i < n - 1 {
        lemma_put_out(tlist, i, n - 1);
    } else {
        lemma_put_out_len(tlist, n - 1);
    }
}

proof fn lemma_put_out_len(tlist: Seq<QTarget>, n: int)
    requires
        0 <= n,
    ensures
        put_out(tlist, n).len() == output_count(tlist, n),
    decreases n,
{
    if n > 0 {
        lemma_put_out_len(tlist, n - 1);
    }
}

/// Whether no two entries of a target list have the same number.
pub open spec fn numbers_differ(tlist: Seq<QTarget>) -> bool {
    forall|i: int, j: int|
        0 <= i < j < tlist.len() ==> (#[trigger] tlist[i]).resno != (#[trigger] tlist[j]).resno
}

/// A limit without ORDER BY takes any groups. One with ORDER BY is by that one
/// entry: either the output column that the limit names is the entry, an
/// aggregate, or the limit is by a difference of extremes. It is ascending
/// exactly where the entry is sorted by `<`.
pub proof fn lemma_limit_sorts_by_order(
    limit: int,
    sort: Seq<SortEntry>,
    tlist: Seq<QTarget>,
    aggs: Seq<Expr>,
    specs: Seq<AggSpec>,
)
    requires
        numbers_differ(tlist),
        tlist.len() <= i32::MAX,
        aggs.len() <= i32::MAX,
        topn_choice(limit, sort, tlist, aggs, specs).info is Some,
    ensures
        ({
            let choice = topn_choice(limit, sort, tlist, aggs, specs);
            let info = choice.info->0;
            &&& limit > 0 && (limit <= i64::MAX ==> info.limit == limit)
            &&& sort.len() <= 1
            &&& choice.sorted <==> sort.len() == 1
            &&& sort.len() == 0 ==> info.sort_col == -1 && info.derived_minmax is None
            &&& sort.len() == 1 ==> (info.ascending <==> sort[0].sortop == OpName::Lt)
            &&& sort.len() == 1 && info.derived_minmax is None ==> {
                let all = put_out(tlist, tlist.len() as int);
                &&& 0 <= info.sort_col < all.len()
                &&& all[info.sort_col as int].sortgroupref == sort[0].tle_ref
                &&& all[info.sort_col as int].expr.head is Aggref
            }
            &&& sort.len() == 1 ==> (info.derived_minmax matches Some((mx, mn)) ==> span_sort(
                sort[0],
                tlist,
                aggs,
                specs,
            ) == Some((mx as int, mn as int)) && info.sort_col == -3)
        }),
{
    if sort.len() == 1 {
        let s = sort[0];
        let p = |t: QTarget| t.sortgroupref == s.tle_ref;
        lemma_first_where(tlist, p);
        if let Some(col) = direct_sort(s, tlist, aggs, specs) {
            let t = sort_target(tlist, s.tle_ref)->0;
            assert(p(tlist[t]));
            let q = |x: QTarget| !x.resjunk && x.resno == tlist[t].resno;
            lemma_first_where(tlist, q);
            let i = first_where(tlist, q)->0;
            assert(q(tlist[i]));
            if i < t {
                assert(tlist[i].resno != tlist[t].resno);
            } else if t < i {
                assert(tlist[t].resno != tlist[i].resno);
            }
            lemma_put_out(tlist, i, tlist.len() as int);
            lemma_put_out_bound(tlist, tlist.len() as int);
        } else if let Some((mx, mn)) = span_sort(s, tlist, aggs, specs) {
            let inner = under_monotonic(tlist[sort_target(tlist, s.tle_ref)->0].expr);
            let (l, r) = (unrelabel(inner.args[0]), unrelabel(inner.args[1]));
            lemma_first_where(aggs, |a: Expr| a.ident == l.ident);
            lemma_first_where(aggs, |a: Expr| a.ident == r.ident);
        }
    }
}

proof fn lemma_put_out_bound(tlist: Seq<QTarget>, n: int)
    requires
        0 <= n,
    ensures
        put_out(tlist, n).len() <= n,
    decreases n,
{
    if n > 0 {
        lemma_put_out_bound(tlist, n - 1);
    }
}

/// The values of aggregates in one group: those of nodes with the same identity,
/// or under a relabelling, are the same, and a difference is one.
pub open spec fn is_valuation(x: spec_fn(Expr) -> int) -> bool {
    &&& forall|a: Expr, b: Expr|
        a.head is Aggref && b.head is Aggref && a.ident == b.ident ==> #[trigger] x(a)
            == #[trigger] x(b)
    &&& forall|e: Expr| (#[trigger] e.head) is RelabelType && e.args.len() > 0 ==> x(e) == x(
        e.args[0],
    )
    &&& forall|e: Expr|
        (#[trigger] e.head matches Head::OpExpr(op) && op.name == OpName::Minus && e.args.len() == 2)
            ==> x(e) == x(e.args[0]) - x(e.args[1])
}

/// Where a limit is by a difference of two aggregates, these are a maximum and a
/// minimum of one column, and the difference orders any two groups, of which `x`
/// and `y` give the values, as ORDER BY does.
pub proof fn lemma_span_sorts_by_order(
    s: SortEntry,
    tlist: Seq<QTarget>,
    aggs: Seq<Expr>,
    specs: Seq<AggSpec>,
    x: spec_fn(Expr) -> int,
    y: spec_fn(Expr) -> int,
)
    requires
        span_sort(s, tlist, aggs, specs) is Some,
        forall|i: int| 0 <= i < aggs.len() ==> (#[trigger] aggs[i]).head is Aggref,
        is_valuation(x),
        is_valuation(y),
        forall|w: Expr|
            (#[trigger] monotonic_inner(w)) matches Some(inner) && x(inner) <= y(inner) ==> x(w)
                <= y(w),
    ensures
        ({
            let (mx, mn) = span_sort(s, tlist, aggs, specs)->0;
            let t = sort_target(tlist, s.tle_ref)->0;
            &&& 0 <= mx < aggs.len() && 0 <= mn < aggs.len()
            &&& specs[mx].agg_type == AggType::Max && specs[mn].agg_type == AggType::Min
            &&& specs[mx].col_idx == specs[mn].col_idx
            &&& tlist[t].sortgroupref == s.tle_ref
            &&& x(aggs[mx]) - x(aggs[mn]) <= y(aggs[mx]) - y(aggs[mn]) ==> x(tlist[t].expr) <= y(
                tlist[t].expr,
            )
        }),
{
    let t = sort_target(tlist, s.tle_ref)->0;
    let e = tlist[t].expr;
    let inner = under_monotonic(e);
    let (l, r) = (unrelabel(inner.args[0]), unrelabel(inner.args[1]));
    let (mx, mn) = span_sort(s, tlist, aggs, specs)->0;
    let pt = |q: QTarget| q.sortgroupref == s.tle_ref;
    lemma_first_where(tlist, pt);
    assert(pt(tlist[t]));
    let pl = |a: Expr| a.ident == l.ident;
    let pr = |a: Expr| a.ident == r.ident;
    lemma_first_where(aggs, pl);
    lemma_first_where(aggs, pr);
    assert(pl(aggs[mx]) && pr(aggs[mn]));
    assert(x(aggs[mx]) == x(l) && y(aggs[mx]) == y(l));
    assert(x(aggs[mn]) == x(r) && y(aggs[mn]) == y(r));
    assert(x(inner.args[0]) == x(l) && y(inner.args[0]) == y(l));
    assert(x(inner.args[1]) == x(r) && y(inner.args[1]) == y(r));
    assert(inner.head is OpExpr);
    assert(x(inner) == x(l) - x(r) && y(inner) == y(l) - y(r));
    lemma_stripping_keeps_order(e, x, y);
}

// ---------------------------------------------------------------------------
// HAVING
// ---------------------------------------------------------------------------

/// A group as HAVING sees it: the values of aggregates, and whether it meets
/// anything else.
pub struct HavingGroup {
    pub agg: spec_fn(Expr) -> int,
    pub other: spec_fn(Expr) -> bool,
}

/// Whether a group meets a HAVING clause.
pub open spec fn meets_having(g: HavingGroup, e: Expr) -> bool {
    match e.head {
        Head::List | Head::BoolExpr(BoolOp::And) => forall|i: int|
            0 <= i < e.args.len() ==> meets_comparison(g, #[trigger] e.args[i]),
        _ => meets_comparison(g, e),
    }
}

/// Whether a group meets a comparison of an aggregate with a constant.
pub open spec fn meets_comparison(g: HavingGroup, e: Expr) -> bool {
    match e.head {
        Head::OpExpr(op) => if e.args.len() == 2 {
            match (e.args[0].head, e.args[1].head) {
                (Head::Aggref(_), Head::Const(c)) => compares(
                    (g.agg)(e.args[0]),
                    op.name,
                    c.word as int,
                ),
                (Head::Const(c), Head::Aggref(_)) => compares(
                    c.word as int,
                    op.name,
                    (g.agg)(e.args[1]),
                ),
                _ => (g.other)(e),
            }
        } else {
            (g.other)(e)
        },
        _ => (g.other)(e),
    }
}

/// The column that an aggregate is of.
pub open spec fn column_of_agg(a: Expr) -> Option<i16> {
    if a.args.len() == 1 && a.args[0].args.len() > 0 {
        match a.args[0].args[0].head {
            Head::Var(v) => Some(v.varattno),
            _ => None,
        }
    } else {
        None
    }
}

/// Whether two aggregates without FILTER are one function of all rows or of one
/// column.
pub open spec fn is_same_function(a: Expr, b: Expr) -> bool {
    match (a.head, b.head) {
        (Head::Aggref(x), Head::Aggref(y)) => x.aggfnoid == y.aggfnoid && x.aggstar == y.aggstar
            && a.aux is None && b.aux is None && (x.aggstar || (column_of_agg(a) is Some
            && column_of_agg(a) == column_of_agg(b))),
        _ => false,
    }
}

/// Whether the same aggregates have the same values.
pub open spec fn values_agree(g: HavingGroup) -> bool {
    forall|a: Expr, b: Expr|
        a.head is Aggref && b.head is Aggref && (a.ident == b.ident || is_same_function(a, b))
            ==> #[trigger] (g.agg)(a) == #[trigger] (g.agg)(b)
}

/// Whether a value passes a filter.
pub open spec fn passes(v: int, f: HavingFilter) -> bool {
    match f.op {
        HavingOp::Gt => v > f.const_val,
        HavingOp::Lt => v < f.const_val,
        HavingOp::Ge => v >= f.const_val,
        HavingOp::Le => v <= f.const_val,
        HavingOp::Eq => v == f.const_val,
        HavingOp::Ne => v != f.const_val,
    }
}

proof fn lemma_having_filter(e: Expr, aggs: Seq<Expr>, g: HavingGroup)
    requires
        having_filter(e, aggs) is Some,
        aggs.len() <= usize::MAX,
        forall|i: int| 0 <= i < aggs.len() ==> (#[trigger] aggs[i]).head is Aggref,
        values_agree(g),
    ensures
        ({
            let f = having_filter(e, aggs)->0;
            f.agg_idx < aggs.len() && (meets_comparison(g, e) <==> passes(
                (g.agg)(aggs[f.agg_idx as int]),
                f,
            ))
        }),
{
    let a = if e.args[0].head is Aggref {
        e.args[0]
    } else {
        e.args[1]
    };
    let f = having_filter(e, aggs)->0;
    let p = |x: Expr| x.ident == a.ident;
    let q = |x: Expr| crate::scan::having::same_agg(x, a);
    lemma_first_where(aggs, p);
    lemma_first_where(aggs, q);
    match first_where(aggs, p) {
        Some(i) => assert(p(aggs[i])),
        None => {
            let i = first_where(aggs, q)->0;
            assert(q(aggs[i]));
            assert(is_same_function(aggs[i], a));
        },
    }
    assert((g.agg)(aggs[f.agg_idx as int]) == (g.agg)(a));
}

proof fn lemma_having_at(s: Seq<Expr>, aggs: Seq<Expr>, n: int, k: int)
    requires
        0 <= k < n,
        having_filters(s, aggs, n) is Some,
    ensures
        having_filters(s, aggs, n)->0.len() == n,
        having_filter(s[k], aggs) == Some(having_filters(s, aggs, n)->0[k]),
    decreases n,
{
    lemma_having_len(s, aggs, n - 1);
    if k < n - 1 {
        lemma_having_at(s, aggs, n - 1, k);
    }
}

proof fn lemma_having_len(s: Seq<Expr>, aggs: Seq<Expr>, n: int)
    requires
        0 <= n,
        having_filters(s, aggs, n) is Some,
    ensures
        having_filters(s, aggs, n)->0.len() == n,
    decreases n,
{
    if n > 0 {
        lemma_having_len(s, aggs, n - 1);
    }
}

/// A group passes all filters of a HAVING clause exactly where it meets the
/// clause: each filter is of the aggregate that the clause compares, with its
/// constant, and reads the comparison the right way round. (Whether an aggregate
/// of the clause is of DISTINCT values is not looked at.)
pub proof fn lemma_filters_are_having(e: Expr, aggs: Seq<Expr>, g: HavingGroup)
    requires
        having_of(e, aggs) is Some,
        aggs.len() <= usize::MAX,
        forall|i: int| 0 <= i < aggs.len() ==> (#[trigger] aggs[i]).head is Aggref,
        values_agree(g),
    ensures
        ({
            let fs = having_of(e, aggs)->0;
            &&& forall|i: int| 0 <= i < fs.len() ==> (#[trigger] fs[i]).agg_idx < aggs.len()
            &&& meets_having(g, e) <==> forall|i: int|
                0 <= i < fs.len() ==> passes((g.agg)(aggs[(#[trigger] fs[i]).agg_idx as int]), fs[i])
        }),
{
    let s = having_conditions(e)->0;
    let n = s.len() as int;
    let fs = having_of(e, aggs)->0;
    lemma_having_len(s, aggs, n);
    assert forall|i: int| 0 <= i < n implies (#[trigger] fs[i]).agg_idx < aggs.len() && (
    meets_comparison(g, s[i]) <==> passes((g.agg)(aggs[fs[i].agg_idx as int]), fs[i])) by {
        lemma_having_at(s, aggs, n, i);
        lemma_having_filter(s[i], aggs, g);
    }
    assert forall|i: int| 0 <= i < n implies (meets_comparison(g, #[trigger] s[i]) <==> passes(
        (g.agg)(aggs[fs[i].agg_idx as int]),
        fs[i],
    )) by {
        lemma_having_at(s, aggs, n, i);
        lemma_having_filter(s[i], aggs, g);
    }
    if e.head is List || e.head is BoolExpr {
        assert(s == e.args);
    } else {
        assert(s[0] == e);
    }
}

/// Groups are sorted by counts, by sums of short integers, by averages of numbers
/// and by extremes of integers; and by the span between two extremes of one column
/// of integers or times.
pub proof fn lemma_sorted_by(a: AggSpec, b: AggSpec)
    ensures
        sortable(a) <==> match a.agg_type {
            AggType::CountStar => true,
            AggType::Count => true,
            AggType::CountDistinct => true,
            AggType::Sum => a.col_type_oid == 21 || a.col_type_oid == 23,
            AggType::Avg => a.col_type_oid == 21 || a.col_type_oid == 23 || a.col_type_oid == 20
                || a.col_type_oid == 700 || a.col_type_oid == 701,
            AggType::Min | AggType::Max => a.col_type_oid == 21 || a.col_type_oid == 23
                || a.col_type_oid == 20,
        },
        is_span(a, b) <==> a.agg_type == AggType::Max && b.agg_type == AggType::Min && a.col_idx
            == b.col_idx && a.col_type_oid == b.col_type_oid && (a.col_type_oid == 21
            || a.col_type_oid == 23 || a.col_type_oid == 20 || a.col_type_oid == 1082
            || a.col_type_oid == 1114 || a.col_type_oid == 1184),
{
}

} // verus!
