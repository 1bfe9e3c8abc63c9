//! What of a query goes into the path of an aggregate scan, and from there into
//! its plan.

use vstd::prelude::*;
use crate::scan::agg_laws::{
    grouped_value, in_one_group, is_no_cast, lemma_same_groups, row_serves, ScanRow,
};
use crate::scan::agg_plan::{agg_scan_conditions, plan_contents};
use crate::scan::agg_types::{AggSpec, AggType, HavingFilter};
use crate::scan::chain_laws::{
    is_faithful, lemma_rewritten_list_keeps_values, row_fits, value, Meaning,
};
use crate::scan::exprs::{aggs_in, aggs_in_list};
use crate::scan::json_extract::{AggChainCtx, Rule, Target};
use crate::scan::json_prune::{list_vars, vars_of};
use crate::scan::minmax::{placeholder, planned_aggs, MinMaxAggSpec};
use crate::scan::node::{Expr, Head, Var};
use crate::scan::path::{
    all_emittable, compact_agg, effective_topn, emittable_agg, is_read, only_eligible_vars,
    tlist_vars, AggTopnInfo, ScanTopn,
};
use crate::scan::prune_laws::{lemma_references_found, list_occurs, occurs};
use crate::scan::quals::scan_conditions;
use crate::scan::upper::{parts_of, qtargets, QTarget};
use crate::scan::upper_path::{group_exprs, upper_path, UpperCatalog, UpperQuery};
use crate::scan::where_laws::is_word_type;
use crate::scan::wire_decode::PathContents;
use crate::search::lemma_first_where;

verus! {

// ---------------------------------------------------------------------------
// Aggregates of the target list
// ---------------------------------------------------------------------------

/// Whether an aggregate occurs in an expression under operators, functions and
/// casts.
pub open spec fn holds_agg(e: Expr, a: Expr) -> bool
    decreases e,
{
    match e.head {
        Head::Aggref(_) => e == a,
        Head::OpExpr(_) | Head::FuncExpr(_) | Head::RelabelType(_) | Head::CoerceViaIO(_) => {
            exists|i: int| 0 <= i < e.args.len() && holds_agg(#[trigger] e.args[i], a)
        },
        _ => false,
    }
}

proof fn lemma_contains_either(x: Seq<Expr>, y: Seq<Expr>, a: Expr)
    ensures
        (x + y).contains(a) <==> x.contains(a) || y.contains(a),
{
    if x.contains(a) {
        let i = choose|i: int| 0 <= i < x.len() && x[i] == a;
        assert((x + y)[i] == a);
    }
    if y.contains(a) {
        let i = choose|i: int| 0 <= i < y.len() && y[i] == a;
        assert((x + y)[x.len() + i] == a);
    }
    if (x + y).contains(a) {
        let i = choose|i: int| 0 <= i < (x + y).len() && (x + y)[i] == a;
        if i < x.len() {
            assert(x[i] == a);
        } else {
            assert(y[i - x.len()] == a);
        }
    }
}

/// Every aggregate in an expression is found, and nothing else.
pub proof fn lemma_aggregates_found(e: Expr, a: Expr)
    ensures
        aggs_in(e).contains(a) <==> holds_agg(e, a),
    decreases e, 0int,
{
    if let Head::Aggref(_) = e.head {
        assert(seq![e][0] == e);
    } else {
        lemma_list_aggregates(e.args, e.args.len() as int, a);
    }
}

proof fn lemma_list_aggregates(s: Seq<Expr>, n: int, a: Expr)
    requires
        0 <= n <= s.len(),
    ensures
        aggs_in_list(s, n).contains(a) <==> exists|i: int| 0 <= i < n && holds_agg(#[trigger] s[i], a),
    decreases s, n,
{
    if n > 0 {
        lemma_list_aggregates(s, n - 1, a);
        lemma_aggregates_found(s[n - 1], a);
        lemma_contains_either(aggs_in_list(s, n - 1), aggs_in(s[n - 1]), a);
    }
}

/// The aggregates of a query are those that its visible target list entries hold.
/// Without GROUP BY every such entry is an aggregate; with it, functions,
/// operators and CASE expressions are noted, to be held against the groupings.
pub proof fn lemma_aggregates_of_query(tlist: Seq<QTarget>, grouped: bool, n: int, i: int, a: Expr)
    requires
        0 <= n <= tlist.len(),
        parts_of(tlist, grouped, n) is Some,
    ensures
        ({
            let p = parts_of(tlist, grouped, n)->0;
            &&& p.aggs.contains(a) <==> exists|k: int|
                0 <= k < n && !(#[trigger] tlist[k]).resjunk && holds_agg(tlist[k].expr, a)
            &&& 0 <= i < n && !tlist[i].resjunk ==> {
                &&& !grouped ==> tlist[i].expr.head is Aggref
                &&& tlist[i].expr.head is FuncExpr ==> p.funcs.contains(tlist[i].expr)
                &&& tlist[i].expr.head is OpExpr ==> p.ops.contains(tlist[i].expr)
                &&& tlist[i].expr.head is CaseExpr ==> p.has_case
                &&& tlist[i].expr.head is Aggref || tlist[i].expr.head is Var
                    || tlist[i].expr.head is Const || tlist[i].expr.head is FuncExpr
                    || tlist[i].expr.head is OpExpr || tlist[i].expr.head is CaseExpr
            }
        }),
    decreases n,
{
    if n > 0 {
        lemma_aggregates_of_query(tlist, grouped, n - 1, i, a);
        let before = parts_of(tlist, grouped, n - 1)->0;
        let p = parts_of(tlist, grouped, n)->0;
        let e = tlist[n - 1].expr;
        lemma_aggregates_found(e, a);
        lemma_contains_either(before.aggs, aggs_in(e), a);
        if e.head is Aggref {
            assert(before.aggs.push(e) =~= before.aggs + seq![e]);
        }
        assert(p.funcs.len() > before.funcs.len() ==> p.funcs[before.funcs.len() as int] == e);
        assert(p.ops.len() > before.ops.len() ==> p.ops[before.ops.len() as int] == e);
        if 0 <= i < n - 1 && !tlist[i].resjunk {
            let x = tlist[i].expr;
            if before.funcs.contains(x) {
                let k = choose|k: int| 0 <= k < before.funcs.len() && before.funcs[k] == x;
                assert(p.funcs[k] == x);
            }
            if before.ops.contains(x) {
                let k = choose|k: int| 0 <= k < before.ops.len() && before.ops[k] == x;
                assert(p.ops[k] == x);
            }
        }
    }
}

// ---------------------------------------------------------------------------
// Groupings
// ---------------------------------------------------------------------------

/// Whether an expression is the one that a number of GROUP BY refers to.
pub open spec fn is_referred(tlist: Seq<QTarget>, r: u32, e: Expr) -> bool {
    exists|k: int|
        0 <= k < tlist.len() && (#[trigger] tlist[k]).sortgroupref == r && tlist[k].expr == e
            && forall|j: int| 0 <= j < k ==> (#[trigger] tlist[j]).sortgroupref != r
}

/// A query is grouped by the expressions that its GROUP BY refers to, in that
/// order.
pub proof fn lemma_grouped_expressions(tlist: Seq<QTarget>, refs: Seq<u32>, n: int, i: int)
    requires
        0 <= i < n <= refs.len(),
        group_exprs(tlist, refs, n) is Some,
    ensures
        group_exprs(tlist, refs, n)->0.len() == n,
        is_referred(tlist, refs[i], group_exprs(tlist, refs, n)->0[i]),
    decreases n,
{
    let s = group_exprs(tlist, refs, n)->0;
    lemma_grouped_len(tlist, refs, n);
    if i < n - 1 {
        lemma_grouped_expressions(tlist, refs, n - 1, i);
    } else {
        let p = |t: QTarget| t.sortgroupref == refs[i];
        lemma_first_where(tlist, p);
        let k = crate::scan::having::sort_target(tlist, refs[i])->0;
        assert(p(tlist[k]));
        assert forall|j: int| 0 <= j < k implies (#[trigger] tlist[j]).sortgroupref != refs[i] by {
            assert(!p(tlist[j]));
        }
        assert(tlist[k].sortgroupref == refs[i]);
        assert(s[i] == tlist[k].expr);
    }
}

proof fn lemma_grouped_len(tlist: Seq<QTarget>, refs: Seq<u32>, n: int)
    requires
        0 <= n <= refs.len(),
        group_exprs(tlist, refs, n) is Some,
    ensures
        group_exprs(tlist, refs, n)->0.len() == n,
    decreases n,
{
    if n > 0 {
        lemma_grouped_len(tlist, refs, n - 1);
    }
}

/// An aggregate scan puts two rows into one group exactly where all that the
/// query's GROUP BY refers to has the same values on both.
pub proof fn lemma_scan_groups_as_query(q: UpperQuery, cat: UpperCatalog, a: ScanRow, b: ScanRow)
    requires
        upper_path(q, cat) is Agg,
        row_serves(a, cat.ctx),
        row_serves(b, cat.ctx),
        forall|e: Expr| e.head is Const ==> #[trigger] (a.other)(e) == (b.other)(e),
        forall|i: int|
            0 <= i < q.tlist@.len() ==> is_no_cast((#[trigger] qtargets(q.tlist@)[i]).expr) && (
            qtargets(q.tlist@)[i].expr.args.len() == 2 ==> is_no_cast(
                qtargets(q.tlist@)[i].expr.args[1],
            )),
    ensures
        in_one_group(a, b, upper_path(q, cat)->groups) <==> forall|i: int, e: Expr|
            0 <= i < q.group_refs@.len() && #[trigger] is_referred(
                qtargets(q.tlist@),
                q.group_refs@[i],
                e,
            ) ==> grouped_value(a, e) == grouped_value(b, e),
{
    let tlist = qtargets(q.tlist@);
    let refs = q.group_refs@;
    let n = refs.len() as int;
    if n > 0 {
        let s = group_exprs(tlist, refs, n)->0;
        lemma_grouped_len(tlist, refs, n);
        assert forall|i: int| 0 <= i < n implies is_no_cast(#[trigger] s[i]) && (s[i].args.len() == 2
            ==> is_no_cast(s[i].args[1])) by {
            lemma_grouped_expressions(tlist, refs, n, i);
            let k = choose|k: int|
                0 <= k < tlist.len() && (#[trigger] tlist[k]).sortgroupref == refs[i]
                    && tlist[k].expr == s[i] && forall|j: int|
                    0 <= j < k ==> (#[trigger] tlist[j]).sortgroupref != refs[i];
            assert(is_no_cast(tlist[k].expr));
        }
        lemma_same_groups(s, q.rels, cat.ctx, n, a, b);
        assert forall|i: int, e: Expr|
            0 <= i < n && #[trigger] is_referred(tlist, refs[i], e) implies e == s[i] by {
            lemma_grouped_expressions(tlist, refs, n, i);
            lemma_referred_once(tlist, refs[i], e, s[i]);
        }
        if forall|i: int, e: Expr|
            0 <= i < n && #[trigger] is_referred(tlist, refs[i], e) ==> grouped_value(a, e)
                == grouped_value(b, e) {
            assert forall|i: int| 0 <= i < n implies grouped_value(a, #[trigger] s[i])
                == grouped_value(b, s[i]) by {
                lemma_grouped_expressions(tlist, refs, n, i);
                assert(is_referred(tlist, refs[i], s[i]));
            }
        }
    }
}

proof fn lemma_referred_once(tlist: Seq<QTarget>, r: u32, d: Expr, e: Expr)
    requires
        is_referred(tlist, r, d),
        is_referred(tlist, r, e),
    ensures
        d == e,
{
    let i = choose|k: int|
        0 <= k < tlist.len() && (#[trigger] tlist[k]).sortgroupref == r && tlist[k].expr == d
            && forall|j: int| 0 <= j < k ==> (#[trigger] tlist[j]).sortgroupref != r;
    let k = choose|k: int|
        0 <= k < tlist.len() && (#[trigger] tlist[k]).sortgroupref == r && tlist[k].expr == e
            && forall|j: int| 0 <= j < k ==> (#[trigger] tlist[j]).sortgroupref != r;
    if i < k {
        assert(tlist[i].sortgroupref != r);
    } else if k < i {
        assert(tlist[k].sortgroupref != r);
    }
}

// ---------------------------------------------------------------------------
// Conditions and columns of a plan
// ---------------------------------------------------------------------------

/// A plan computes what its path does, for the tables of the path, and puts out
/// what the target list asks for.
pub proof fn lemma_plan_of_path(
    path: PathContents,
    tlist: Seq<Target>,
    ctx: Option<AggChainCtx>,
    having: Seq<HavingFilter>,
    quals: Option<Seq<u8>>,
    topn: Option<AggTopnInfo>,
)
    ensures
        ({
            let c = plan_contents(path, tlist, ctx, having, quals, topn);
            &&& c.oids == path.oids
            &&& c.aggs == path.aggs
            &&& c.is_partial == path.is_partial
            &&& c.having == having
            &&& c.quals == quals
            &&& c.topn == topn
        }),
{
}

/// The conditions that an aggregate scan checks have the values of the query's:
/// those of the join tree, or, where it has none, those of the relations.
pub proof fn lemma_scan_checks_conditions<V>(
    m: Meaning<V>,
    jointree: Expr,
    rels: Seq<Seq<Expr>>,
    ctx: Option<AggChainCtx>,
    doc: spec_fn(i16) -> V,
    named: spec_fn(Seq<char>) -> V,
)
    requires
        is_faithful(m),
        ctx matches Some(c) ==> c.wf() && row_fits(
            m,
            (Rule::Specs {
                rti: c.parent_rti,
                specs: c.specs@,
                phys: c.phys.by_attno@,
                natts: c.physical_count,
            }),
            doc,
            named,
        ),
    ensures
        agg_scan_conditions(jointree, rels, ctx).len() == scan_conditions(jointree, rels).len(),
        forall|i: int|
            0 <= i < scan_conditions(jointree, rels).len() ==> value(
                m,
                #[trigger] agg_scan_conditions(jointree, rels, ctx)[i],
            ) == value(m, scan_conditions(jointree, rels)[i]),
        scan_conditions(jointree, rels) == if crate::scan::quals::implicit_ands(jointree).len() > 0 {
            crate::scan::quals::implicit_ands(jointree)
        } else {
            crate::scan::quals::first_conditions(rels)
        },
{
    if let Some(c) = ctx {
        lemma_rewritten_list_keeps_values(
            m,
            Rule::Specs {
                rti: c.parent_rti,
                specs: c.specs@,
                phys: c.phys.by_attno@,
                natts: c.physical_count,
            },
            doc,
            named,
            scan_conditions(jointree, rels),
        );
    }
}

proof fn lemma_tlist_references(s: Seq<Target>, n: int, v: Var)
    requires
        0 <= n <= s.len(),
    ensures
        tlist_vars(s, n).contains(v) <==> exists|i: int|
            0 <= i < n && occurs((#[trigger] s[i]).expr, v),
    decreases n,
{
    if n > 0 {
        lemma_tlist_references(s, n - 1, v);
        lemma_references_found(s[n - 1].expr, v);
        lemma_vars_either(tlist_vars(s, n - 1), vars_of(s[n - 1].expr), v);
    }
}

proof fn lemma_vars_either(x: Seq<Var>, y: Seq<Var>, a: Var)
    ensures
        (x + y).contains(a) <==> x.contains(a) || y.contains(a),
{
    if x.contains(a) {
        let i = choose|i: int| 0 <= i < x.len() && x[i] == a;
        assert((x + y)[i] == a);
    }
    if y.contains(a) {
        let i = choose|i: int| 0 <= i < y.len() && y[i] == a;
        assert((x + y)[x.len() + i] == a);
    }
    if (x + y).contains(a) {
        let i = choose|i: int| 0 <= i < (x + y).len() && (x + y)[i] == a;
        if i < x.len() {
            assert(x[i] == a);
        } else {
            assert(y[i - x.len()] == a);
        }
    }
}

proof fn lemma_list_of_references(s: Seq<Expr>, n: int, v: Var)
    requires
        0 <= n <= s.len(),
    ensures
        list_vars(s, n).contains(v) <==> exists|i: int| 0 <= i < n && occurs(#[trigger] s[i], v),
    decreases n,
{
    if n > 0 {
        lemma_list_of_references(s, n - 1, v);
        lemma_references_found(s[n - 1], v);
        lemma_vars_either(list_vars(s, n - 1), vars_of(s[n - 1]), v);
    }
}

/// Whether a target list or a filter refers by `v` to a column of a relation, by
/// the column's number from zero.
pub open spec fn refers(
    tlist: Seq<Target>,
    quals: Seq<Expr>,
    varno: i32,
    col: int,
    v: Var,
) -> bool {
    &&& v.varno == varno && v.varlevelsup == 0 && v.varattno == col + 1 && col >= 0
    &&& list_occurs(quals, v) || exists|i: int|
        0 <= i < tlist.len() && occurs((#[trigger] tlist[i]).expr, v)
}

/// A scan reads every column of its relation that the target list or the filter
/// refers to, and no other.
pub proof fn lemma_scan_reads_columns(tlist: Seq<Target>, quals: Seq<Expr>, varno: i32, col: int)
    ensures
        is_read(
            tlist_vars(tlist, tlist.len() as int) + list_vars(quals, quals.len() as int),
            varno,
            col,
        ) <==> exists|v: Var| #[trigger] refers(tlist, quals, varno, col, v),
{
    let a = tlist_vars(tlist, tlist.len() as int);
    let b = list_vars(quals, quals.len() as int);
    if is_read(a + b, varno, col) {
        let i = choose|i: int|
            0 <= i < (a + b).len() && crate::scan::path::reads(#[trigger] (a + b)[i], varno, col);
        let v = (a + b)[i];
        assert((a + b).contains(v));
        lemma_vars_either(a, b, v);
        lemma_tlist_references(tlist, tlist.len() as int, v);
        lemma_list_of_references(quals, quals.len() as int, v);
        assert(refers(tlist, quals, varno, col, v));
    }
    if exists|v: Var| #[trigger] refers(tlist, quals, varno, col, v) {
        let v = choose|v: Var| #[trigger] refers(tlist, quals, varno, col, v);
        lemma_tlist_references(tlist, tlist.len() as int, v);
        lemma_list_of_references(quals, quals.len() as int, v);
        lemma_vars_either(a, b, v);
        let i = choose|i: int| 0 <= i < (a + b).len() && (a + b)[i] == v;
        assert(crate::scan::path::reads((a + b)[i], varno, col));
    }
}

/// A scan keeps its limit where it has one.
pub proof fn lemma_limit_kept(t: ScanTopn)
    ensures
        t.limit > 0 ==> effective_topn(t) == t,
        t.limit <= 0 ==> effective_topn(t).limit == 0 && !effective_topn(t).multi_col
            && effective_topn(t).sort_col_attno == 0,
{
}

/// The description of a path holds each aggregate as it is, in order.
pub proof fn lemma_aggregates_kept(aggs: Seq<MinMaxAggSpec>, i: int)
    requires
        0 <= i < aggs.len(),
    ensures
        planned_aggs(aggs).len() == aggs.len(),
        ({
            let (p, a) = (planned_aggs(aggs)[i], aggs[i]);
            &&& p.kind == a.kind
            &&& p.varattno == a.varattno
            &&& p.result_type_oid == a.result_type_oid
            &&& p.col_type_oid == a.col_type_oid
            &&& p.typlen == a.typlen
            &&& p.typbyval == a.typbyval
            &&& p.const_offset == a.const_offset
        }),
{
}

/// The output columns of a metadata scan are numbered from one, and have the types
/// of the aggregates' results.
pub proof fn lemma_placeholders(aggs: Seq<MinMaxAggSpec>, i: int)
    requires
        0 <= i < aggs.len() < i16::MAX,
    ensures
        ({
            let p = placeholder(planned_aggs(aggs)[i], i);
            p.resno == i + 1 && p.type_oid == aggs[i].result_type_oid && p.typlen == aggs[i].typlen
                && p.typbyval == aggs[i].typbyval
        }),
{
}

// ---------------------------------------------------------------------------
// Workers
// ---------------------------------------------------------------------------

/// Workers compute counts, sums and averages of numbers, and extremes of texts;
/// they pass on counts, sums of short integers and of floats, and extremes of
/// texts. Distinct values are never counted by workers.
pub proof fn lemma_what_workers_compute(a: AggSpec)
    ensures
        compact_agg(a) <==> match a.agg_type {
            AggType::CountStar => true,
            AggType::Count => true,
            AggType::Sum | AggType::Avg => a.col_type_oid == 21 || a.col_type_oid == 23
                || a.col_type_oid == 20 || a.col_type_oid == 700 || a.col_type_oid == 701,
            AggType::Min | AggType::Max => a.col_type_oid == 25 || a.col_type_oid == 1043
                || a.col_type_oid == 1042,
            AggType::CountDistinct => false,
        },
        emittable_agg(a) <==> compact_agg(a) && a.agg_type != AggType::Avg && !(a.agg_type
            == AggType::Sum && a.col_type_oid == 20),
{
}

/// Workers pass on all aggregates or none, and filter by words alone: a condition
/// that refers to any other column is not left to them.
pub proof fn lemma_what_workers_filter(aggs: Seq<AggSpec>, quals: Seq<Expr>, v: Var, i: int)
    ensures
        all_emittable(aggs) && 0 <= i < aggs.len() ==> emittable_agg(aggs[i]),
        all_emittable(aggs) ==> aggs.len() > 0,
        only_eligible_vars(list_vars(quals, quals.len() as int)) && list_occurs(quals, v)
            ==> is_word_type(v.vartype),
{
    let vars = list_vars(quals, quals.len() as int);
    lemma_list_of_references(quals, quals.len() as int, v);
    if only_eligible_vars(vars) && list_occurs(quals, v) {
        let k = choose|k: int| 0 <= k < vars.len() && vars[k] == v;
        assert(crate::scan::path::partial_eligible(vars[k].vartype));
    }
}

} // verus!
