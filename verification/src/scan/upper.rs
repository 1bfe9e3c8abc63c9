//! Which aggregates over compressed partitions are computed by the extension's
//! own scans.

use vstd::prelude::*;
use vstd::string::*;
use crate::pg_types::{is_float_oid, is_float_type, is_integer_type, INT2OID, INT4OID, INVALID_OID};
use crate::scan::agg_plan::{col_of, const_int_value, int_value};
use crate::scan::agg_types::{AggExpr, AggSpec, AggType, OutputTransform};
use crate::scan::catalog::QueryRels;
use crate::scan::exprs::{
    aggs_in, collect_aggrefs_in_expr, is_int_const, shifted_chain,
    try_match_timestamp_interval_min_max,
};
use crate::scan::json_extract::AggChainCtx;
use crate::scan::node::{exprs, group_node, is_null, Const, Expr, FuncName, Head, Node, OpName, Var};
use crate::scan::time_bounds::{is_minmax_meta_type, minmax_meta_type};

verus! {

// ---------------------------------------------------------------------------
// Target list
// ---------------------------------------------------------------------------

/// An entry of a query's target list.
pub struct QueryTarget {
    pub expr: Node,
    pub resno: i16,
    pub resjunk: bool,
    /// Number by which GROUP BY and ORDER BY refer to the entry.
    pub sortgroupref: u32,
}

/// The mathematical value of a `QueryTarget`.
pub struct QTarget {
    pub expr: Expr,
    pub resno: i16,
    pub resjunk: bool,
    pub sortgroupref: u32,
}

impl QueryTarget {
    pub open spec fn view(&self) -> QTarget {
        QTarget {
            expr: self.expr.view(),
            resno: self.resno,
            resjunk: self.resjunk,
            sortgroupref: self.sortgroupref,
        }
    }
}

pub open spec fn qtargets(v: Seq<QueryTarget>) -> Seq<QTarget> {
    v.map_values(|t: QueryTarget| t.view())
}

/// What a target list holds: its aggregates, and the functions, operators and
/// CASE expressions that have to match a grouping.
pub struct Parts {
    pub aggs: Seq<Expr>,
    pub funcs: Seq<Expr>,
    pub ops: Seq<Expr>,
    pub has_case: bool,
}

pub open spec fn no_parts() -> Parts {
    Parts { aggs: Seq::empty(), funcs: Seq::empty(), ops: Seq::empty(), has_case: false }
}

/// `p` with one more output column; none where the column is something else.
pub open spec fn add_part(p: Parts, e: Expr, grouped: bool) -> Option<Parts> {
    match e.head {
        Head::Aggref(_) => Some(Parts { aggs: p.aggs.push(e), ..p }),
        Head::Var(_) | Head::Const(_) => if grouped {
            Some(p)
        } else {
            None
        },
        Head::FuncExpr(_) => if grouped {
            Some(Parts { aggs: p.aggs + aggs_in(e), funcs: p.funcs.push(e), ..p })
        } else {
            None
        },
        Head::OpExpr(_) => if grouped {
            Some(Parts { aggs: p.aggs + aggs_in(e), ops: p.ops.push(e), ..p })
        } else {
            None
        },
        Head::CaseExpr => if grouped {
            Some(Parts { has_case: true, ..p })
        } else {
            None
        },
        _ => None,
    }
}

/// What the first `n` entries of a target list hold.
pub open spec fn parts_of(tlist: Seq<QTarget>, grouped: bool, n: int) -> Option<Parts>
    decreases n,
{
    if n <= 0 {
        Some(no_parts())
    } else {
        match parts_of(tlist, grouped, n - 1) {
            Some(p) => if tlist[n - 1].resjunk {
                Some(p)
            } else {
                add_part(p, tlist[n - 1].expr, grouped)
            },
            None => None,
        }
    }
}

proof fn lemma_parts_none(tlist: Seq<QTarget>, grouped: bool, k: int, n: int)
    requires
        k <= n,
        parts_of(tlist, grouped, k) is None,
    ensures
        parts_of(tlist, grouped, n) is None,
    decreases n,
{
    if k < n {
        lemma_parts_none(tlist, grouped, k, n - 1);
    }
}

/// See `Parts`.
pub struct TlistParts {
    pub aggs: Vec<Node>,
    pub funcs: Vec<Node>,
    pub ops: Vec<Node>,
    pub has_case: bool,
}

impl TlistParts {
    pub open spec fn view(&self) -> Parts {
        Parts {
            aggs: exprs(self.aggs@),
            funcs: exprs(self.funcs@),
            ops: exprs(self.ops@),
            has_case: self.has_case,
        }
    }
}

/// Sorts the output columns of a query; none where one of them is neither an
/// aggregate nor, in a grouped query, something that can match a grouping.
pub fn classify_target_list(tlist: &Vec<QueryTarget>, grouped: bool) -> (r: Option<TlistParts>)
    ensures
        match r {
            Some(p) => parts_of(qtargets(tlist@), grouped, tlist@.len() as int) == Some(p.view()),
            None => parts_of(qtargets(tlist@), grouped, tlist@.len() as int) is None,
        },
{
    broadcast use group_node;

    let ghost tl = qtargets(tlist@);
    let mut p = TlistParts {
        aggs: Vec::new(),
        funcs: Vec::new(),
        ops: Vec::new(),
        has_case: false,
    };
    assert(exprs(p.aggs@) =~= Seq::<Expr>::empty());
    assert(exprs(p.funcs@) =~= Seq::<Expr>::empty());
    assert(exprs(p.ops@) =~= Seq::<Expr>::empty());
    let mut i: usize = 0;
    while i < tlist.len()
        invariant
            i <= tlist.len(),
            tl == qtargets(tlist@),
            parts_of(tl, grouped, i as int) == Some(p.view()),
        decreases tlist.len() - i,
    {
        let t = &tlist[i];
        assert(tl[i as int] == t.view());
        if t.resjunk {
            i += 1;
            continue ;
        }
        let ghost before = p.view();
        let ghost e = t.expr.view();
        let ok = match &t.expr.head {
            Head::Aggref(_) => {
                let n = t.expr.dup();
                let ghost old_aggs = p.aggs@;
                p.aggs.push(n);
                assert(exprs(p.aggs@) =~= exprs(old_aggs).push(e));
                true
            },
            Head::Var(_) | Head::Const(_) => grouped,
            Head::FuncExpr(_) => {
                if grouped {
                    collect_aggrefs_in_expr(&t.expr, &mut p.aggs);
                    let n = t.expr.dup();
                    let ghost old_funcs = p.funcs@;
                    p.funcs.push(n);
                    assert(exprs(p.funcs@) =~= exprs(old_funcs).push(e));
                }
                grouped
            },
            Head::OpExpr(_) => {
                if grouped {
                    collect_aggrefs_in_expr(&t.expr, &mut p.aggs);
                    let n = t.expr.dup();
                    let ghost old_ops = p.ops@;
                    p.ops.push(n);
                    assert(exprs(p.ops@) =~= exprs(old_ops).push(e));
                }
                grouped
            },
            Head::CaseExpr => {
                if grouped {
                    p.has_case = true;
                }
                grouped
            },
            _ => false,
        };
        if !ok {
            assert(add_part(before, e, grouped) is None);
            proof {
                lemma_parts_none(tl, grouped, i + 1, tl.len() as int);
            }
            return None;
        }
        assert(add_part(before, e, grouped) == Some(p.view()));
        i += 1;
    }
    Some(p)
}

// ---------------------------------------------------------------------------
// Aggregates
// ---------------------------------------------------------------------------

/// What an aggregate is taken over.
#[derive(Clone, Copy, Debug, PartialEq, Eq, Structural)]
pub struct AggArg {
    pub col_idx: i32,
    pub type_oid: u32,
    pub kind: AggExpr,
    pub offset: i64,
    pub transform: OutputTransform,
}

/// A column, under at most one relabelling.
pub open spec fn bare_var(e: Expr) -> Option<Var> {
    match e.head {
        Head::Var(v) => Some(v),
        Head::RelabelType(_) => if e.args.len() > 0 {
            match e.args[0].head {
                Head::Var(v) => Some(v),
                _ => None,
            }
        } else {
            None
        },
        _ => None,
    }
}

/// `length(column)`.
pub open spec fn length_var(e: Expr) -> Option<Var> {
    match e.head {
        Head::FuncExpr(f) => if f.name == FuncName::Length && e.args.len() == 1 {
            match e.args[0].head {
                Head::Var(v) => Some(v),
                _ => None,
            }
        } else {
            None
        },
        _ => None,
    }
}

/// Whether an integer can be written in a description.
pub open spec fn fits_i32(v: int) -> bool {
    i32::MIN <= v <= i32::MAX
}

/// `column + integer`, either way round, with an integer that can be written.
pub open spec fn sum_var(e: Expr) -> Option<(Var, i64)> {
    match e.head {
        Head::OpExpr(op) => if op.name == OpName::Plus && e.args.len() == 2 {
            match (e.args[0].head, e.args[1].head) {
                (Head::Var(v), Head::Const(c)) | (Head::Const(c), Head::Var(v)) => {
                    if !c.constisnull && is_int_const(c) && fits_i32(int_value(c) as int) {
                        Some((v, int_value(c)))
                    } else {
                        None
                    }
                },
                _ => None,
            }
        } else {
            None
        },
        _ => None,
    }
}

/// A column of the query, as what an aggregate is taken over.
pub open spec fn column_arg(rels: QueryRels, v: Var, kind: AggExpr, offset: i64) -> Option<AggArg> {
    match rels.column(v) {
        Some((_, t)) => Some(
            AggArg {
                col_idx: col_of(v),
                type_oid: t,
                kind,
                offset,
                transform: OutputTransform::Identity,
            },
        ),
        None => None,
    }
}

/// What an aggregate with the argument `e` is taken over: an extracted column,
/// one shifted to a timestamp, a column, its length, or the column plus an
/// integer.
pub open spec fn agg_arg(e: Expr, rels: QueryRels, ctx: Option<AggChainCtx>) -> Option<AggArg> {
    let chain = match ctx {
        Some(c) => c.synthetic(e),
        None => None,
    };
    let shifted = match ctx {
        Some(c) => shifted_chain(c, e),
        None => None,
    };
    match (chain, shifted) {
        (Some((col, t)), _) => Some(
            AggArg {
                col_idx: col,
                type_oid: t,
                kind: AggExpr::Column,
                offset: 0,
                transform: OutputTransform::Identity,
            },
        ),
        (None, Some((col, t, delta))) => Some(
            AggArg {
                col_idx: col,
                type_oid: t,
                kind: AggExpr::Column,
                offset: 0,
                transform: OutputTransform::PgUsShift { delta },
            },
        ),
        (None, None) => match (bare_var(e), length_var(e), sum_var(e)) {
            (Some(v), _, _) => column_arg(rels, v, AggExpr::Column, 0),
            (_, Some(v), _) => column_arg(rels, v, AggExpr::LengthOf, 0),
            (_, _, Some((v, n))) => column_arg(rels, v, AggExpr::AddConst, n),
            _ => None,
        },
    }
}

/// The argument of an aggregate with exactly one.
pub open spec fn single_arg(agg: Expr) -> Option<Expr> {
    if agg.args.len() == 1 && agg.args[0].head is TargetEntry && agg.args[0].args.len() > 0
        && !is_null(agg.args[0].args[0]) {
        Some(agg.args[0].args[0])
    } else {
        None
    }
}

/// Kind of an aggregate by its function's name.
pub open spec fn agg_type_of(name: FuncName, distinct: bool) -> Option<AggType> {
    match name {
        FuncName::Sum => Some(AggType::Sum),
        FuncName::Avg => Some(AggType::Avg),
        FuncName::Count => Some(
            if distinct {
                AggType::CountDistinct
            } else {
                AggType::Count
            },
        ),
        FuncName::Min => Some(AggType::Min),
        FuncName::Max => Some(AggType::Max),
        _ => None,
    }
}

/// An aggregate as a scan computes it; none where no scan can. An aggregate
/// with a FILTER never is.
pub open spec fn agg_spec(agg: Expr, rels: QueryRels, ctx: Option<AggChainCtx>) -> Option<AggSpec> {
    match agg.head {
        Head::Aggref(info) => if agg.aux is Some {
            None
        } else if info.aggstar {
            Some(
                AggSpec {
                    agg_type: AggType::CountStar,
                    col_idx: -1i32,
                    result_type_oid: info.aggtype,
                    col_type_oid: INVALID_OID,
                    expr_kind: AggExpr::Column,
                    const_offset: 0,
                    output_transform: OutputTransform::Identity,
                },
            )
        } else {
            match (agg_type_of(info.name, info.distinct), single_arg(agg)) {
                (Some(t), Some(e)) => match agg_arg(e, rels, ctx) {
                    Some(a) => Some(
                        AggSpec {
                            agg_type: t,
                            col_idx: a.col_idx,
                            result_type_oid: info.aggtype,
                            col_type_oid: if a.kind == AggExpr::LengthOf {
                                INT4OID
                            } else {
                                a.type_oid
                            },
                            expr_kind: a.kind,
                            const_offset: a.offset,
                            output_transform: if t == AggType::Min || t == AggType::Max {
                                a.transform
                            } else {
                                OutputTransform::Identity
                            },
                        },
                    ),
                    None => None,
                },
                _ => None,
            }
        },
        _ => None,
    }
}

/// The first `n` aggregates as a scan computes them.
pub open spec fn agg_specs(
    aggs: Seq<Expr>,
    rels: QueryRels,
    ctx: Option<AggChainCtx>,
    n: int,
) -> Option<Seq<AggSpec>>
    decreases n,
{
    if n <= 0 {
        Some(Seq::empty())
    } else {
        match (agg_specs(aggs, rels, ctx, n - 1), agg_spec(aggs[n - 1], rels, ctx)) {
            (Some(before), Some(a)) => Some(before.push(a)),
            _ => None,
        }
    }
}

proof fn lemma_agg_specs_none(
    aggs: Seq<Expr>,
    rels: QueryRels,
    ctx: Option<AggChainCtx>,
    k: int,
    n: int,
)
    requires
        k <= n,
        agg_specs(aggs, rels, ctx, k) is None,
    ensures
        agg_specs(aggs, rels, ctx, n) is None,
    decreases n,
{
    if k < n {
        lemma_agg_specs_none(aggs, rels, ctx, k, n - 1);
    }
}

/// There is a description for each aggregate.
pub proof fn lemma_agg_specs_len(
    aggs: Seq<Expr>,
    rels: QueryRels,
    ctx: Option<AggChainCtx>,
    n: int,
)
    requires
        0 <= n,
        agg_specs(aggs, rels, ctx, n) is Some,
    ensures
        agg_specs(aggs, rels, ctx, n)->0.len() == n,
    decreases n,
{
    if n > 0 {
        lemma_agg_specs_len(aggs, rels, ctx, n - 1);
    }
}

/// Each aggregate has a description of its own, and none has a FILTER clause.
pub proof fn lemma_agg_specs_at(
    aggs: Seq<Expr>,
    rels: QueryRels,
    ctx: Option<AggChainCtx>,
    k: int,
    n: int,
)
    requires
        0 <= k < n,
        agg_specs(aggs, rels, ctx, n) is Some,
    ensures
        agg_spec(aggs[k], rels, ctx) is Some,
        aggs[k].aux is None,
    decreases n,
{
    if k < n - 1 {
        lemma_agg_specs_at(aggs, rels, ctx, k, n - 1);
    }
}

fn column_agg_arg(rels: &QueryRels, v: Var, kind: AggExpr, offset: i64) -> (r: Option<AggArg>)
    ensures
        r == column_arg(*rels, v, kind, offset),
{
    match rels.lookup(v) {
        Some((_, t)) => Some(
            AggArg {
                col_idx: v.varattno as i32 - 1,
                type_oid: t,
                kind,
                offset,
                transform: OutputTransform::Identity,
            },
        ),
        None => None,
    }
}

/// What an aggregate with this argument is taken over.
pub fn resolve_agg_arg(node: &Node, rels: &QueryRels, ctx: &Option<AggChainCtx>) -> (r: Option<
    AggArg,
>)
    requires
        *ctx matches Some(c) ==> c.wf(),
    ensures
        r == agg_arg(node.view(), *rels, *ctx),
{
    broadcast use group_node;

    if let Some(c) = ctx {
        if let Some((col, t)) = c.match_to_synthetic(node) {
            return Some(
                AggArg {
                    col_idx: col,
                    type_oid: t,
                    kind: AggExpr::Column,
                    offset: 0,
                    transform: OutputTransform::Identity,
                },
            );
        }
        if let Some((col, t, delta)) = try_match_timestamp_interval_min_max(c, node) {
            return Some(
                AggArg {
                    col_idx: col,
                    type_oid: t,
                    kind: AggExpr::Column,
                    offset: 0,
                    transform: OutputTransform::PgUsShift { delta },
                },
            );
        }
    }
    match &node.head {
        Head::Var(v) => column_agg_arg(rels, *v, AggExpr::Column, 0),
        Head::RelabelType(_) => {
            if node.args.len() == 0 {
                return None;
            }
            match &node.args[0].head {
                Head::Var(v) => column_agg_arg(rels, *v, AggExpr::Column, 0),
                _ => None,
            }
        },
        Head::FuncExpr(f) => {
            if f.name != FuncName::Length || node.args.len() != 1 {
                return None;
            }
            match &node.args[0].head {
                Head::Var(v) => column_agg_arg(rels, *v, AggExpr::LengthOf, 0),
                _ => None,
            }
        },
        Head::OpExpr(op) => {
            if op.name != OpName::Plus || node.args.len() != 2 {
                return None;
            }
            match (&node.args[0].head, &node.args[1].head) {
                (Head::Var(v), Head::Const(c)) | (Head::Const(c), Head::Var(v)) => {
                    if c.constisnull || !is_integer_type(c.consttype) {
                        return None;
                    }
                    let n: i64 = const_int_value(c);
                    if n < i32::MIN as i64 || n > i32::MAX as i64 {
                        return None;
                    }
                    column_agg_arg(rels, *v, AggExpr::AddConst, n)
                },
                _ => None,
            }
        },
        _ => None,
    }
}

/// An aggregate as a scan computes it.
pub fn classify_aggref(node: &Node, rels: &QueryRels, ctx: &Option<AggChainCtx>) -> (r: Option<
    AggSpec,
>)
    requires
        *ctx matches Some(c) ==> c.wf(),
    ensures
        r == agg_spec(node.view(), *rels, *ctx),
{
    broadcast use group_node;

    let info = match &node.head {
        Head::Aggref(info) => *info,
        _ => {
            return None;
        },
    };
    if node.aux.is_some() {
        return None;
    }
    if info.aggstar {
        return Some(
            AggSpec {
                agg_type: AggType::CountStar,
                col_idx: -1,
                result_type_oid: info.aggtype,
                col_type_oid: INVALID_OID,
                expr_kind: AggExpr::Column,
                const_offset: 0,
                output_transform: OutputTransform::Identity,
            },
        );
    }
    let agg_type = match info.name {
        FuncName::Sum => AggType::Sum,
        FuncName::Avg => AggType::Avg,
        FuncName::Count => if info.distinct {
            AggType::CountDistinct
        } else {
            AggType::Count
        },
        FuncName::Min => AggType::Min,
        FuncName::Max => AggType::Max,
        _ => {
            return None;
        },
    };
    if node.args.len() != 1 {
        return None;
    }
    let entry = &node.args[0];
    if !matches!(entry.head, Head::TargetEntry(_)) || entry.args.len() == 0
        || entry.args[0].is_null() {
        return None;
    }
    let a = match resolve_agg_arg(&entry.args[0], rels, ctx) {
        Some(a) => a,
        None => {
            return None;
        },
    };
    Some(
        AggSpec {
            agg_type,
            col_idx: a.col_idx,
            result_type_oid: info.aggtype,
            col_type_oid: if a.kind == AggExpr::LengthOf {
                INT4OID
            } else {
                a.type_oid
            },
            expr_kind: a.kind,
            const_offset: a.offset,
            output_transform: if agg_type == AggType::Min || agg_type == AggType::Max {
                a.transform
            } else {
                OutputTransform::Identity
            },
        },
    )
}

/// The aggregates of a query as a scan computes them; none where one cannot be.
pub fn classify_aggs(aggs: &Vec<Node>, rels: &QueryRels, ctx: &Option<AggChainCtx>) -> (r: Option<
    Vec<AggSpec>,
>)
    requires
        *ctx matches Some(c) ==> c.wf(),
    ensures
        match r {
            Some(v) => agg_specs(exprs(aggs@), *rels, *ctx, aggs@.len() as int) == Some(v@)
                && v@.len() == aggs@.len(),
            None => agg_specs(exprs(aggs@), *rels, *ctx, aggs@.len() as int) is None,
        },
{
    broadcast use group_node;

    let ghost es = exprs(aggs@);
    let mut out: Vec<AggSpec> = Vec::new();
    let mut i: usize = 0;
    while i < aggs.len()
        invariant
            i <= aggs.len(),
            es == exprs(aggs@),
            *ctx matches Some(c) ==> c.wf(),
            out@.len() == i,
            agg_specs(es, *rels, *ctx, i as int) == Some(out@),
        decreases aggs.len() - i,
    {
        assert(es[i as int] == aggs@[i as int].view());
        match classify_aggref(&aggs[i], rels, ctx) {
            Some(a) => {
                out.push(a);
            },
            None => {
                proof {
                    lemma_agg_specs_none(es, *rels, *ctx, i + 1, es.len() as int);
                }
                return None;
            },
        }
        i += 1;
    }
    Some(out)
}

/// Whether an aggregate follows from per-segment metadata.
pub open spec fn meta_answerable(a: AggSpec) -> bool {
    match a.agg_type {
        AggType::CountStar => true,
        AggType::Count => a.expr_kind == AggExpr::Column,
        AggType::Sum => (a.col_type_oid == INT2OID || a.col_type_oid == INT4OID || is_float_oid(
            a.col_type_oid,
        )) && a.expr_kind != AggExpr::LengthOf,
        AggType::Min | AggType::Max => a.expr_kind == AggExpr::Column && minmax_meta_type(
            a.col_type_oid,
        ) && a.output_transform == OutputTransform::Identity,
        AggType::Avg | AggType::CountDistinct => false,
    }
}

/// Whether every aggregate follows from per-segment metadata.
pub fn all_meta_answerable(aggs: &Vec<AggSpec>) -> (r: bool)
    ensures
        r == forall|i: int| 0 <= i < aggs@.len() ==> meta_answerable(#[trigger] aggs@[i]),
{
    let mut i: usize = 0;
    while i < aggs.len()
        invariant
            i <= aggs.len(),
            forall|j: int| 0 <= j < i ==> meta_answerable(#[trigger] aggs@[j]),
        decreases aggs.len() - i,
    {
        let a = aggs[i];
        let ok = match a.agg_type {
            AggType::CountStar => true,
            AggType::Count => a.expr_kind == AggExpr::Column,
            AggType::Sum => (a.col_type_oid == INT2OID || a.col_type_oid == INT4OID
                || is_float_type(a.col_type_oid)) && a.expr_kind != AggExpr::LengthOf,
            AggType::Min | AggType::Max => a.expr_kind == AggExpr::Column && is_minmax_meta_type(
                a.col_type_oid,
            ) && a.output_transform == OutputTransform::Identity,
            AggType::Avg | AggType::CountDistinct => false,
        };
        if !ok {
            return false;
        }
        i += 1;
    }
    true
}

pub open spec fn is_minmax(a: AggSpec) -> bool {
    a.agg_type == AggType::Min || a.agg_type == AggType::Max
}

/// Whether every aggregate is a MIN or a MAX.
pub fn all_minmax(aggs: &Vec<AggSpec>) -> (r: bool)
    ensures
        r == forall|i: int| 0 <= i < aggs@.len() ==> is_minmax(#[trigger] aggs@[i]),
{
    let mut i: usize = 0;
    while i < aggs.len()
        invariant
            i <= aggs.len(),
            forall|j: int| 0 <= j < i ==> is_minmax(#[trigger] aggs@[j]),
        decreases aggs.len() - i,
    {
        if aggs[i].agg_type != AggType::Min && aggs[i].agg_type != AggType::Max {
            return false;
        }
        i += 1;
    }
    true
}

} // verus!
