//! The path that is offered for an aggregate query over compressed partitions.

use vstd::prelude::*;
use crate::scan::agg_types::{groups_view, AggSpec, AggType, Group, GroupByColSpec, HavingFilter};
use crate::scan::catalog::{QueryRels, Relation};
use crate::scan::having::{having_of, parse_having, sort_target, find_sort_target};
use crate::scan::json_extract::AggChainCtx;
use crate::scan::minmax::{MetaAggKind, MinMaxAggSpec};
use crate::scan::node::{exprs, group_node, is_null, Expr, FuncName, Head, Node, Var};
use crate::scan::pushdown::{
    all_pushable, groupings, outputs_match, parse_group_by, pushable, validate_outputs, Groupings,
};
use crate::scan::quals::{
    extract_query_quals, has_where_clause, query_conditions, query_has_where, rel_exprs,
};
use crate::scan::time_bounds::{
    all_contained, classify_meta_quals, is_minmax_meta_type, meta_bounds_list, minmax_meta_type,
    partitions_contain_time_range, unbounded,
};
use crate::scan::upper::{
    agg_specs, all_meta_answerable, all_minmax, classify_aggs, classify_target_list, is_minmax,
    lemma_agg_specs_at, lemma_agg_specs_len, meta_answerable, parts_of, qtargets, single_arg, Parts, QTarget,
    QueryTarget, TlistParts,
};
use crate::text::{holds_text, joined, texts};

verus! {

/// An aggregate query.
pub struct UpperQuery {
    pub tlist: Vec<QueryTarget>,
    /// Target list entries that are grouped by.
    pub group_refs: Vec<u32>,
    /// WHERE conditions of the join tree; null where there are none.
    pub jointree: Node,
    /// WHERE conditions by relation.
    pub rel_quals: Vec<Vec<Node>>,
    /// HAVING clause; null where there is none.
    pub having: Node,
    pub rels: QueryRels,
}

/// A partitioned table: its columns, its time column, and the columns that
/// segments are split by.
pub struct ParentTable {
    pub relation: Relation,
    pub time_column: String,
    pub segment_by: Vec<String>,
}

/// What the catalog says about a query's tables.
pub struct UpperCatalog {
    /// Metadata tables of the partitions that the query reads.
    pub companion_oids: Vec<u32>,
    pub ctx: Option<AggChainCtx>,
    pub meta_fastpath_disabled: bool,
    pub parent: Option<ParentTable>,
    /// Time ranges of the partitions.
    pub partition_ranges: Option<Vec<(i64, i64)>>,
    /// Columns of the first metadata table.
    pub companion_columns: Vec<String>,
    /// Whether the first partition has a table of column statistics.
    pub has_colstats: bool,
}

impl UpperCatalog {
    pub open spec fn wf(&self) -> bool {
        self.ctx matches Some(c) ==> c.wf()
    }
}

/// The path for an aggregate query.
pub enum UpperPath {
    /// None of the extension's.
    Nothing,
    /// The number of rows, from metadata.
    Count { with_quals: bool },
    /// Aggregates, from metadata.
    MinMax { answers: Vec<MinMaxAggSpec>, with_quals: bool },
    /// An aggregate scan. `aggs` are the aggregates that `specs` describe, and
    /// `group_by_relid` is the relation of the first physical grouping column.
    Agg {
        aggs: Vec<Node>,
        specs: Vec<AggSpec>,
        groups: Vec<GroupByColSpec>,
        group_by_relid: u32,
        having: Vec<HavingFilter>,
    },
}

/// The mathematical value of an `UpperPath`.
pub enum Upper {
    Nothing,
    Count { with_quals: bool },
    MinMax { answers: Seq<MinMaxAggSpec>, with_quals: bool },
    Agg {
        aggs: Seq<Expr>,
        specs: Seq<AggSpec>,
        groups: Seq<Group>,
        group_by_relid: u32,
        having: Seq<HavingFilter>,
    },
}

impl UpperPath {
    pub open spec fn view(&self) -> Upper {
        match self {
            UpperPath::Nothing => Upper::Nothing,
            UpperPath::Count { with_quals } => Upper::Count { with_quals: *with_quals },
            UpperPath::MinMax { answers, with_quals } => Upper::MinMax {
                answers: answers@,
                with_quals: *with_quals,
            },
            UpperPath::Agg { aggs, specs, groups, group_by_relid, having } => Upper::Agg {
                aggs: exprs(aggs@),
                specs: specs@,
                groups: groups_view(groups@),
                group_by_relid: *group_by_relid,
                having: having@,
            },
        }
    }
}

impl UpperQuery {
    pub open spec fn where_conditions(&self) -> Seq<Expr> {
        query_conditions(self.jointree.view(), rel_exprs(self.rel_quals@))
    }

    pub open spec fn has_where(&self) -> bool {
        query_has_where(self.jointree.view(), rel_exprs(self.rel_quals@))
    }

    pub open spec fn grouped(&self) -> bool {
        self.group_refs@.len() > 0
    }

    pub open spec fn has_having(&self) -> bool {
        !is_null(self.having.view())
    }
}

/// Whether metadata can answer the WHERE clause: it allows a range of times
/// that holds all partitions, and otherwise only picks segments.
pub open spec fn meta_where(q: UpperQuery, cat: UpperCatalog) -> bool {
    &&& q.where_conditions().len() > 0
    &&& cat.parent matches Some(p) && {
        let bounds = meta_bounds_list(
            q.where_conditions(),
            p.relation,
            p.time_column@,
            texts(p.segment_by@),
            unbounded(),
            q.where_conditions().len() as int,
        );
        bounds matches Some(b) && ((b.lo is None && b.hi is None) || (
        cat.partition_ranges matches Some(v) && v@.len() == cat.companion_oids@.len()
            && all_contained(b, v@)))
    }
}

/// Whether the query asks for the number of all rows alone: a single COUNT(*)
/// without a FILTER clause.
pub open spec fn only_count_star(aggs: Seq<Expr>) -> bool {
    aggs.len() == 1 && aggs[0].aux is None && (aggs[0].head matches Head::Aggref(a) && a.aggstar)
}

/// An aggregate that metadata answers.
pub open spec fn meta_spec(agg: Expr, a: AggSpec) -> MinMaxAggSpec {
    let info = agg.head->Aggref_0;
    MinMaxAggSpec {
        kind: match a.agg_type {
            AggType::Min => MetaAggKind::Min,
            AggType::Max => MetaAggKind::Max,
            AggType::Sum => MetaAggKind::Sum,
            AggType::Count => MetaAggKind::CountCol,
            _ => MetaAggKind::CountStar,
        },
        varattno: if a.agg_type == AggType::CountStar {
            0
        } else {
            (a.col_idx + 1) as i16
        },
        result_type_oid: info.aggtype,
        col_type_oid: a.col_type_oid,
        typlen: info.typlen,
        typbyval: info.typbyval,
        const_offset: a.const_offset,
    }
}

pub open spec fn meta_specs(aggs: Seq<Expr>, specs: Seq<AggSpec>) -> Seq<MinMaxAggSpec> {
    Seq::new(specs.len(), |i: int| meta_spec(aggs[i], specs[i]))
}

/// A MIN or MAX of a column whose extremes the metadata tables hold.
pub open spec fn column_extreme(agg: Expr, rels: QueryRels, cat: UpperCatalog) -> Option<
    MinMaxAggSpec,
> {
    match (agg.head, single_arg(agg)) {
        (Head::Aggref(info), Some(e)) => match e.head {
            Head::Var(v) => match rels.rel_of(v) {
                Some(rel) => match rel.name_of(v.varattno) {
                    Some(name) => if texts(cat.companion_columns@).contains("_min_"@ + name) || (
                    cat.has_colstats && minmax_meta_type(rel.type_of(v.varattno))) {
                        Some(
                            MinMaxAggSpec {
                                kind: if info.name == FuncName::Min {
                                    MetaAggKind::Min
                                } else {
                                    MetaAggKind::Max
                                },
                                varattno: v.varattno,
                                result_type_oid: info.aggtype,
                                col_type_oid: rel.type_of(v.varattno),
                                typlen: info.typlen,
                                typbyval: info.typbyval,
                                const_offset: 0,
                            },
                        )
                    } else {
                        None
                    },
                    None => None,
                },
                None => None,
            },
            _ => None,
        },
        _ => None,
    }
}

/// The first `n` aggregates as such extremes.
pub open spec fn column_extremes(
    aggs: Seq<Expr>,
    rels: QueryRels,
    cat: UpperCatalog,
    n: int,
) -> Option<Seq<MinMaxAggSpec>>
    decreases n,
{
    if n <= 0 {
        Some(Seq::empty())
    } else {
        match (column_extremes(aggs, rels, cat, n - 1), column_extreme(aggs[n - 1], rels, cat)) {
            (Some(before), Some(s)) => Some(before.push(s)),
            _ => None,
        }
    }
}

/// The expressions that are grouped by; none where one is not in the target list.
pub open spec fn group_exprs(tlist: Seq<QTarget>, refs: Seq<u32>, n: int) -> Option<Seq<Expr>>
    decreases n,
{
    if n <= 0 {
        Some(Seq::empty())
    } else {
        match (group_exprs(tlist, refs, n - 1), sort_target(tlist, refs[n - 1])) {
            (Some(before), Some(t)) => Some(before.push(tlist[t].expr)),
            _ => None,
        }
    }
}

/// The groupings of a query whose target list holds `parts`; none where the
/// scan cannot compute them or cannot put out what the target list asks for.
pub open spec fn query_groupings(q: UpperQuery, parts: Parts, ctx: Option<AggChainCtx>) -> Option<
    Groupings,
> {
    if q.grouped() {
        match group_exprs(qtargets(q.tlist@), q.group_refs@, q.group_refs@.len() as int) {
            Some(s) => match groupings(s, q.rels, ctx, s.len() as int) {
                Some(g) => if outputs_match(
                    parts.funcs,
                    parts.ops,
                    parts.has_case,
                    g.groups,
                    ctx,
                ) {
                    Some(g)
                } else {
                    None
                },
                None => None,
            },
            None => None,
        }
    } else {
        Some(Groupings { groups: Seq::empty(), relid: crate::pg_types::INVALID_OID })
    }
}

/// The filters of a query's HAVING clause.
pub open spec fn query_having(q: UpperQuery, aggs: Seq<Expr>) -> Option<Seq<HavingFilter>> {
    if q.has_having() {
        having_of(q.having.view(), aggs)
    } else {
        Some(Seq::empty())
    }
}

/// An aggregate scan for the query, where it can compute everything.
pub open spec fn agg_scan_path(
    q: UpperQuery,
    parts: Parts,
    specs: Seq<AggSpec>,
    ctx: Option<AggChainCtx>,
) -> Upper {
    let conditions = q.where_conditions();
    if q.has_where() && !(forall|i: int|
        0 <= i < conditions.len() ==> pushable(#[trigger] conditions[i], ctx)) {
        Upper::Nothing
    } else {
        match (query_groupings(q, parts, ctx), query_having(q, parts.aggs)) {
            (Some(g), Some(h)) => Upper::Agg {
                aggs: parts.aggs,
                specs,
                groups: g.groups,
                group_by_relid: g.relid,
                having: h,
            },
            _ => Upper::Nothing,
        }
    }
}

/// The path for a query whose aggregates are `specs`: from metadata where all
/// of it can be answered so, else an aggregate scan.
pub open spec fn classified_path(
    q: UpperQuery,
    cat: UpperCatalog,
    parts: Parts,
    specs: Seq<AggSpec>,
) -> Upper {
    let ungrouped = !q.grouped() && !q.has_having();
    let all_meta = forall|i: int| 0 <= i < specs.len() ==> meta_answerable(#[trigger] specs[i]);
    let extremes = forall|i: int| 0 <= i < specs.len() ==> is_minmax(#[trigger] specs[i]);
    if all_meta && ungrouped && !cat.meta_fastpath_disabled && (!q.has_where() || meta_where(
        q,
        cat,
    )) {
        Upper::MinMax { answers: meta_specs(parts.aggs, specs), with_quals: q.has_where() }
    } else if extremes && ungrouped && !q.has_where() {
        match column_extremes(parts.aggs, q.rels, cat, parts.aggs.len() as int) {
            Some(s) => Upper::MinMax { answers: s, with_quals: false },
            None => Upper::Nothing,
        }
    } else {
        agg_scan_path(q, parts, specs, cat.ctx)
    }
}

/// The path for an aggregate query.
pub open spec fn upper_path(q: UpperQuery, cat: UpperCatalog) -> Upper {
    match parts_of(qtargets(q.tlist@), q.grouped(), q.tlist@.len() as int) {
        Some(parts) => if parts.aggs.len() == 0 || cat.companion_oids@.len() == 0 {
            Upper::Nothing
        } else if only_count_star(parts.aggs) && !q.grouped() && !q.has_having() && (
        !q.has_where() || (!cat.meta_fastpath_disabled && meta_where(q, cat))) {
            Upper::Count { with_quals: q.has_where() }
        } else {
            match agg_specs(parts.aggs, q.rels, cat.ctx, parts.aggs.len() as int) {
                Some(specs) => classified_path(q, cat, parts, specs),
                None => Upper::Nothing,
            }
        },
        None => Upper::Nothing,
    }
}

/// Whether metadata can answer the WHERE clause.
fn check_meta_where(q: &UpperQuery, cat: &UpperCatalog) -> (r: bool)
    ensures
        r == meta_where(*q, *cat),
{
    let quals = extract_query_quals(&q.jointree, &q.rel_quals);
    assert(exprs(quals@).len() == quals@.len());
    if quals.len() == 0 {
        return false;
    }
    let parent = match &cat.parent {
        Some(p) => p,
        None => {
            return false;
        },
    };
    match classify_meta_quals(
        &quals,
        &parent.relation,
        parent.time_column.as_str(),
        &parent.segment_by,
    ) {
        Some(b) => partitions_contain_time_range(
            &b,
            cat.companion_oids.len(),
            &cat.partition_ranges,
        ),
        None => false,
    }
}

fn build_meta_specs(aggs: &Vec<Node>, specs: &Vec<AggSpec>) -> (r: Vec<MinMaxAggSpec>)
    requires
        aggs@.len() == specs@.len(),
        forall|i: int| 0 <= i < aggs@.len() ==> (#[trigger] exprs(aggs@)[i]).head is Aggref,
    ensures
        r@ == meta_specs(exprs(aggs@), specs@),
{
    broadcast use group_node;

    let mut out: Vec<MinMaxAggSpec> = Vec::new();
    let mut i: usize = 0;
    while i < specs.len()
        invariant
            i <= specs.len() == aggs.len(),
            forall|i: int| 0 <= i < aggs@.len() ==> (#[trigger] exprs(aggs@)[i]).head is Aggref,
            out@ == Seq::new(i as nat, |k: int| meta_spec(exprs(aggs@)[k], specs@[k])),
        decreases specs.len() - i,
    {
        let a = specs[i];
        assert(exprs(aggs@)[i as int] == aggs@[i as int].view());
        if let Head::Aggref(info) = &aggs[i].head {
            let varattno: i16 = if a.agg_type == AggType::CountStar {
                0
            } else {
                #[verifier::truncate]
                ((a.col_idx as i64 + 1) as i16)
            };
            let s = MinMaxAggSpec {
                kind: match a.agg_type {
                    AggType::Min => MetaAggKind::Min,
                    AggType::Max => MetaAggKind::Max,
                    AggType::Sum => MetaAggKind::Sum,
                    AggType::Count => MetaAggKind::CountCol,
                    _ => MetaAggKind::CountStar,
                },
                varattno,
                result_type_oid: info.aggtype,
                col_type_oid: a.col_type_oid,
                typlen: info.typlen,
                typbyval: info.typbyval,
                const_offset: a.const_offset,
            };
            out.push(s);
        }
        i += 1;
        assert(out@ =~= Seq::new(i as nat, |k: int| meta_spec(exprs(aggs@)[k], specs@[k])));
    }
    assert(out@ =~= meta_specs(exprs(aggs@), specs@));
    out
}

fn find_column_extreme(node: &Node, rels: &QueryRels, cat: &UpperCatalog) -> (r: Option<
    MinMaxAggSpec,
>)
    ensures
        r == column_extreme(node.view(), *rels, *cat),
{
    broadcast use group_node;

    let info = match &node.head {
        Head::Aggref(info) => *info,
        _ => {
            return None;
        },
    };
    if node.args.len() != 1 {
        return None;
    }
    let entry = &node.args[0];
    if !matches!(entry.head, Head::TargetEntry(_)) || entry.args.len() == 0 {
        return None;
    }
    let v = match &entry.args[0].head {
        Head::Var(v) => *v,
        _ => {
            return None;
        },
    };
    let rel = match rels.relation(v) {
        Some(r) => r,
        None => {
            return None;
        },
    };
    let name = match rel.column_name(v.varattno) {
        Some(n) => n,
        None => {
            return None;
        },
    };
    let min_col = joined("_min_", name.as_str());
    let t: u32 = rel.column_type(v.varattno);
    if !holds_text(&cat.companion_columns, min_col.as_str()) && !(cat.has_colstats
        && is_minmax_meta_type(t)) {
        return None;
    }
    Some(
        MinMaxAggSpec {
            kind: if info.name == FuncName::Min {
                MetaAggKind::Min
            } else {
                MetaAggKind::Max
            },
            varattno: v.varattno,
            result_type_oid: info.aggtype,
            col_type_oid: t,
            typlen: info.typlen,
            typbyval: info.typbyval,
            const_offset: 0,
        },
    )
}

proof fn lemma_extremes_none(aggs: Seq<Expr>, rels: QueryRels, cat: UpperCatalog, k: int, n: int)
    requires
        k <= n,
        column_extremes(aggs, rels, cat, k) is None,
    ensures
        column_extremes(aggs, rels, cat, n) is None,
    decreases n,
{
    if k < n {
        lemma_extremes_none(aggs, rels, cat, k, n - 1);
    }
}

fn find_column_extremes(aggs: &Vec<Node>, rels: &QueryRels, cat: &UpperCatalog) -> (r: Option<
    Vec<MinMaxAggSpec>,
>)
    ensures
        match r {
            Some(v) => column_extremes(exprs(aggs@), *rels, *cat, aggs@.len() as int) == Some(v@),
            None => column_extremes(exprs(aggs@), *rels, *cat, aggs@.len() as int) is None,
        },
{
    broadcast use group_node;

    let ghost es = exprs(aggs@);
    let mut out: Vec<MinMaxAggSpec> = Vec::new();
    let mut i: usize = 0;
    while i < aggs.len()
        invariant
            i <= aggs.len(),
            es == exprs(aggs@),
            column_extremes(es, *rels, *cat, i as int) == Some(out@),
        decreases aggs.len() - i,
    {
        assert(es[i as int] == aggs@[i as int].view());
        match find_column_extreme(&aggs[i], rels, cat) {
            Some(s) => {
                out.push(s);
            },
            None => {
                proof {
                    lemma_extremes_none(es, *rels, *cat, i + 1, es.len() as int);
                }
                return None;
            },
        }
        i += 1;
    }
    Some(out)
}

proof fn lemma_group_exprs_none(tlist: Seq<QTarget>, refs: Seq<u32>, k: int, n: int)
    requires
        k <= n,
        group_exprs(tlist, refs, k) is None,
    ensures
        group_exprs(tlist, refs, n) is None,
    decreases n,
{
    if k < n {
        lemma_group_exprs_none(tlist, refs, k, n - 1);
    }
}

fn find_group_exprs(tlist: &Vec<QueryTarget>, refs: &Vec<u32>) -> (r: Option<Vec<Node>>)
    ensures
        match r {
            Some(v) => group_exprs(qtargets(tlist@), refs@, refs@.len() as int) == Some(exprs(v@)),
            None => group_exprs(qtargets(tlist@), refs@, refs@.len() as int) is None,
        },
{
    broadcast use group_node;

    let ghost tl = qtargets(tlist@);
    let mut out: Vec<Node> = Vec::new();
    let mut i: usize = 0;
    assert(exprs(out@) =~= Seq::<Expr>::empty());
    while i < refs.len()
        invariant
            i <= refs.len(),
            tl == qtargets(tlist@),
            group_exprs(tl, refs@, i as int) == Some(exprs(out@)),
        decreases refs.len() - i,
    {
        match find_sort_target(tlist, refs[i]) {
            Some(t) => {
                let n = tlist[t].expr.dup();
                assert(tl[t as int] == tlist@[t as int].view());
                let ghost before = out@;
                out.push(n);
                assert(exprs(out@) =~= exprs(before).push(tl[t as int].expr));
            },
            None => {
                proof {
                    lemma_group_exprs_none(tl, refs@, i + 1, refs@.len() as int);
                }
                return None;
            },
        }
        i += 1;
    }
    Some(out)
}

/// Aggregates of a target list are aggregates.
proof fn lemma_parts_are_aggs(tlist: Seq<QTarget>, grouped: bool, n: int)
    ensures
        parts_of(tlist, grouped, n) matches Some(p) ==> forall|i: int|
            0 <= i < p.aggs.len() ==> (#[trigger] p.aggs[i]).head is Aggref,
    decreases n,
{
    if n > 0 {
        lemma_parts_are_aggs(tlist, grouped, n - 1);
        lemma_aggs_in(tlist[n - 1].expr);
        match parts_of(tlist, grouped, n) {
            Some(p) => {
                let q = parts_of(tlist, grouped, n - 1)->0;
                assert forall|i: int| 0 <= i < p.aggs.len() implies (
                #[trigger] p.aggs[i]).head is Aggref by {
                    if i < q.aggs.len() {
                        assert(p.aggs[i] == q.aggs[i]);
                    } else if p.aggs.len() > q.aggs.len() && !(tlist[n - 1].expr.head is Aggref) {
                        assert(p.aggs[i] == crate::scan::exprs::aggs_in(
                            tlist[n - 1].expr,
                        )[i - q.aggs.len()]);
                    }
                }
            },
            None => {},
        }
    }
}

proof fn lemma_aggs_in(e: Expr)
    ensures
        forall|i: int|
            0 <= i < crate::scan::exprs::aggs_in(e).len() ==> (
            #[trigger] crate::scan::exprs::aggs_in(e)[i]).head is Aggref,
    decreases e, 0int,
{
    match e.head {
        Head::RelabelType(_) | Head::CoerceViaIO(_) | Head::OpExpr(_) | Head::FuncExpr(_) => {
            lemma_aggs_in_list(e.args, e.args.len() as int);
        },
        _ => {},
    }
}

proof fn lemma_aggs_in_list(s: Seq<Expr>, n: int)
    ensures
        forall|i: int|
            0 <= i < crate::scan::exprs::aggs_in_list(s, n).len() ==> (
            #[trigger] crate::scan::exprs::aggs_in_list(s, n)[i]).head is Aggref,
    decreases s, n,
{
    if 0 < n <= s.len() {
        lemma_aggs_in_list(s, n - 1);
        lemma_aggs_in(s[n - 1]);
        let a = crate::scan::exprs::aggs_in_list(s, n - 1);
        let b = crate::scan::exprs::aggs_in(s[n - 1]);
        assert forall|i: int| 0 <= i < (a + b).len() implies (
        #[trigger] crate::scan::exprs::aggs_in_list(s, n)[i]).head is Aggref by {
            if i < a.len() {
                assert((a + b)[i] == a[i]);
            } else {
                assert((a + b)[i] == b[i - a.len()]);
            }
        }
    }
}

fn find_groupings(q: &UpperQuery, parts: &TlistParts, ctx: &Option<AggChainCtx>) -> (r: Option<
    (Vec<GroupByColSpec>, u32),
>)
    requires
        *ctx matches Some(c) ==> c.wf(),
    ensures
        match r {
            Some((v, relid)) => query_groupings(*q, parts.view(), *ctx) == Some(
                Groupings { groups: groups_view(v@), relid },
            ),
            None => query_groupings(*q, parts.view(), *ctx) is None,
        },
{
    if q.group_refs.len() == 0 {
        let none: Vec<GroupByColSpec> = Vec::new();
        assert(groups_view(none@) =~= Seq::<Group>::empty());
        return Some((none, crate::pg_types::INVALID_OID));
    }
    let list = match find_group_exprs(&q.tlist, &q.group_refs) {
        Some(v) => v,
        None => {
            return None;
        },
    };
    assert(exprs(list@).len() == list@.len());
    let (groups, relid) = match parse_group_by(&list, &q.rels, ctx) {
        Some(x) => x,
        None => {
            return None;
        },
    };
    if !validate_outputs(&parts.funcs, &parts.ops, parts.has_case, &groups, ctx) {
        return None;
    }
    Some((groups, relid))
}

/// An aggregate scan for the query, where it can compute everything.
fn plan_agg_scan(
    q: &UpperQuery,
    parts: TlistParts,
    specs: Vec<AggSpec>,
    ctx: &Option<AggChainCtx>,
) -> (r: UpperPath)
    requires
        *ctx matches Some(c) ==> c.wf(),
    ensures
        r.view() == agg_scan_path(*q, parts.view(), specs@, *ctx),
{
    if has_where_clause(&q.jointree, &q.rel_quals) {
        let quals = extract_query_quals(&q.jointree, &q.rel_quals);
        let ghost conditions = q.where_conditions();
        assert(conditions == exprs(quals@));
        assert(conditions.len() == quals@.len());
        if !all_pushable(&quals, ctx) {
            assert(!(forall|i: int|
                0 <= i < conditions.len() ==> pushable(#[trigger] conditions[i], *ctx))) by {
                let i = choose|i: int|
                    0 <= i < quals@.len() && !pushable(#[trigger] exprs(quals@)[i], *ctx);
                assert(!pushable(conditions[i], *ctx));
            }
            return UpperPath::Nothing;
        }
    }
    let (groups, group_by_relid) = match find_groupings(q, &parts, ctx) {
        Some(x) => x,
        None => {
            return UpperPath::Nothing;
        },
    };
    let having: Vec<HavingFilter> = if q.having.is_null() {
        Vec::new()
    } else {
        match parse_having(&q.having, &parts.aggs) {
            Some(h) => h,
            None => {
                return UpperPath::Nothing;
            },
        }
    };
    UpperPath::Agg { aggs: parts.aggs, specs, groups, group_by_relid, having }
}

/// The path for a query whose aggregates are `specs`.
fn plan_classified(
    q: &UpperQuery,
    cat: &UpperCatalog,
    parts: TlistParts,
    specs: Vec<AggSpec>,
) -> (r: UpperPath)
    requires
        cat.wf(),
        parts.aggs@.len() == specs@.len(),
        forall|i: int|
            0 <= i < parts.aggs@.len() ==> (#[trigger] exprs(parts.aggs@)[i]).head is Aggref,
    ensures
        r.view() == classified_path(*q, *cat, parts.view(), specs@),
{
    let has_where = has_where_clause(&q.jointree, &q.rel_quals);
    let grouped = q.group_refs.len() > 0;
    let has_having = !q.having.is_null();
    if all_meta_answerable(&specs) && !grouped && !has_having && !cat.meta_fastpath_disabled {
        if !has_where || check_meta_where(q, cat) {
            return UpperPath::MinMax {
                answers: build_meta_specs(&parts.aggs, &specs),
                with_quals: has_where,
            };
        }
    }
    if all_minmax(&specs) && !grouped && !has_having && !has_where {
        return match find_column_extremes(&parts.aggs, &q.rels, cat) {
            Some(s) => UpperPath::MinMax { answers: s, with_quals: false },
            None => UpperPath::Nothing,
        };
    }
    plan_agg_scan(q, parts, specs, &cat.ctx)
}

/// Decides the path for an aggregate query over compressed partitions.
///
/// COUNT(*) alone, and aggregates that follow from per-segment metadata, are
/// answered from metadata; the WHERE clause has to allow that. Everything else
/// that the aggregate scan can compute goes to it.
pub fn create_upper_path(q: &UpperQuery, cat: &UpperCatalog) -> (r: UpperPath)
    requires
        cat.wf(),
    ensures
        r.view() == upper_path(*q, *cat),
        r matches UpperPath::Agg { aggs, specs, .. } ==> aggs@.len() == specs@.len(),
{
    broadcast use group_node;

    proof {
        lemma_agg_path_specs(*q, *cat);
    }
    let grouped = q.group_refs.len() > 0;
    let has_having = !q.having.is_null();
    let parts = match classify_target_list(&q.tlist, grouped) {
        Some(p) => p,
        None => {
            return UpperPath::Nothing;
        },
    };
    proof {
        lemma_parts_are_aggs(qtargets(q.tlist@), grouped, q.tlist@.len() as int);
    }
    assert(exprs(parts.aggs@).len() == parts.aggs@.len());
    if parts.aggs.len() == 0 || cat.companion_oids.len() == 0 {
        return UpperPath::Nothing;
    }
    let count_star = parts.aggs.len() == 1 && parts.aggs[0].aux.is_none()
        && match &parts.aggs[0].head {
        Head::Aggref(a) => a.aggstar,
        _ => false,
    };
    assert(count_star == only_count_star(exprs(parts.aggs@))) by {
        assert(exprs(parts.aggs@)[0] == parts.aggs@[0].view());
    }
    if count_star && !grouped && !has_having {
        let has_where = has_where_clause(&q.jointree, &q.rel_quals);
        if !has_where || (!cat.meta_fastpath_disabled && check_meta_where(q, cat)) {
            return UpperPath::Count { with_quals: has_where };
        }
    }
    let specs = match classify_aggs(&parts.aggs, &q.rels, &cat.ctx) {
        Some(s) => s,
        None => {
            return UpperPath::Nothing;
        },
    };
    plan_classified(q, cat, parts, specs)
}

/// Whether every condition of the WHERE clause is one that the scan checks.
pub open spec fn where_checked(q: UpperQuery, ctx: Option<AggChainCtx>) -> bool {
    q.has_where() ==> forall|i: int|
        0 <= i < q.where_conditions().len() ==> pushable(#[trigger] q.where_conditions()[i], ctx)
}

/// No path drops a condition of the query.
///
/// Of the WHERE clause: a path from metadata without conditions is for a query
/// without any, one with conditions is for a query that metadata can answer,
/// and an aggregate scan checks every condition. Of HAVING: a path from metadata
/// is for a query without it and without groupings, and an aggregate scan filters by all of it. Of the
/// aggregates: none that has a FILTER clause gets a path.
pub proof fn lemma_no_condition_is_dropped(q: UpperQuery, cat: UpperCatalog)
    ensures
        match upper_path(q, cat) {
            Upper::Count { with_quals } => !q.grouped() && !q.has_having() && if with_quals {
                meta_where(q, cat)
            } else {
                !q.has_where()
            },
            Upper::MinMax { answers, with_quals } => !q.grouped() && !q.has_having() && if with_quals {
                meta_where(q, cat)
            } else {
                !q.has_where()
            },
            Upper::Agg { aggs, having, .. } => where_checked(q, cat.ctx) && if q.has_having() {
                having_of(q.having.view(), aggs) == Some(having)
            } else {
                having.len() == 0
            },
            Upper::Nothing => true,
        },
        upper_path(q, cat) is Nothing || (parts_of(
            qtargets(q.tlist@),
            q.grouped(),
            q.tlist@.len() as int,
        ) matches Some(parts) && forall|i: int|
            0 <= i < parts.aggs.len() ==> (#[trigger] parts.aggs[i]).aux is None),
{
    match parts_of(qtargets(q.tlist@), q.grouped(), q.tlist@.len() as int) {
        Some(parts) => {
            let n = parts.aggs.len() as int;
            if agg_specs(parts.aggs, q.rels, cat.ctx, n) is Some {
                assert forall|i: int| 0 <= i < n implies (#[trigger] parts.aggs[i]).aux is None by {
                    lemma_agg_specs_at(parts.aggs, q.rels, cat.ctx, i, n);
                }
            }
        },
        None => {},
    }
}

/// An aggregate scan has a description for each aggregate.
pub proof fn lemma_agg_path_specs(q: UpperQuery, cat: UpperCatalog)
    ensures
        upper_path(q, cat) matches Upper::Agg { aggs, specs, .. } ==> aggs.len() == specs.len(),
{
    match parts_of(qtargets(q.tlist@), q.grouped(), q.tlist@.len() as int) {
        Some(parts) => {
            let n = parts.aggs.len() as int;
            if agg_specs(parts.aggs, q.rels, cat.ctx, n) is Some {
                lemma_agg_specs_len(parts.aggs, q.rels, cat.ctx, n);
            }
        },
        None => {},
    }
}

} // verus!
