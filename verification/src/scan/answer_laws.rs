//! What metadata answers is what the query asks for.

use vstd::prelude::*;
use crate::scan::agg_laws::{
    all_null, count_value, described_values, is_largest, is_no_cast, is_smallest,
    lemma_scan_answers_as_sql, row_serves, scan_answer, shift_of, sql_answer, sql_values, strictly,
    total_value, Answer, ScanRow,
};
use crate::scan::agg_types::{AggExpr, AggSpec, AggType};
use crate::scan::catalog::QueryRels;
use crate::scan::json_extract::AggChainCtx;
use crate::scan::minmax::{MetaAggKind, MinMaxAggSpec};
use crate::scan::node::{Expr, FuncName, Head};
use crate::scan::upper::{
    agg_arg, agg_spec, agg_specs, is_minmax, lemma_agg_specs_len, meta_answerable, parts_of,
    qtargets, single_arg,
};
use crate::scan::upper_path::{
    column_extreme, column_extremes, meta_spec, meta_specs, only_count_star, upper_path, Upper,
    UpperCatalog, UpperQuery,
};

verus! {

/// The values of a column, by its number from 1, on rows.
pub open spec fn column_values(rows: Seq<ScanRow>, attno: int) -> Seq<Option<int>> {
    Seq::new(rows.len(), |i: int| (rows[i].col)(attno - 1))
}

/// Whether `a` is the answer that metadata gives: it knows the extremes of a
/// column, its sum, how many of its values are not NULL, and how many rows there
/// are.
pub open spec fn meta_answer(rows: Seq<ScanRow>, m: MinMaxAggSpec, a: Answer) -> bool {
    let vals = column_values(rows, m.varattno as int);
    match m.kind {
        MetaAggKind::CountStar => a == Answer::Number(rows.len() as int),
        MetaAggKind::CountCol => a == Answer::Number(count_value(vals)),
        MetaAggKind::Sum => if all_null(vals) {
            a is Null
        } else {
            a == Answer::Number(total_value(vals) + m.const_offset * count_value(vals))
        },
        MetaAggKind::Min => if all_null(vals) {
            a is Null
        } else {
            a matches Answer::Number(x) && is_smallest(vals, x)
        },
        MetaAggKind::Max => if all_null(vals) {
            a is Null
        } else {
            a matches Answer::Number(x) && is_largest(vals, x)
        },
    }
}

proof fn lemma_shifted_total(s: Seq<Option<int>>, t: Seq<Option<int>>, d: int)
    requires
        s.len() == t.len(),
        forall|i: int| 0 <= i < s.len() ==> #[trigger] t[i] == strictly(s[i], |y: int| y + d),
    ensures
        total_value(t) == total_value(s) + d * count_value(s),
        all_null(s) <==> all_null(t),
    decreases s.len(),
{
    assert forall|i: int| 0 <= i < s.len() implies (#[trigger] s[i]) is None == (t[i] is None) by {
        assert(t[i] == strictly(s[i], |y: int| y + d));
    }
    assert forall|i: int| 0 <= i < s.len() implies (#[trigger] t[i]) is None == (s[i] is None) by {}
    if s.len() > 0 {
        let (u, v) = (s.drop_last(), t.drop_last());
        assert forall|i: int| 0 <= i < u.len() implies #[trigger] v[i] == strictly(
            u[i],
            |y: int| y + d,
        ) by {
            assert(t[i] == strictly(s[i], |y: int| y + d));
        }
        lemma_shifted_total(u, v, d);
        assert(t[t.len() - 1] == strictly(s[s.len() - 1], |y: int| y + d));
        let c = count_value(u);
        assert(d * (c + 1) == d * c + d) by (nonlinear_arith);
    } else {
        assert(d * 0 == 0);
    }
}

/// Metadata answers an aggregate that follows from it as the scan would.
pub proof fn lemma_metadata_answers_as_scan(
    agg: Expr,
    rels: QueryRels,
    ctx: Option<AggChainCtx>,
    rows: Seq<ScanRow>,
    a: Answer,
)
    requires
        agg_spec(agg, rels, ctx) is Some,
        meta_answerable(agg_spec(agg, rels, ctx)->0),
        agg_spec(agg, rels, ctx)->0.col_idx < i16::MAX,
        agg_spec(agg, rels, ctx)->0.col_idx >= i16::MIN,
    ensures
        ({
            let s = agg_spec(agg, rels, ctx)->0;
            let m = meta_spec(agg, s);
            &&& meta_answer(rows, m, a) <==> scan_answer(rows, s, a)
            &&& m.result_type_oid == agg.head->Aggref_0.aggtype
            &&& m.col_type_oid == s.col_type_oid
            &&& m.typlen == agg.head->Aggref_0.typlen
            &&& m.typbyval == agg.head->Aggref_0.typbyval
        }),
{
    let s = agg_spec(agg, rels, ctx)->0;
    let m = meta_spec(agg, s);
    let u = column_values(rows, m.varattno as int);
    let v = described_values(rows, s);
    if s.agg_type != AggType::CountStar {
        assert(m.varattno - 1 == s.col_idx);
        if s.expr_kind == AggExpr::Column {
            assert(u =~= v);
            assert(s.const_offset == 0);
        } else {
            assert forall|i: int| 0 <= i < u.len() implies #[trigger] v[i] == strictly(
                u[i],
                |y: int| y + s.const_offset,
            ) by {}
            lemma_shifted_total(u, v, s.const_offset as int);
        }
    }
}

/// A MIN or MAX of a column whose extremes the metadata tables hold is answered
/// as SQL does.
pub proof fn lemma_extreme_answers_as_sql(
    agg: Expr,
    rels: QueryRels,
    cat: UpperCatalog,
    rows: Seq<ScanRow>,
    a: Answer,
)
    requires
        column_extreme(agg, rels, cat) is Some,
        agg.head matches Head::Aggref(info) && !info.aggstar && (info.name == FuncName::Min
            || info.name == FuncName::Max),
    ensures
        single_arg(agg) matches Some(e) && (meta_answer(
            rows,
            column_extreme(agg, rels, cat)->0,
            a,
        ) <==> sql_answer(agg.head->Aggref_0.name, false, false, sql_values(rows, e), a)),
        column_extreme(agg, rels, cat)->0.result_type_oid == agg.head->Aggref_0.aggtype,
{
    let e = single_arg(agg)->0;
    let m = column_extreme(agg, rels, cat)->0;
    assert(column_values(rows, m.varattno as int) =~= sql_values(rows, e));
}

proof fn lemma_extremes_at(aggs: Seq<Expr>, rels: QueryRels, cat: UpperCatalog, n: int, k: int)
    requires
        0 <= k < n,
        column_extremes(aggs, rels, cat, n) is Some,
    ensures
        column_extremes(aggs, rels, cat, n)->0.len() == n,
        column_extreme(aggs[k], rels, cat) == Some(column_extremes(aggs, rels, cat, n)->0[k]),
    decreases n,
{
    lemma_extremes_len(aggs, rels, cat, n - 1);
    if k < n - 1 {
        lemma_extremes_at(aggs, rels, cat, n - 1, k);
    }
}

proof fn lemma_extremes_len(aggs: Seq<Expr>, rels: QueryRels, cat: UpperCatalog, n: int)
    requires
        0 <= n,
        column_extremes(aggs, rels, cat, n) is Some,
    ensures
        column_extremes(aggs, rels, cat, n)->0.len() == n,
    decreases n,
{
    if n > 0 {
        lemma_extremes_len(aggs, rels, cat, n - 1);
    }
}

proof fn lemma_specs_at(
    aggs: Seq<Expr>,
    rels: QueryRels,
    ctx: Option<AggChainCtx>,
    n: int,
    k: int,
)
    requires
        0 <= k < n,
        agg_specs(aggs, rels, ctx, n) is Some,
    ensures
        agg_spec(aggs[k], rels, ctx) == Some(agg_specs(aggs, rels, ctx, n)->0[k]),
    decreases n,
{
    lemma_agg_specs_len(aggs, rels, ctx, n - 1);
    if k < n - 1 {
        lemma_specs_at(aggs, rels, ctx, n - 1, k);
    }
}

/// Whether `a` is SQL's answer to an aggregate on rows.
pub open spec fn query_answer(agg: Expr, rows: Seq<ScanRow>, a: Answer) -> bool {
    agg.head matches Head::Aggref(info) && if info.aggstar {
        a == Answer::Number(rows.len() as int)
    } else {
        single_arg(agg) matches Some(e) && sql_answer(
            info.name,
            false,
            info.distinct,
            sql_values(rows, e),
            a,
        )
    }
}

/// Whether a sum or an average is of all values of a column, and not of times.
pub open spec fn is_plain_sum(agg: Expr, rels: QueryRels, ctx: Option<AggChainCtx>) -> bool {
    agg.head matches Head::Aggref(info) && (info.aggstar || !(info.name == FuncName::Sum || info.name
        == FuncName::Avg) || (!info.distinct && shift_of(
        agg_arg(single_arg(agg)->0, rels, ctx)->0.transform,
    ) == 0))
}

/// The aggregates of a query, in the order of its target list.
pub open spec fn query_aggs(q: UpperQuery) -> Seq<Expr> {
    parts_of(qtargets(q.tlist@), q.grouped(), q.tlist@.len() as int)->0.aggs
}

/// Each aggregate of a query that is answered from metadata gets SQL's answer on
/// all rows that are counted, in the order of the query; a path that counts rows
/// alone is for a single COUNT(*).
pub proof fn lemma_metadata_path_answers(
    q: UpperQuery,
    cat: UpperCatalog,
    rows: Seq<ScanRow>,
    k: int,
    a: Answer,
)
    requires
        0 <= k < query_aggs(q).len(),
        forall|i: int| 0 <= i < rows.len() ==> row_serves(#[trigger] rows[i], cat.ctx),
        is_plain_sum(query_aggs(q)[k], q.rels, cat.ctx),
        single_arg(query_aggs(q)[k]) matches Some(e) ==> is_no_cast(e),
        agg_spec(query_aggs(q)[k], q.rels, cat.ctx) matches Some(s) ==> i16::MIN <= s.col_idx
            < i16::MAX,
    ensures
        match upper_path(q, cat) {
            Upper::Count { .. } => query_aggs(q).len() == 1 && (query_answer(
                query_aggs(q)[k],
                rows,
                a,
            ) <==> a == Answer::Number(rows.len() as int)),
            Upper::MinMax { answers, .. } => answers.len() == query_aggs(q).len() && (meta_answer(
                rows,
                answers[k],
                a,
            ) <==> query_answer(query_aggs(q)[k], rows, a)),
            Upper::Agg { aggs, specs, .. } => aggs == query_aggs(q) && specs.len() == aggs.len() && (
            scan_answer(rows, specs[k], a) <==> query_answer(query_aggs(q)[k], rows, a)),
            Upper::Nothing => true,
        },
{
    let aggs = query_aggs(q);
    let n = aggs.len() as int;
    let agg = aggs[k];
    if let Upper::Count { .. } = upper_path(q, cat) {
        assert(only_count_star(aggs));
    } else if !(upper_path(q, cat) is Nothing) {
        lemma_agg_specs_len(aggs, q.rels, cat.ctx, n);
        lemma_specs_at(aggs, q.rels, cat.ctx, n, k);
        let specs = agg_specs(aggs, q.rels, cat.ctx, n)->0;
        lemma_scan_answers_as_sql(agg, q.rels, cat.ctx, rows, a);
        if let Upper::MinMax { answers, .. } = upper_path(q, cat) {
            if answers == meta_specs(aggs, specs) && meta_answerable(specs[k]) {
                lemma_metadata_answers_as_scan(agg, q.rels, cat.ctx, rows, a);
            } else {
                lemma_extremes_len(aggs, q.rels, cat, n);
                lemma_extremes_at(aggs, q.rels, cat, n, k);
                assert(is_minmax(specs[k]));
                lemma_extreme_answers_as_sql(agg, q.rels, cat, rows, a);
            }
        }
    }
}

/// The types whose sums and extremes segments hold: sums of short integers and
/// floats, extremes of integers, floats and times.
pub proof fn lemma_types_in_metadata(s: AggSpec)
    requires
        meta_answerable(s),
    ensures
        s.agg_type == AggType::Sum ==> s.col_type_oid == 21 || s.col_type_oid == 23
            || s.col_type_oid == 700 || s.col_type_oid == 701,
        s.agg_type == AggType::Min || s.agg_type == AggType::Max ==> s.col_type_oid == 21
            || s.col_type_oid == 23 || s.col_type_oid == 20 || s.col_type_oid == 700
            || s.col_type_oid == 701 || s.col_type_oid == 1082 || s.col_type_oid == 1114
            || s.col_type_oid == 1184,
        s.agg_type != AggType::Avg && s.agg_type != AggType::CountDistinct,
        s.agg_type != AggType::CountStar ==> s.expr_kind != AggExpr::LengthOf,
{
}

} // verus!
