//! What reading a chain from an extracted column must keep: its value.

use vstd::prelude::*;
use crate::scan::json_extract::{
    chain_of, kind_of_oid, object_steps, oid_of_kind, op_step, rewritten, rewritten_list, uncast,
    AggChainCtx, Chain, Column, ColumnKind, ExtractSpec, Rule, Synth,
};
use crate::scan::node::{
    unrelabel, Const, Expr, Head, Payload, Var, INDEX_VAR, INNER_VAR, OUTER_VAR,
};
use crate::search::{first_where, lemma_first_where};
use crate::text::texts;

verus! {

/// What expressions mean on one row. `V` is any set of values.
#[verifier::reject_recursive_types(V)]
pub struct Meaning<V> {
    /// The value of a column reference.
    pub var: spec_fn(Var) -> V,
    /// `document -> key`.
    pub get: spec_fn(V, Seq<char>) -> V,
    /// `document ->> key`.
    pub text: spec_fn(V, Seq<char>) -> V,
    /// A conversion to a SQL type.
    pub convert: spec_fn(V, u32) -> V,
    /// A value under the name of another SQL type.
    pub relabel: spec_fn(V, u32) -> V,
    /// A text as a column of the kind stores it.
    pub stored: spec_fn(V, ColumnKind) -> V,
    /// Any other node, by what it is and the values of its parts.
    pub other: spec_fn(Expr, Seq<V>, Option<V>) -> V,
}

/// The text constant that `e` is.
pub open spec fn text_constant(e: Expr) -> Option<Seq<char>> {
    match e.head {
        Head::Const(c) => if c.consttype == 25 && !c.constisnull {
            match c.payload {
                Payload::Text(s) => Some(s@),
                _ => None,
            }
        } else {
            None
        },
        _ => None,
    }
}

/// The value of an expression. `->` has the operator number 3211, `->>` has 3477.
pub open spec fn value<V>(m: Meaning<V>, e: Expr) -> V
    decreases e, e.args.len() + 1,
{
    let args = values(m, e, e.args.len() as int);
    let default = match e.aux {
        Some(b) => Some(value(m, *b)),
        None => None,
    };
    let shell = Expr { args: Seq::empty(), aux: None, ..e };
    match e.head {
        Head::Var(v) => (m.var)(v),
        Head::OpExpr(op) => if e.args.len() == 2 && text_constant(e.args[1]) is Some && op.opno
            == 3211 {
            (m.get)(args[0], text_constant(e.args[1])->0)
        } else if e.args.len() == 2 && text_constant(e.args[1]) is Some && op.opno == 3477 {
            (m.text)(args[0], text_constant(e.args[1])->0)
        } else {
            (m.other)(shell, args, default)
        },
        Head::CoerceViaIO(c) => if e.args.len() > 0 {
            (m.convert)(args[0], c.resulttype)
        } else {
            (m.other)(shell, args, default)
        },
        Head::RelabelType(c) => if e.args.len() > 0 {
            (m.relabel)(args[0], c.resulttype)
        } else {
            (m.other)(shell, args, default)
        },
        _ => (m.other)(shell, args, default),
    }
}

/// The values of the first `n` arguments.
pub open spec fn values<V>(m: Meaning<V>, e: Expr, n: int) -> Seq<V>
    decreases e, n,
{
    if 0 < n <= e.args.len() {
        values(m, e, n - 1).push(value(m, e.args[n - 1]))
    } else {
        Seq::empty()
    }
}

proof fn lemma_values<V>(m: Meaning<V>, e: Expr, n: int)
    requires
        0 <= n <= e.args.len(),
    ensures
        values(m, e, n).len() == n,
        forall|i: int| 0 <= i < n ==> #[trigger] values(m, e, n)[i] == value(m, e.args[i]),
    decreases n,
{
    if n > 0 {
        lemma_values(m, e, n - 1);
    }
}

/// The kind of column that a SQL type is stored as.
pub open spec fn storage_kind(oid: u32) -> Option<ColumnKind> {
    match oid {
        25u32 | 1043u32 | 1042u32 => Some(ColumnKind::Text),
        21u32 => Some(ColumnKind::Int16),
        23u32 => Some(ColumnKind::Int32),
        20u32 => Some(ColumnKind::Int64),
        700u32 => Some(ColumnKind::Float32),
        701u32 => Some(ColumnKind::Float64),
        16u32 => Some(ColumnKind::Bool),
        1114u32 => Some(ColumnKind::Timestamp),
        1184u32 => Some(ColumnKind::TimestampTz),
        1082u32 => Some(ColumnKind::Date),
        3802u32 => Some(ColumnKind::Jsonb),
        _ => None,
    }
}

/// The types of columns are PostgreSQL's, and each kind has its own.
pub proof fn lemma_storage_kinds(oid: u32, kind: ColumnKind)
    ensures
        kind_of_oid(oid) == storage_kind(oid),
        storage_kind(oid_of_kind(kind)) == Some(kind),
        oid_of_kind(ColumnKind::Text) == 25,
{
}

/// Whether the meaning is one of documents and conversions: a text is what a
/// text column stores; converting what a column stores to the type of a kind
/// gives what a column of that kind stores, and relabelling it too; a type
/// without a kind relabels without a change; steps into a document do not mind
/// how it is labelled.
pub open spec fn is_faithful<V>(m: Meaning<V>) -> bool {
    &&& forall|d: V, k: Seq<char>|
        (m.stored)(#[trigger] (m.text)(d, k), ColumnKind::Text) == (m.text)(d, k)
    &&& forall|t: V, k: ColumnKind, oid: u32|
        storage_kind(oid) is Some ==> #[trigger] (m.convert)((m.stored)(t, k), oid) == (m.stored)(
            t,
            storage_kind(oid)->0,
        )
    &&& forall|t: V, k: ColumnKind, oid: u32| #[trigger]
        (m.relabel)((m.stored)(t, k), oid) == match storage_kind(oid) {
            Some(j) => (m.stored)(t, j),
            None => (m.stored)(t, k),
        }
    &&& forall|d: V, oid: u32, k: Seq<char>|
        #![trigger (m.get)((m.relabel)(d, oid), k)]
        (m.get)((m.relabel)(d, oid), k) == (m.get)(d, k)
    &&& forall|d: V, oid: u32, k: Seq<char>|
        #![trigger (m.text)((m.relabel)(d, oid), k)]
        (m.text)((m.relabel)(d, oid), k) == (m.text)(d, k)
}

/// What lies under some keys of a document.
pub open spec fn document_at<V>(m: Meaning<V>, d: V, keys: Seq<Seq<char>>) -> V
    decreases keys.len(),
{
    if keys.len() == 0 {
        d
    } else {
        (m.get)(document_at(m, d, keys.drop_last()), keys.last())
    }
}

/// What a column holds that was extracted at a path of a document.
pub open spec fn extracted<V>(m: Meaning<V>, d: V, path: Seq<Seq<char>>, kind: ColumnKind) -> V {
    (m.stored)((m.text)(document_at(m, d, path.drop_last()), path.last()), kind)
}

proof fn lemma_look_through<V>(m: Meaning<V>, e: Expr)
    requires
        is_faithful(m),
        !(unrelabel(e).head is Null),
    ensures
        forall|k: Seq<char>| #[trigger]
            (m.get)(value(m, e), k) == (m.get)(value(m, unrelabel(e)), k),
        forall|k: Seq<char>| #[trigger]
            (m.text)(value(m, e), k) == (m.text)(value(m, unrelabel(e)), k),
{
    lemma_values(m, e, e.args.len() as int);
    if let Head::RelabelType(c) = e.head {
        if e.args.len() > 0 {
            let inner = value(m, e.args[0]);
            assert(value(m, e) == (m.relabel)(inner, c.resulttype));
        }
    }
}

proof fn lemma_step_value<V>(m: Meaning<V>, e: Expr, opno: u32)
    requires
        is_faithful(m),
        op_step(e, opno) is Some,
        opno == 3211 || opno == 3477,
    ensures
        ({
            let (key, inner) = op_step(e, opno)->0;
            value(m, e) == if opno == 3211 {
                (m.get)(value(m, inner), key)
            } else {
                (m.text)(value(m, inner), key)
            }
        }),
{
    lemma_values(m, e, e.args.len() as int);
    lemma_look_through(m, e.args[0]);
    let (key, inner) = op_step(e, opno)->0;
    let d = value(m, e.args[0]);
    assert(text_constant(e.args[1]) == Some(key));
    assert((m.get)(d, key) == (m.get)(value(m, inner), key));
    assert((m.text)(d, key) == (m.text)(value(m, inner), key));
}

proof fn lemma_object_steps_value<V>(m: Meaning<V>, e: Expr)
    requires
        is_faithful(m),
        unrelabel(object_steps(e).1).head is Var,
    ensures
        ({
            let (keys, root) = object_steps(e);
            let d = document_at(m, value(m, unrelabel(root)), keys);
            forall|k: Seq<char>|
                #![trigger (m.get)(value(m, e), k)]
                #![trigger (m.text)(value(m, e), k)]
                (m.get)(value(m, e), k) == (m.get)(d, k) && (m.text)(value(m, e), k) == (m.text)(
                    d,
                    k,
                )
        }),
    decreases e,
{
    match op_step(e, 3211) {
        Some((key, inner)) => {
            let (keys, root) = object_steps(inner);
            lemma_object_steps_value(m, inner);
            lemma_step_value(m, e, 3211);
            let d = document_at(m, value(m, unrelabel(root)), keys);
            assert((m.get)(value(m, inner), key) == (m.get)(d, key));
            assert(keys.push(key).drop_last() =~= keys);
        },
        None => {
            lemma_look_through(m, e);
        },
    }
}

proof fn lemma_uncast_root(e: Expr, a: Option<ColumnKind>, b: Option<ColumnKind>)
    ensures
        uncast(e, a).0 == uncast(e, b).0,
        a is Some ==> uncast(e, a).1 == a,
    decreases e,
{
    match e.head {
        Head::CoerceViaIO(c) | Head::RelabelType(c) => {
            if e.args.len() > 0 {
                let ka = match a {
                    Some(k) => Some(k),
                    None => kind_of_oid(c.resulttype),
                };
                let kb = match b {
                    Some(k) => Some(k),
                    None => kind_of_oid(c.resulttype),
                };
                lemma_uncast_root(e.args[0], ka, kb);
                lemma_uncast_root(e.args[0], a, b);
            }
        },
        _ => {},
    }
}

proof fn lemma_uncast_value<V>(m: Meaning<V>, e: Expr, t: V)
    requires
        is_faithful(m),
        value(m, uncast(e, None).0) == (m.stored)(t, ColumnKind::Text),
        uncast(e, None).0.head is OpExpr,
    ensures
        value(m, e) == (m.stored)(
            t,
            match uncast(e, None).1 {
                Some(k) => k,
                None => ColumnKind::Text,
            },
        ),
    decreases e,
{
    match e.head {
        Head::CoerceViaIO(c) | Head::RelabelType(c) => {
            if e.args.len() > 0 {
                let k = kind_of_oid(c.resulttype);
                lemma_storage_kinds(c.resulttype, ColumnKind::Text);
                lemma_uncast_root(e.args[0], k, None);
                lemma_uncast_value(m, e.args[0], t);
                lemma_values(m, e, e.args.len() as int);
                let j = match uncast(e.args[0], None).1 {
                    Some(k) => k,
                    None => ColumnKind::Text,
                };
                assert(value(m, e.args[0]) == (m.stored)(t, j));
                if e.head is CoerceViaIO {
                    assert(value(m, e) == (m.convert)((m.stored)(t, j), c.resulttype));
                } else {
                    assert(value(m, e) == (m.relabel)((m.stored)(t, j), c.resulttype));
                }
            }
        },
        _ => {},
    }
}

/// The value of a chain is what its keys lead to in the document that its column
/// holds, as its type stores it.
pub proof fn lemma_chain_value<V>(m: Meaning<V>, e: Expr)
    requires
        is_faithful(m),
        chain_of(e) is Some,
    ensures
        ({
            let c = chain_of(e)->0;
            value(m, e) == extracted(m, (m.var)(c.inner_var), c.keys, c.leaf_kind)
        }),
{
    let root = uncast(e, None).0;
    let (key, inner) = op_step(root, 3477)->0;
    let (keys, start) = object_steps(inner);
    let c = chain_of(e)->0;
    lemma_step_value(m, root, 3477);
    lemma_object_steps_value(m, inner);
    let d = document_at(m, (m.var)(c.inner_var), keys);
    let t = (m.text)(d, key);
    assert((m.text)(value(m, inner), key) == t);
    assert((m.stored)(t, ColumnKind::Text) == t);
    lemma_uncast_value(m, e, t);
    assert(c.keys.drop_last() =~= keys);
}

/// Whether a row is one of the plan that the rule rewrites: `doc` gives the
/// columns of the relation by number, and `named` by name. Extracted columns hold
/// what was extracted, and stand where the rule says.
pub open spec fn row_fits<V>(
    m: Meaning<V>,
    rule: Rule,
    doc: spec_fn(i16) -> V,
    named: spec_fn(Seq<char>) -> V,
) -> bool {
    match rule {
        Rule::Specs { rti, specs, phys, natts } => {
            &&& forall|v: Var|
                v.varno == rti && phys.contains_key(v.varattno) ==> #[trigger] (m.var)(v) == named(
                    phys[v.varattno]@,
                )
            &&& forall|v: Var, i: int|
                #![trigger (m.var)(v), specs[i]]
                0 <= i < specs.len() && v.varno == INDEX_VAR && v.varattno == natts + i + 1
                    ==> (m.var)(v) == extracted(
                    m,
                    named(specs[i].src_column@),
                    texts(specs[i].path@),
                    specs[i].target_kind,
                )
        },
        Rule::Child(stl) => {
            &&& forall|v: Var|
                v.varno == OUTER_VAR && 1 <= v.varattno <= stl.len() ==> (
                stl[v.varattno - 1] matches Column::Physical { attno } ==> #[trigger] (m.var)(v)
                    == doc(attno))
            &&& forall|v: Var, i: int|
                #![trigger (m.var)(v), stl[i]]
                0 <= i < stl.len() && v.varno == OUTER_VAR ==> (stl[i] matches Column::Synthetic {
                    path,
                    kind,
                    src,
                    resno,
                } ==> v.varattno == resno ==> (m.var)(v) == extracted(m, doc(src), path, kind))
        },
        Rule::Scan(synths) => {
            &&& forall|v: Var|
                v.varno != OUTER_VAR && v.varno != INNER_VAR && (v.varno == INDEX_VAR ==> forall|
                    i: int,
                |
                    0 <= i < synths.len() ==> (#[trigger] synths[i]).position != v.varattno)
                    ==> #[trigger] (m.var)(v) == doc(v.varattno)
            &&& forall|v: Var, i: int|
                #![trigger (m.var)(v), synths[i]]
                0 <= i < synths.len() && v.varno == INDEX_VAR && v.varattno == synths[i].position
                    ==> (m.var)(v) == extracted(m, doc(synths[i].src), synths[i].path, synths[i].kind)
            &&& forall|i: int, j: int|
                0 <= i < synths.len() && 0 <= j < synths.len() ==> (#[trigger] synths[i]).position
                    != (#[trigger] synths[j]).src
        },
    }
}

proof fn lemma_replacement_value<V>(
    m: Meaning<V>,
    rule: Rule,
    doc: spec_fn(i16) -> V,
    named: spec_fn(Seq<char>) -> V,
    e: Expr,
)
    requires
        is_faithful(m),
        rule.wf(),
        row_fits(m, rule, doc, named),
        rule.replacement(e) is Some,
    ensures
        (m.var)(rule.replacement(e)->0) == value(m, e),
{
    let c = chain_of(e)->0;
    let r = rule.replacement(e)->0;
    lemma_chain_value(m, e);
    match rule {
        Rule::Specs { rti, specs, phys, natts } => {
            let p = |s: ExtractSpec|
                crate::scan::json_extract::serves(s, phys[c.inner_var.varattno]@, c);
            lemma_first_where(specs, p);
            let i = first_where(specs, p)->0;
            assert(p(specs[i]));
            assert((m.var)(c.inner_var) == named(phys[c.inner_var.varattno]@));
            assert((m.var)(r) == extracted(
                m,
                named(specs[i].src_column@),
                texts(specs[i].path@),
                specs[i].target_kind,
            ));
        },
        Rule::Child(stl) => {
            let at = c.inner_var.varattno;
            let attno = stl[at - 1]->attno;
            let p = |s: Column| crate::scan::json_extract::column_serves(s, attno, c);
            lemma_first_where(stl, p);
            let i = first_where(stl, p)->0;
            assert(p(stl[i]));
            assert((m.var)(c.inner_var) == doc(attno));
            let col = stl[i];
            assert((m.var)(r) == value(m, e));
        },
        Rule::Scan(synths) => {
            let p = |s: Synth| crate::scan::json_extract::synth_serves(s, c);
            lemma_first_where(synths, p);
            let i = first_where(synths, p)->0;
            assert(p(synths[i]));
            assert forall|j: int| 0 <= j < synths.len() implies (#[trigger] synths[j]).position
                != c.inner_var.varattno by {
                assert(synths[j].position != synths[i].src);
            }
            assert((m.var)(c.inner_var) == doc(c.inner_var.varattno));
            assert((m.var)(r) == extracted(m, doc(synths[i].src), synths[i].path, synths[i].kind));
        },
    }
}

proof fn lemma_constant_stays(rule: Rule, e: Expr)
    requires
        e.head is Const,
    ensures
        rewritten(rule, e) == e,
{
    assert(uncast(e, None).0 == e);
    assert(chain_of(e) is None);
}

/// Rewriting keeps the value of every expression: on every row whose extracted
/// columns hold what was extracted, whatever documents and conversions mean.
pub proof fn lemma_rewriting_keeps_value<V>(
    m: Meaning<V>,
    rule: Rule,
    doc: spec_fn(i16) -> V,
    named: spec_fn(Seq<char>) -> V,
    e: Expr,
)
    requires
        is_faithful(m),
        rule.wf(),
        row_fits(m, rule, doc, named),
    ensures
        value(m, rewritten(rule, e)) == value(m, e),
    decreases e,
{
    let r = rewritten(rule, e);
    if rule.replacement(e) is Some {
        lemma_replacement_value(m, rule, doc, named, e);
    } else {
        assert forall|i: int| 0 <= i < e.args.len() implies value(m, #[trigger] r.args[i]) == value(
            m,
            e.args[i],
        ) by {
            if rule.enters(e.head) {
                lemma_rewriting_keeps_value(m, rule, doc, named, e.args[i]);
            }
        }
        assert(r.args.len() == e.args.len());
        let n = e.args.len() as int;
        lemma_values(m, e, n);
        lemma_values(m, r, n);
        assert(values(m, e, n) =~= values(m, r, n));
        if let Some(b) = e.aux {
            lemma_rewriting_keeps_value(m, rule, doc, named, *b);
        }
        if e.head is OpExpr && e.args.len() == 2 {
            if e.args[1].head is Const {
                lemma_constant_stays(rule, e.args[1]);
            } else {
                assert(!(rewritten(rule, e.args[1]).head is Const));
            }
            assert(text_constant(r.args[1]) == text_constant(e.args[1]));
        }
        assert(Expr { args: Seq::empty(), aux: None, ..r } == Expr {
            args: Seq::empty(),
            aux: None,
            ..e
        });
    }
}

/// Rewriting a list keeps the value of each of its expressions, and their order.
pub proof fn lemma_rewritten_list_keeps_values<V>(
    m: Meaning<V>,
    rule: Rule,
    doc: spec_fn(i16) -> V,
    named: spec_fn(Seq<char>) -> V,
    s: Seq<Expr>,
)
    requires
        is_faithful(m),
        rule.wf(),
        row_fits(m, rule, doc, named),
    ensures
        rewritten_list(rule, s).len() == s.len(),
        forall|i: int|
            0 <= i < s.len() ==> value(m, #[trigger] rewritten_list(rule, s)[i]) == value(m, s[i]),
{
    assert forall|i: int| 0 <= i < s.len() implies value(m, #[trigger] rewritten_list(rule, s)[i])
        == value(m, s[i]) by {
        lemma_rewriting_keeps_value(m, rule, doc, named, s[i]);
    }
}

/// Whether a column is the one that was extracted for the chain, whose document
/// is column `attno` of the relation.
pub open spec fn is_extracted_for(c: Column, attno: i16, chain: Chain) -> bool {
    c matches Column::Synthetic { path, kind, src, resno } && path == chain.keys && kind
        == chain.leaf_kind && src == attno
}

/// A chain over a physical column of the child is replaced exactly where the
/// child has the column that was extracted for it, and by the first such column:
/// one of the same path, type and source. Nothing else is replaced.
pub proof fn lemma_child_match(stl: Seq<Column>, e: Expr)
    ensures
        match Rule::Child(stl).replacement(e) {
            Some(v) => {
                &&& v.varno == OUTER_VAR && v.varlevelsup == 0
                &&& chain_of(e) matches Some(c) && c.inner_var.varno == OUTER_VAR && 1
                    <= c.inner_var.varattno <= stl.len()
                &&& stl[chain_of(e)->0.inner_var.varattno - 1] matches Column::Physical { attno }
                    && exists|i: int|
                        0 <= i < stl.len() && is_extracted_for(
                            #[trigger] stl[i],
                            attno,
                            chain_of(e)->0,
                        ) && stl[i]->resno == v.varattno && storage_kind(v.vartype) == Some(
                            stl[i]->kind,
                        ) && forall|j: int|
                            0 <= j < i ==> !is_extracted_for(
                                #[trigger] stl[j],
                                attno,
                                chain_of(e)->0,
                            )
            },
            None => chain_of(e) matches Some(c) ==> c.inner_var.varno == OUTER_VAR ==> 1
                <= c.inner_var.varattno <= stl.len() ==> (
            stl[c.inner_var.varattno - 1] matches Column::Physical { attno } ==> forall|i: int|
                0 <= i < stl.len() ==> !is_extracted_for(#[trigger] stl[i], attno, c)),
        },
{
    if let Some(c) = chain_of(e) {
        let at = c.inner_var.varattno;
        if c.inner_var.varno == OUTER_VAR && 1 <= at <= stl.len() && stl[at - 1] is Physical {
            let attno = stl[at - 1]->attno;
            let p = |s: Column| crate::scan::json_extract::column_serves(s, attno, c);
            lemma_first_where(stl, p);
            assert forall|i: int| 0 <= i < stl.len() implies p(stl[i]) == is_extracted_for(
                #[trigger] stl[i],
                attno,
                c,
            ) by {}
            lemma_storage_kinds(0, c.leaf_kind);
            match first_where(stl, p) {
                Some(i) => {
                    assert(is_extracted_for(stl[i], attno, c));
                    assert forall|j: int| 0 <= j < i implies !is_extracted_for(
                        #[trigger] stl[j],
                        attno,
                        c,
                    ) by {
                        assert(!p(stl[j]));
                    }
                },
                None => {
                    assert forall|i: int| 0 <= i < stl.len() implies !is_extracted_for(
                        #[trigger] stl[i],
                        attno,
                        c,
                    ) by {
                        assert(!p(stl[i]));
                    }
                },
            }
        }
    }
}

/// An extracted column serves a chain of a query exactly where it was extracted
/// for it: from the column that the chain starts from, at the chain's path and
/// with its type. Extracted columns are counted behind the physical ones.
pub proof fn lemma_synthetic_column(ctx: AggChainCtx, e: Expr)
    requires
        ctx.wf(),
    ensures
        ({
            let specs = ctx.specs@;
            let phys = ctx.phys.by_attno@;
            let fits = |i: int|
                0 <= i < specs.len() && (chain_of(e) matches Some(c) && c.inner_var.varno
                    == ctx.parent_rti && phys.contains_key(c.inner_var.varattno)
                    && specs[i].src_column@ == phys[c.inner_var.varattno]@ && texts(specs[i].path@)
                    == c.keys && specs[i].target_kind == c.leaf_kind);
            match ctx.synthetic(e) {
                Some((col, oid)) => exists|i: int| #[trigger]
                    fits(i) && col == ctx.physical_count + i && storage_kind(oid) == Some(
                        specs[i].target_kind,
                    ) && forall|j: int| 0 <= j < i ==> !#[trigger] fits(j),
                None => forall|i: int| !#[trigger] fits(i),
            }
        }),
{
    let specs = ctx.specs@;
    let phys = ctx.phys.by_attno@;
    let fits = |i: int|
        0 <= i < specs.len() && (chain_of(e) matches Some(c) && c.inner_var.varno == ctx.parent_rti
            && phys.contains_key(c.inner_var.varattno) && specs[i].src_column@
            == phys[c.inner_var.varattno]@ && texts(specs[i].path@) == c.keys
            && specs[i].target_kind == c.leaf_kind);
    if let Some(c) = chain_of(e) {
        if c.inner_var.varno == ctx.parent_rti && phys.contains_key(c.inner_var.varattno) {
            let p = |s: ExtractSpec|
                crate::scan::json_extract::serves(s, phys[c.inner_var.varattno]@, c);
            lemma_first_where(specs, p);
            match first_where(specs, p) {
                Some(i) => {
                    lemma_storage_kinds(0, specs[i].target_kind);
                    assert(p(specs[i]));
                    assert(fits(i));
                    assert forall|j: int| 0 <= j < i implies !#[trigger] fits(j) by {
                        assert(!p(specs[j]));
                    }
                },
                None => {
                    assert forall|i: int| !#[trigger] fits(i) by {
                        if 0 <= i < specs.len() {
                            assert(!p(specs[i]));
                        }
                    }
                },
            }
        }
    }
}

} // verus!
