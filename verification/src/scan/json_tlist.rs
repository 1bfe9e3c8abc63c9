//! Target lists of a scan that serves extracted columns: the scan's tuple, the
//! entries that forward its extracted columns, and what each entry provides.

use vstd::prelude::*;
use crate::pg_types::{INT4OID, INVALID_OID};
use crate::scan::json_extract::{
    build_chain_expr_for_spec, chain_expr_for, chain_of, columns, has_signature, listed,
    rewrite_list, rewritten_list, synths_of, targets, walk_chain_shape, Attribute, ChainSig,
    Column, ColumnKind, ExtractSpec, Rewrite, Rule, SubplanColumn, Synth, SynthInfo, Target,
    TargetEntry,
};
use crate::scan::node::{
    exprs, group_node, leaf, var_expr, Const, Expr, Head, Node, Payload, Var, INDEX_VAR, OUTER_VAR,
};
use crate::search::{first_where, lemma_first_is, lemma_first_none};
use crate::text::dup_opt_text;

verus! {

/// A set of chain signatures.
pub type Sigs = Set<(Seq<Seq<char>>, ColumnKind)>;

/// The set of the signatures of a list.
pub open spec fn sig_set(sigs: Seq<ChainSig>) -> Sigs {
    Set::new(|s: (Seq<Seq<char>>, ColumnKind)| listed(sigs, s.0, s.1))
}

/// What an entry of a scan's tuple is: a column of the relation, an extracted
/// column, or something else.
pub open spec fn classified(e: Expr, resno: i16) -> Column {
    match e.head {
        Head::Var(v) => Column::Physical { attno: v.varattno },
        _ => match chain_of(e) {
            Some(c) => Column::Synthetic {
                path: c.keys,
                kind: c.leaf_kind,
                src: c.inner_var.varattno,
                resno,
            },
            None => Column::Other,
        },
    }
}

/// Classifies an entry of a scan's tuple; `forwarder_resno` is the position at
/// which the plan above reads it.
pub fn classify_custom_scan_tlist_entry(expr: &Node, forwarder_resno: i16) -> (r: SubplanColumn)
    ensures
        r.view() == classified(expr.view(), forwarder_resno),
{
    broadcast use group_node;

    if let Head::Var(v) = &expr.head {
        return SubplanColumn::Physical { rel_var_attno: v.varattno };
    }
    match walk_chain_shape(expr) {
        Some(shape) => SubplanColumn::Synthetic {
            path: shape.keys,
            target_kind: shape.leaf_kind,
            src_var_attno: shape.inner_var.varattno,
            forwarder_resno,
        },
        None => SubplanColumn::Other,
    }
}

/// Placeholder for a dropped column.
pub open spec fn null_int4() -> Expr {
    leaf(
        Head::Const(
            Const { consttype: INT4OID, constisnull: true, word: 0, payload: Payload::Plain },
        ),
    )
}

/// Entry `i` of a scan's tuple, for a column of the relation.
pub open spec fn physical_target(rti: i32, a: Attribute, i: int) -> Target {
    if a.dropped {
        Target { expr: null_int4(), resno: (i + 1) as i16, resname: None, resjunk: false }
    } else {
        Target {
            expr: var_expr(
                Var {
                    varno: rti,
                    varattno: a.attnum,
                    vartype: a.atttypid,
                    vartypmod: a.atttypmod,
                    varcollid: a.attcollation,
                    varlevelsup: 0,
                },
            ),
            resno: (i + 1) as i16,
            resname: Some(a.name@),
            resjunk: false,
        }
    }
}

/// Entries of a scan's tuple for the first `n` extractions; an extraction whose
/// source column is missing has none.
pub open spec fn synthetic_targets(
    rti: i32,
    atts: Seq<Attribute>,
    specs: Seq<ExtractSpec>,
    n: int,
) -> Seq<Target>
    decreases n,
{
    if n <= 0 {
        Seq::empty()
    } else {
        let before = synthetic_targets(rti, atts, specs, n - 1);
        match chain_expr_for(rti, specs[n - 1], atts) {
            Some(e) => before.push(
                Target {
                    expr: e,
                    resno: (atts.len() + n) as i16,
                    resname: Some(specs[n - 1].target_name@),
                    resjunk: false,
                },
            ),
            None => before,
        }
    }
}

/// The tuple of a scan with extracted columns: the relation's columns, then the
/// extracted ones.
pub open spec fn custom_scan_targets(
    rti: i32,
    atts: Seq<Attribute>,
    specs: Seq<ExtractSpec>,
) -> Seq<Target> {
    Seq::new(atts.len(), |i: int| physical_target(rti, atts[i], i)) + synthetic_targets(
        rti,
        atts,
        specs,
        specs.len() as int,
    )
}

/// Every extraction has a path.
pub open spec fn paths_given(specs: Seq<ExtractSpec>) -> bool {
    forall|i: int| 0 <= i < specs.len() ==> (#[trigger] specs[i]).path@.len() > 0
}

/// Builds the tuple of a scan with extracted columns.
pub fn build_custom_scan_tlist(
    rti: i32,
    atts: &Vec<Attribute>,
    specs: &Vec<ExtractSpec>,
) -> (r: Vec<TargetEntry>)
    requires
        paths_given(specs@),
    ensures
        targets(r@) == custom_scan_targets(rti, atts@, specs@),
{
    let mut out: Vec<TargetEntry> = Vec::new();
    let mut i: usize = 0;
    while i < atts.len()
        invariant
            i <= atts.len(),
            targets(out@) == Seq::new(i as nat, |k: int| physical_target(rti, atts@[k], k)),
        decreases atts.len() - i,
    {
        let a = &atts[i];
        let resno: i16 = #[verifier::truncate]
        ((i as u128 + 1) as i16);
        let entry = if a.dropped {
            TargetEntry {
                expr: Node::leaf(
                    Head::Const(
                        Const {
                            consttype: INT4OID,
                            constisnull: true,
                            word: 0,
                            payload: Payload::Plain,
                        },
                    ),
                ),
                resno,
                resname: None,
                resjunk: false,
            }
        } else {
            TargetEntry {
                expr: Node::leaf(
                    Head::Var(
                        Var {
                            varno: rti,
                            varattno: a.attnum,
                            vartype: a.atttypid,
                            vartypmod: a.atttypmod,
                            varcollid: a.attcollation,
                            varlevelsup: 0,
                        },
                    ),
                ),
                resno,
                resname: Some(a.name.clone()),
                resjunk: false,
            }
        };
        assert(entry.view() == physical_target(rti, atts@[i as int], i as int));
        let ghost before = out@;
        out.push(entry);
        i += 1;
        assert(targets(out@) =~= targets(before).push(entry.view()));
        assert(targets(out@) =~= Seq::new(i as nat, |k: int| physical_target(rti, atts@[k], k)));
    }
    let ghost physical = targets(out@);
    let mut k: usize = 0;
    assert(targets(out@) =~= physical + synthetic_targets(rti, atts@, specs@, 0));
    while k < specs.len()
        invariant
            k <= specs.len(),
            paths_given(specs@),
            targets(out@) == physical + synthetic_targets(rti, atts@, specs@, k as int),
        decreases specs.len() - k,
    {
        if let Some(chain) = build_chain_expr_for_spec(rti, &specs[k], atts) {
            let resno: i16 = #[verifier::truncate]
            ((atts.len() as u128 + k as u128 + 1) as i16);
            let entry = TargetEntry {
                expr: chain,
                resno,
                resname: Some(specs[k].target_name.clone()),
                resjunk: false,
            };
            let ghost before = out@;
            out.push(entry);
            assert(targets(out@) =~= targets(before).push(entry.view()));
        }
        k += 1;
        assert(targets(out@) =~= physical + synthetic_targets(rti, atts@, specs@, k as int));
    }
    out
}

/// Type of an expression.
pub open spec fn expr_type(h: Head) -> u32 {
    match h {
        Head::Var(v) => v.vartype,
        Head::Const(c) => c.consttype,
        Head::OpExpr(o) => o.opresulttype,
        Head::CoerceViaIO(c) | Head::RelabelType(c) => c.resulttype,
        Head::Aggref(a) => a.aggtype,
        _ => INVALID_OID,
    }
}

/// Collation of an expression.
pub open spec fn expr_collation(h: Head) -> u32 {
    match h {
        Head::Var(v) => v.varcollid,
        Head::OpExpr(o) => o.opcollid,
        Head::CoerceViaIO(c) | Head::RelabelType(c) => c.resultcollid,
        _ => INVALID_OID,
    }
}

fn head_type(h: &Head) -> (r: u32)
    ensures
        r == expr_type(*h),
{
    match h {
        Head::Var(v) => v.vartype,
        Head::Const(c) => c.consttype,
        Head::OpExpr(o) => o.opresulttype,
        Head::CoerceViaIO(c) | Head::RelabelType(c) => c.resulttype,
        Head::Aggref(a) => a.aggtype,
        _ => INVALID_OID,
    }
}

fn head_collation(h: &Head) -> (r: u32)
    ensures
        r == expr_collation(*h),
{
    match h {
        Head::Var(v) => v.varcollid,
        Head::OpExpr(o) => o.opcollid,
        Head::CoerceViaIO(c) | Head::RelabelType(c) => c.resultcollid,
        _ => INVALID_OID,
    }
}

/// Whether `t` is the entry of column `(varno, attno)` in a scan's tuple.
pub open spec fn is_column(t: Target, varno: i32, attno: i16) -> bool {
    match t.expr.head {
        Head::Var(v) => v.varno == varno && v.varattno == attno,
        _ => false,
    }
}

/// A target whose expression is a column of the scan's tuple, as a reference
/// into that tuple; any other target as it is.
pub open spec fn indexed_target(t: Target, cst: Seq<Target>) -> Target {
    match t.expr.head {
        Head::Var(v) => match first_where(
            cst,
            |c: Target| is_column(c, v.varno, v.varattno),
        ) {
            Some(i) => Target {
                expr: var_expr(Var { varno: INDEX_VAR, varattno: cst[i].resno, ..v }),
                ..t
            },
            None => t,
        },
        _ => t,
    }
}

/// Whether `t` is an extracted column whose signature is needed.
pub open spec fn wanted(t: Target, needed: Sigs) -> bool {
    match classified(t.expr, t.resno) {
        Column::Synthetic { path, kind, src, resno } => needed.contains((path, kind)),
        _ => false,
    }
}

/// The entry that forwards entry `t` of the scan's tuple to the plan above.
pub open spec fn forwarder(t: Target, resno: i16) -> Target {
    Target {
        expr: var_expr(
            Var {
                varno: INDEX_VAR,
                varattno: t.resno,
                vartype: expr_type(t.expr.head),
                vartypmod: -1i32,
                varcollid: expr_collation(t.expr.head),
                varlevelsup: 0,
            },
        ),
        resno,
        resname: t.resname,
        resjunk: true,
    }
}

/// Forwarders of the wanted columns among the first `n` entries of the scan's
/// tuple, numbered on from `base`.
pub open spec fn forwarders(cst: Seq<Target>, needed: Sigs, base: int, n: int) -> Seq<Target>
    decreases n,
{
    if n <= 0 {
        Seq::empty()
    } else {
        let before = forwarders(cst, needed, base, n - 1);
        if wanted(cst[n - 1], needed) {
            before.push(forwarder(cst[n - 1], (base + before.len() + 1) as i16))
        } else {
            before
        }
    }
}

/// The target list of a scan with the tuple `cst`: its columns as references
/// into the tuple, then a forwarder for each extracted column that is needed.
pub open spec fn extended(tlist: Seq<Target>, cst: Seq<Target>, needed: Sigs) -> Seq<Target> {
    tlist.map_values(|t: Target| indexed_target(t, cst)) + forwarders(
        cst,
        needed,
        tlist.len() as int,
        cst.len() as int,
    )
}

/// `t` as a reference into the scan's tuple, where it is a column of it.
fn index_target(t: &TargetEntry, cstlist: &Vec<TargetEntry>) -> (r: TargetEntry)
    ensures
        r.view() == indexed_target(t.view(), targets(cstlist@)),
{
    broadcast use group_node;

    let ghost cst = targets(cstlist@);
    if let Head::Var(v) = &t.expr.head {
        let ghost p = |c: Target| is_column(c, v.varno, v.varattno);
        let mut i: usize = 0;
        while i < cstlist.len()
            invariant
                i <= cstlist.len(),
                t.expr.head == Head::Var(*v),
                cst == targets(cstlist@),
                p == (|c: Target| is_column(c, v.varno, v.varattno)),
                forall|j: int| 0 <= j < i ==> !p(#[trigger] cst[j]),
            decreases cstlist.len() - i,
        {
            assert(cst[i as int] == cstlist@[i as int].view());
            if let Head::Var(c) = &cstlist[i].expr.head {
                if c.varno == v.varno && c.varattno == v.varattno {
                    proof {
                        lemma_first_is(cst, p, i as int);
                    }
                    let nv = Var {
                        varno: INDEX_VAR,
                        varattno: cstlist[i].resno,
                        vartype: v.vartype,
                        vartypmod: v.vartypmod,
                        varcollid: v.varcollid,
                        varlevelsup: v.varlevelsup,
                    };
                    return TargetEntry {
                        expr: Node::leaf(Head::Var(nv)),
                        resno: t.resno,
                        resname: dup_opt_text(&t.resname),
                        resjunk: t.resjunk,
                    };
                }
            }
            i += 1;
        }
        proof {
            lemma_first_none(cst, p);
        }
    }
    t.dup()
}

/// Rewrites a scan's target list for the tuple `cstlist`. Returns the new list
/// and the positions of the forwarders.
pub fn extend_scan_targetlist_with_forwarders(
    tlist: &Vec<TargetEntry>,
    cstlist: &Vec<TargetEntry>,
    needed: &Vec<ChainSig>,
) -> (r: (Vec<TargetEntry>, Vec<i16>))
    ensures
        targets(r.0@) == extended(targets(tlist@), targets(cstlist@), sig_set(needed@)),
        r.1@ == forwarders(
            targets(cstlist@),
            sig_set(needed@),
            tlist@.len() as int,
            cstlist@.len() as int,
        ).map_values(|t: Target| t.resno),
{
    broadcast use group_node;

    let ghost cst = targets(cstlist@);
    let ghost sigs = sig_set(needed@);
    let ghost base = tlist@.len() as int;
    let mut out: Vec<TargetEntry> = Vec::new();
    let mut i: usize = 0;
    while i < tlist.len()
        invariant
            i <= tlist.len(),
            cst == targets(cstlist@),
            targets(out@) == targets(tlist@).subrange(0, i as int).map_values(
                |t: Target| indexed_target(t, cst),
            ),
        decreases tlist.len() - i,
    {
        let t = index_target(&tlist[i], cstlist);
        let ghost before = out@;
        out.push(t);
        i += 1;
        assert(targets(out@) =~= targets(before).push(t.view()));
        assert(targets(out@) =~= targets(tlist@).subrange(0, i as int).map_values(
            |t: Target| indexed_target(t, cst),
        ));
    }
    let ghost rewritten_part = targets(tlist@).map_values(|t: Target| indexed_target(t, cst));
    assert(targets(tlist@).subrange(0, i as int) =~= targets(tlist@));
    let mut resnos: Vec<i16> = Vec::new();
    let mut k: usize = 0;
    assert(targets(out@) =~= rewritten_part + forwarders(cst, sigs, base, 0));
    assert(resnos@ =~= forwarders(cst, sigs, base, 0).map_values(|t: Target| t.resno));
    while k < cstlist.len()
        invariant
            k <= cstlist.len(),
            cst == targets(cstlist@),
            sigs == sig_set(needed@),
            base == tlist@.len(),
            rewritten_part.len() == base,
            targets(out@) == rewritten_part + forwarders(cst, sigs, base, k as int),
            resnos@ == forwarders(cst, sigs, base, k as int).map_values(|t: Target| t.resno),
        decreases cstlist.len() - k,
    {
        let c = &cstlist[k];
        assert(cst[k as int] == c.view());
        let want = match classify_custom_scan_tlist_entry(&c.expr, c.resno) {
            SubplanColumn::Synthetic { path, target_kind, .. } => has_signature(
                needed,
                &path,
                target_kind,
            ),
            _ => false,
        };
        assert(want == wanted(cst[k as int], sigs));
        if want {
            let resno: i16 = #[verifier::truncate]
            ((tlist.len() as u128 + resnos.len() as u128 + 1) as i16);
            let nv = Var {
                varno: INDEX_VAR,
                varattno: c.resno,
                vartype: head_type(&c.expr.head),
                vartypmod: -1,
                varcollid: head_collation(&c.expr.head),
                varlevelsup: 0,
            };
            let entry = TargetEntry {
                expr: Node::leaf(Head::Var(nv)),
                resno,
                resname: dup_opt_text(&c.resname),
                resjunk: true,
            };
            let ghost before = out@;
            let ghost fwd = forwarders(cst, sigs, base, k as int);
            assert(entry.view() == forwarder(cst[k as int], (base + fwd.len() + 1) as i16));
            out.push(entry);
            resnos.push(resno);
            assert(targets(out@) =~= targets(before).push(entry.view()));
            assert(resnos@ =~= fwd.push(entry.view()).map_values(|t: Target| t.resno));
        }
        k += 1;
        assert(targets(out@) =~= rewritten_part + forwarders(cst, sigs, base, k as int));
    }
    (out, resnos)
}

/// The extracted columns among the first `n` entries of a scan's tuple, with
/// their positions.
pub open spec fn scan_synths(cst: Seq<Target>, n: int) -> Seq<Synth>
    decreases n,
{
    if n <= 0 {
        Seq::empty()
    } else {
        let before = scan_synths(cst, n - 1);
        match classified(cst[n - 1].expr, cst[n - 1].resno) {
            Column::Synthetic { path, kind, src, resno } => before.push(
                Synth { src, path, kind, position: n as i16 },
            ),
            _ => before,
        }
    }
}

/// Replaces the chains in a scan's own filter by references to the extracted
/// columns of its tuple.
pub fn rewrite_scan_qual_chains(qual: &Vec<Node>, cstlist: &Vec<TargetEntry>) -> (r: Vec<Node>)
    ensures
        exprs(r@) == rewritten_list(
            Rule::Scan(scan_synths(targets(cstlist@), cstlist@.len() as int)),
            exprs(qual@),
        ),
{
    broadcast use group_node;

    let ghost cst = targets(cstlist@);
    let mut synths: Vec<SynthInfo> = Vec::new();
    let mut i: usize = 0;
    assert(synths_of(synths@) =~= scan_synths(cst, 0));
    while i < cstlist.len()
        invariant
            i <= cstlist.len(),
            cst == targets(cstlist@),
            synths_of(synths@) == scan_synths(cst, i as int),
        decreases cstlist.len() - i,
    {
        let c = &cstlist[i];
        assert(cst[i as int] == c.view());
        match classify_custom_scan_tlist_entry(&c.expr, c.resno) {
            SubplanColumn::Synthetic { path, target_kind, src_var_attno, .. } => {
                let position: i16 = #[verifier::truncate]
                ((i as u128 + 1) as i16);
                let s = SynthInfo { src_attno: src_var_attno, path, kind: target_kind, position };
                let ghost before = synths@;
                synths.push(s);
                assert(synths_of(synths@) =~= synths_of(before).push(s.view()));
            },
            _ => {},
        }
        i += 1;
    }
    rewrite_list(qual, &Rewrite::Scan(&synths))
}

/// What an entry of a scan's target list provides, found by following its
/// reference into the scan's tuple.
pub open spec fn scan_column(t: Target, cst: Seq<Target>) -> Column {
    match t.expr.head {
        Head::Var(v) => if v.varno == INDEX_VAR && 1 <= v.varattno <= cst.len() {
            classified(cst[v.varattno - 1].expr, t.resno)
        } else {
            Column::Other
        },
        _ => Column::Other,
    }
}

/// What each entry of a scan's target list provides.
pub fn build_subplan_tlist_from_scan_targetlist(
    tlist: &Vec<TargetEntry>,
    cstlist: &Vec<TargetEntry>,
) -> (r: Vec<SubplanColumn>)
    ensures
        columns(r@) == targets(tlist@).map_values(|t: Target| scan_column(t, targets(cstlist@))),
{
    broadcast use group_node;

    let ghost cst = targets(cstlist@);
    let mut out: Vec<SubplanColumn> = Vec::new();
    let mut i: usize = 0;
    while i < tlist.len()
        invariant
            i <= tlist.len(),
            cst == targets(cstlist@),
            out.len() == i,
            forall|j: int|
                0 <= j < i ==> (#[trigger] out@[j]).view() == scan_column(targets(tlist@)[j], cst),
        decreases tlist.len() - i,
    {
        let t = &tlist[i];
        assert(targets(tlist@)[i as int] == t.view());
        let col = match &t.expr.head {
            Head::Var(v) => {
                if v.varno == INDEX_VAR && v.varattno >= 1 && v.varattno as usize <= cstlist.len() {
                    let k: usize = v.varattno as usize - 1;
                    assert(cst[k as int] == cstlist@[k as int].view());
                    classify_custom_scan_tlist_entry(&cstlist[k].expr, t.resno)
                } else {
                    SubplanColumn::Other
                }
            },
            _ => SubplanColumn::Other,
        };
        out.push(col);
        i += 1;
    }
    assert(columns(out@) =~= targets(tlist@).map_values(|t: Target| scan_column(t, cst)));
    out
}

/// A column of a child, as it stands at position `resno` of the plan above.
pub open spec fn rebased(c: Column, resno: i16) -> Column {
    match c {
        Column::Synthetic { path, kind, src, resno: _ } => Column::Synthetic {
            path,
            kind,
            src,
            resno,
        },
        _ => c,
    }
}

/// What entry `i` of a plan's target list provides, over a child that provides
/// `child`: a reference to a child's column passes it on.
pub open spec fn passed_on(t: Target, child: Seq<Column>, i: int) -> Column {
    match t.expr.head {
        Head::Var(v) => if v.varno == OUTER_VAR && 1 <= v.varattno <= child.len() {
            rebased(child[v.varattno - 1], (i + 1) as i16)
        } else {
            Column::Other
        },
        _ => Column::Other,
    }
}

/// What a plan provides, over a child that provides `child`.
pub open spec fn plan_columns(tlist: Seq<Target>, child: Seq<Column>) -> Seq<Column> {
    Seq::new(tlist.len(), |i: int| passed_on(tlist[i], child, i))
}

/// What a plan provides to the plan above.
pub fn compute_my_subplan_tlist(
    tlist: &Vec<TargetEntry>,
    child_stl: &Vec<SubplanColumn>,
) -> (r: Vec<SubplanColumn>)
    ensures
        columns(r@) == plan_columns(targets(tlist@), columns(child_stl@)),
{
    broadcast use group_node;

    let ghost child = columns(child_stl@);
    let mut out: Vec<SubplanColumn> = Vec::new();
    let mut i: usize = 0;
    while i < tlist.len()
        invariant
            i <= tlist.len(),
            child == columns(child_stl@),
            out.len() == i,
            forall|j: int|
                0 <= j < i ==> (#[trigger] out@[j]).view() == passed_on(
                    targets(tlist@)[j],
                    child,
                    j,
                ),
        decreases tlist.len() - i,
    {
        let t = &tlist[i];
        assert(targets(tlist@)[i as int] == t.view());
        let col = match &t.expr.head {
            Head::Var(v) => {
                if v.varno == OUTER_VAR && v.varattno >= 1 && v.varattno as usize
                    <= child_stl.len() {
                    let k: usize = v.varattno as usize - 1;
                    assert(child[k as int] == child_stl@[k as int].view());
                    let resno: i16 = #[verifier::truncate]
                    ((i as u128 + 1) as i16);
                    match child_stl[k].dup() {
                        SubplanColumn::Synthetic { path, target_kind, src_var_attno, .. } => {
                            SubplanColumn::Synthetic {
                                path,
                                target_kind,
                                src_var_attno,
                                forwarder_resno: resno,
                            }
                        },
                        c => c,
                    }
                } else {
                    SubplanColumn::Other
                }
            },
            _ => SubplanColumn::Other,
        };
        out.push(col);
        i += 1;
    }
    assert(columns(out@) =~= plan_columns(targets(tlist@), child));
    out
}

/// Whether a plan provides an extracted column.
pub open spec fn any_synthetic(stl: Seq<Column>) -> bool {
    exists|i: int| 0 <= i < stl.len() && (#[trigger] stl[i]) is Synthetic
}

pub fn has_any_synthetic(stl: &Vec<SubplanColumn>) -> (r: bool)
    ensures
        r == any_synthetic(columns(stl@)),
{
    let mut i: usize = 0;
    while i < stl.len()
        invariant
            i <= stl.len(),
            forall|j: int| 0 <= j < i ==> !((#[trigger] columns(stl@)[j]) is Synthetic),
        decreases stl.len() - i,
    {
        assert(columns(stl@)[i as int] == stl@[i as int].view());
        if matches!(stl[i], SubplanColumn::Synthetic { .. }) {
            return true;
        }
        i += 1;
    }
    false
}

/// Whether two children provide the same known column.
pub fn subplan_columns_equivalent(a: &SubplanColumn, b: &SubplanColumn) -> (r: bool)
    ensures
        r == (a.view() == b.view() && !(a.view() is Other)),
{
    match (a, b) {
        (
            SubplanColumn::Physical { rel_var_attno: a_n },
            SubplanColumn::Physical { rel_var_attno: b_n },
        ) => *a_n == *b_n,
        (
            SubplanColumn::Synthetic {
                path: a_p,
                target_kind: a_k,
                src_var_attno: a_s,
                forwarder_resno: a_r,
            },
            SubplanColumn::Synthetic {
                path: b_p,
                target_kind: b_k,
                src_var_attno: b_s,
                forwarder_resno: b_r,
            },
        ) => crate::text::same_texts(a_p, b_p) && *a_k == *b_k && *a_s == *b_s && *a_r == *b_r,
        _ => false,
    }
}

/// What both of two children provide: the columns on which they agree, over
/// the length of the shorter.
pub open spec fn common_columns(a: Seq<Column>, b: Seq<Column>) -> Seq<Column> {
    Seq::new(
        if a.len() <= b.len() {
            a.len()
        } else {
            b.len()
        },
        |k: int|
            if a[k] == b[k] {
                a[k]
            } else {
                Column::Other
            },
    )
}

/// The columns on which two children agree.
pub fn intersect_subplan_tlists(a: &Vec<SubplanColumn>, b: &Vec<SubplanColumn>) -> (r: Vec<
    SubplanColumn,
>)
    ensures
        columns(r@) == common_columns(columns(a@), columns(b@)),
{
    let common: usize = if a.len() <= b.len() {
        a.len()
    } else {
        b.len()
    };
    let mut out: Vec<SubplanColumn> = Vec::new();
    let mut k: usize = 0;
    while k < common
        invariant
            k <= common <= a.len(),
            common <= b.len(),
            out.len() == k,
            forall|j: int|
                0 <= j < k ==> (#[trigger] out@[j]).view() == if a@[j].view() == b@[j].view() {
                    a@[j].view()
                } else {
                    Column::Other
                },
        decreases common - k,
    {
        let c = if subplan_columns_equivalent(&a[k], &b[k]) {
            a[k].dup()
        } else {
            SubplanColumn::Other
        };
        out.push(c);
        k += 1;
    }
    assert(columns(out@) =~= common_columns(columns(a@), columns(b@)));
    out
}

/// What two children both provide, each of them provides.
pub proof fn lemma_common_columns(a: Seq<Column>, b: Seq<Column>, k: int)
    requires
        0 <= k < common_columns(a, b).len(),
        !(common_columns(a, b)[k] is Other),
    ensures
        common_columns(a, b)[k] == a[k],
        common_columns(a, b)[k] == b[k],
{
}

} // verus!
