//! What the columns of plans hold, from the scan up.

use vstd::prelude::*;
use crate::scan::chain_laws::{extracted, is_faithful, lemma_chain_value, value, Meaning};
use crate::scan::json_extract::{
    chain_of, lemma_spec_chain_recognised, oid_of_kind, Attribute, Column, ColumnKind, ExtractSpec,
    Target,
};
use crate::scan::json_plan::{forwarder_at, forwards, lifted, propagated};
use crate::scan::json_tlist::{
    common_columns, custom_scan_targets, extended, forwarders, plan_columns, scan_column,
    synthetic_targets, wanted, Sigs,
};
use crate::scan::node::{Head, Var};
use crate::search::lemma_first_where;
use crate::text::texts;

verus! {

/// Whether a value is that of a column: `doc` gives the columns of the relation
/// by number.
pub open spec fn describes<V>(m: Meaning<V>, doc: spec_fn(i16) -> V, c: Column, x: V) -> bool {
    match c {
        Column::Physical { attno } => x == doc(attno),
        Column::Synthetic { path, kind, src, resno } => x == extracted(m, doc(src), path, kind),
        Column::Other => true,
    }
}

/// What a plan says of its columns holds, where what its child says does. It
/// passes on what the child says of a column that it refers to, and says at which
/// position an extracted column now stands.
pub proof fn lemma_plan_tuple<V>(
    m: Meaning<V>,
    doc: spec_fn(i16) -> V,
    tlist: Seq<Target>,
    child: Seq<Column>,
    i: int,
)
    requires
        0 <= i < tlist.len() < i16::MAX,
        forall|v: Var|
            v.varno == -2 && 1 <= v.varattno <= child.len() ==> describes(
                m,
                doc,
                child[v.varattno - 1],
                #[trigger] (m.var)(v),
            ),
    ensures
        plan_columns(tlist, child).len() == tlist.len(),
        describes(m, doc, plan_columns(tlist, child)[i], value(m, tlist[i].expr)),
        plan_columns(tlist, child)[i] matches Column::Synthetic { path, kind, src, resno } ==> resno
            == i + 1,
        plan_columns(tlist, child)[i] is Other <==> !(tlist[i].expr.head matches Head::Var(v)
            && v.varno == -2 && 1 <= v.varattno <= child.len() && !(child[v.varattno - 1] is Other)),
{
}

/// What two children both say of their columns holds of the rows of either.
pub proof fn lemma_common_tuple<V>(
    m: Meaning<V>,
    doc: spec_fn(i16) -> V,
    a: Seq<Column>,
    b: Seq<Column>,
    k: int,
    x: V,
)
    requires
        0 <= k < a.len(),
        k < b.len(),
        describes(m, doc, a[k], x) || describes(m, doc, b[k], x),
    ensures
        k < common_columns(a, b).len(),
        describes(m, doc, common_columns(a, b)[k], x),
        a[k] == b[k] ==> common_columns(a, b)[k] == a[k],
{
}

/// What a scan says of its columns holds: a reference into its tuple is the column
/// or the chain that stands there.
pub proof fn lemma_scan_tuple<V>(
    m: Meaning<V>,
    doc: spec_fn(i16) -> V,
    rti: i32,
    cst: Seq<Target>,
    t: Target,
)
    requires
        is_faithful(m),
        forall|v: Var|
            v.varno == -3 && 1 <= v.varattno <= cst.len() ==> #[trigger] (m.var)(v) == value(
                m,
                cst[v.varattno - 1].expr,
            ),
        forall|v: Var| v.varno == rti ==> #[trigger] (m.var)(v) == doc(v.varattno),
        forall|k: int|
            0 <= k < cst.len() ==> match (#[trigger] cst[k]).expr.head {
                Head::Var(v) => v.varno == rti,
                _ => chain_of(cst[k].expr) matches Some(c) ==> c.inner_var.varno == rti,
            },
    ensures
        describes(m, doc, scan_column(t, cst), value(m, t.expr)),
        scan_column(t, cst) matches Column::Synthetic { path, kind, src, resno } ==> resno
            == t.resno,
{
    if let Head::Var(v) = t.expr.head {
        if v.varno == -3 && 1 <= v.varattno <= cst.len() {
            let e = cst[v.varattno - 1].expr;
            assert((m.var)(v) == value(m, e));
            if !(e.head is Var) && chain_of(e) is Some {
                lemma_chain_value(m, e);
                assert((m.var)(chain_of(e)->0.inner_var) == doc(chain_of(e)->0.inner_var.varattno));
            }
        }
    }
}

/// How many entries among the first `n` of a tuple are wanted.
pub open spec fn count_wanted(cst: Seq<Target>, needed: Sigs, n: int) -> int
    decreases n,
{
    if n <= 0 {
        0
    } else {
        count_wanted(cst, needed, n - 1) + if wanted(cst[n - 1], needed) {
            1int
        } else {
            0
        }
    }
}

proof fn lemma_forwarders_len(cst: Seq<Target>, needed: Sigs, base: int, n: int)
    requires
        0 <= n <= cst.len(),
    ensures
        forwarders(cst, needed, base, n).len() == count_wanted(cst, needed, n) <= n,
    decreases n,
{
    if n > 0 {
        lemma_forwarders_len(cst, needed, base, n - 1);
    }
}

proof fn lemma_forwarder_at<V>(
    m: Meaning<V>,
    cst: Seq<Target>,
    needed: Sigs,
    base: int,
    k: int,
    n: int,
)
    requires
        0 <= k < n <= cst.len(),
        wanted(cst[k], needed),
        0 <= base,
        base + n < i16::MAX,
        forall|j: int| 0 <= j < cst.len() ==> (#[trigger] cst[j]).resno == j + 1,
        forall|v: Var|
            v.varno == -3 && 1 <= v.varattno <= cst.len() ==> #[trigger] (m.var)(v) == value(
                m,
                cst[v.varattno - 1].expr,
            ),
    ensures
        ({
            let at = count_wanted(cst, needed, k);
            let f = forwarders(cst, needed, base, n);
            &&& 0 <= at < f.len()
            &&& value(m, f[at].expr) == value(m, cst[k].expr)
            &&& f[at].resno == base + at + 1
            &&& f[at].resjunk
        }),
    decreases n,
{
    lemma_forwarders_len(cst, needed, base, n - 1);
    lemma_forwarders_len(cst, needed, base, k);
    let f = forwarders(cst, needed, base, n);
    let before = forwarders(cst, needed, base, n - 1);
    if k < n - 1 {
        lemma_forwarder_at(m, cst, needed, base, k, n - 1);
    } else {
        assert(f == before.push(
            crate::scan::json_tlist::forwarder(cst[k], (base + before.len() + 1) as i16),
        ));
        let v = f[before.len() as int].expr.head->Var_0;
        assert(v.varno == -3 && v.varattno == k + 1);
        assert((m.var)(v) == value(m, cst[k].expr));
    }
}

/// A scan with a tuple puts out what it did before, and behind it, hidden from the
/// query, each extracted column of the tuple that is needed above.
pub proof fn lemma_extended_scan<V>(
    m: Meaning<V>,
    tlist: Seq<Target>,
    cst: Seq<Target>,
    needed: Sigs,
)
    requires
        tlist.len() + cst.len() < i16::MAX,
        forall|j: int| 0 <= j < cst.len() ==> (#[trigger] cst[j]).resno == j + 1,
        forall|v: Var|
            v.varno == -3 && 1 <= v.varattno <= cst.len() ==> #[trigger] (m.var)(v) == value(
                m,
                cst[v.varattno - 1].expr,
            ),
        forall|v: Var, w: Var|
            v.varno == w.varno && v.varattno == w.varattno ==> #[trigger] (m.var)(v)
                == #[trigger] (m.var)(w),
    ensures
        ({
            let all = extended(tlist, cst, needed);
            &&& all.len() == tlist.len() + count_wanted(cst, needed, cst.len() as int)
            &&& forall|i: int|
                0 <= i < tlist.len() ==> value(m, (#[trigger] all[i]).expr) == value(
                    m,
                    tlist[i].expr,
                ) && all[i].resno == tlist[i].resno && all[i].resjunk == tlist[i].resjunk
                    && all[i].resname == tlist[i].resname
            &&& forall|k: int|
                0 <= k < cst.len() && wanted(#[trigger] cst[k], needed) ==> {
                    let at = tlist.len() + count_wanted(cst, needed, k);
                    value(m, all[at].expr) == value(m, cst[k].expr) && all[at].resno == at + 1
                        && all[at].resjunk && at < all.len()
                }
        }),
{
    let all = extended(tlist, cst, needed);
    let n = tlist.len() as int;
    lemma_forwarders_len(cst, needed, n, cst.len() as int);
    assert forall|i: int| 0 <= i < n implies value(m, (#[trigger] all[i]).expr) == value(
        m,
        tlist[i].expr,
    ) && all[i].resno == tlist[i].resno && all[i].resjunk == tlist[i].resjunk && all[i].resname
        == tlist[i].resname by {
        if let Head::Var(v) = tlist[i].expr.head {
            let p = |c: Target| crate::scan::json_tlist::is_column(c, v.varno, v.varattno);
            lemma_first_where(cst, p);
            if let Some(k) = crate::search::first_where(cst, p) {
                assert(p(cst[k]));
                let w = cst[k].expr.head->Var_0;
                let x = all[i].expr.head->Var_0;
                assert(x.varno == -3 && x.varattno == k + 1);
                assert((m.var)(x) == value(m, cst[k].expr));
                assert((m.var)(v) == (m.var)(w));
            }
        }
    }
    assert forall|k: int| 0 <= k < cst.len() && wanted(#[trigger] cst[k], needed) implies {
        let at = n + count_wanted(cst, needed, k);
        value(m, all[at].expr) == value(m, cst[k].expr) && all[at].resno == at + 1 && all[at].resjunk
            && at < all.len()
    } by {
        lemma_forwarder_at(m, cst, needed, n, k, cst.len() as int);
    }
}

proof fn lemma_synthetic_at(rti: i32, atts: Seq<Attribute>, specs: Seq<ExtractSpec>, k: int, n: int)
    requires
        0 <= n <= specs.len(),
        forall|j: int|
            0 <= j < specs.len() ==> crate::scan::json_extract::chain_expr_for(
                rti,
                #[trigger] specs[j],
                atts,
            ) is Some,
        atts.len() + specs.len() < i16::MAX,
    ensures
        synthetic_targets(rti, atts, specs, n).len() == n,
        0 <= k < n ==> {
            let t = synthetic_targets(rti, atts, specs, n)[k];
            &&& Some(t.expr) == crate::scan::json_extract::chain_expr_for(rti, specs[k], atts)
            &&& t.resno == atts.len() + k + 1
            &&& t.resname == Some(specs[k].target_name@)
            &&& !t.resjunk
        },
    decreases n,
{
    if n > 0 {
        assert(crate::scan::json_extract::chain_expr_for(rti, specs[n - 1], atts) is Some);
        lemma_synthetic_at(rti, atts, specs, k, n - 1);
    }
}

/// The tuple of a scan holds the columns of the relation in their order, and
/// behind them what was extracted at each path, out of the column of that name.
/// Entries are numbered from one.
pub proof fn lemma_scan_tuple_holds<V>(
    m: Meaning<V>,
    doc: spec_fn(i16) -> V,
    rti: i32,
    atts: Seq<Attribute>,
    specs: Seq<ExtractSpec>,
    i: int,
)
    requires
        is_faithful(m),
        atts.len() + specs.len() < i16::MAX,
        forall|v: Var| v.varno == rti ==> #[trigger] (m.var)(v) == doc(v.varattno),
        forall|j: int|
            0 <= j < specs.len() ==> (#[trigger] specs[j]).path@.len() > 0
                && crate::scan::json_extract::chain_expr_for(rti, specs[j], atts) is Some,
        0 <= i < atts.len() + specs.len(),
    ensures
        ({
            let cst = custom_scan_targets(rti, atts, specs);
            &&& cst.len() == atts.len() + specs.len()
            &&& cst[i].resno == i + 1
            &&& i < atts.len() && !atts[i].dropped ==> value(m, cst[i].expr) == doc(atts[i].attnum)
                && cst[i].resname == Some(atts[i].name@)
            &&& i >= atts.len() ==> {
                let s = specs[i - atts.len()];
                &&& cst[i].resname == Some(s.target_name@)
                &&& exists|k: int|
                    0 <= k < atts.len() && (#[trigger] atts[k]).name@ == s.src_column@
                        && !atts[k].dropped && value(m, cst[i].expr) == extracted(
                        m,
                        doc(atts[k].attnum),
                        texts(s.path@),
                        s.target_kind,
                    )
            }
        }),
{
    let cst = custom_scan_targets(rti, atts, specs);
    let n = atts.len() as int;
    lemma_synthetic_at(rti, atts, specs, i - n, specs.len() as int);
    if i < n {
        if !atts[i].dropped {
            let v = cst[i].expr.head->Var_0;
            assert(v.varno == rti);
            assert((m.var)(v) == doc(atts[i].attnum));
        }
    } else {
        let s = specs[i - n];
        let k = crate::scan::json_extract::source_column(s, atts)->0;
        let v = crate::scan::json_extract::source_var(rti, atts[k]);
        lemma_first_where(atts, |a: Attribute| !a.dropped && a.name@ == s.src_column@);
        lemma_spec_chain_recognised(s, v);
        lemma_chain_value(m, cst[i].expr);
        assert((m.var)(v) == doc(atts[k].attnum));
        assert(atts[k].name@ == s.src_column@);
    }
}

// ---------------------------------------------------------------------------
// Ancestors
// ---------------------------------------------------------------------------

/// Every plan above a scan that has a target list comes to pass on the column
/// from below: at the position that the plan below it puts it. What the plans put
/// out before stays where it is.
pub proof fn lemma_column_is_lifted(stack: Seq<Seq<Target>>, pos: i16, kind: ColumnKind)
    requires
        stack.len() > 0,
        stack.last().len() < i16::MAX,
    ensures
        ({
            let top = stack.last();
            let new = lifted(stack, pos, kind).last();
            let rest = lifted(stack, pos, kind).drop_last();
            if top.len() == 0 {
                new == top && rest == lifted(stack.drop_last(), pos, kind)
            } else {
                &&& top.len() <= new.len() <= top.len() + 1
                &&& forall|i: int| 0 <= i < top.len() ==> #[trigger] new[i] == top[i]
                &&& (exists|i: int|
                    0 <= i < top.len() && (#[trigger] top[i].expr.head matches Head::Var(v)
                        && v.varno == -2 && v.varattno == pos)) ==> new == top
                &&& new.len() > top.len() ==> new.last().resno == new.len() && new.last().resjunk
                    && (new.last().expr.head matches Head::Var(v) && v.varno == -2 && v.varattno
                    == pos && v.vartype == oid_of_kind(kind))
                &&& forwarder_at(new, pos) matches Some(r) && rest == lifted(
                    stack.drop_last(),
                    r,
                    kind,
                ) && exists|i: int|
                    0 <= i < new.len() && (#[trigger] new[i].expr.head matches Head::Var(v)
                        && v.varno == -2 && v.varattno == pos) && new[i].resno == r
            }
        }),
{
    let top = stack.last();
    let p = |t: Target| forwards(t, pos);
    lemma_first_where(top, p);
    let new = lifted(stack, pos, kind).last();
    lemma_first_where(new, p);
    assert(lifted(stack, pos, kind).drop_last() =~= if top.len() == 0 {
        lifted(stack.drop_last(), pos, kind)
    } else {
        match forwarder_at(top, pos) {
            Some(r) => lifted(stack.drop_last(), r, kind),
            None => lifted(stack.drop_last(), (top.len() + 1) as i16, kind),
        }
    });
    if top.len() > 0 {
        match crate::search::first_where(top, p) {
            Some(i) => {
                assert(p(top[i]));
                assert(new == top);
                assert(new[i].expr.head is Var);
            },
            None => {
                assert forall|i: int| 0 <= i < top.len() implies !(
                #[trigger] top[i].expr.head matches Head::Var(v) && v.varno == -2 && v.varattno
                    == pos) by {
                    assert(!p(top[i]));
                }
                let k = top.len() as int;
                assert(p(new[k]));
                assert forall|j: int| 0 <= j < k implies !p(new[j]) by {
                    assert(new[j] == top[j]);
                }
                crate::search::lemma_first_is(new, p, k);
                assert(new[k].expr.head is Var);
            },
        }
    }
}

/// Whether a target list passes on the column at a position of the child.
pub open spec fn passes_on(tlist: Seq<Target>, pos: i16) -> bool {
    exists|i: int|
        0 <= i < tlist.len() && (#[trigger] tlist[i].expr.head matches Head::Var(v) && v.varno == -2
            && v.varattno == pos)
}

/// The plan above a scan comes to pass on every extracted column of the scan that
/// is needed, and still puts out all that it did.
pub proof fn lemma_needed_columns_are_passed_on(
    stack: Seq<Seq<Target>>,
    stl: Seq<Column>,
    needed: Sigs,
    n: int,
    k: int,
)
    requires
        stack.len() > 0,
        0 < stack.last().len(),
        stack.last().len() + n < i16::MAX,
        0 <= n <= stl.len(),
    ensures
        ({
            let top = stack.last();
            let new = propagated(stack, stl, needed, n).last();
            &&& propagated(stack, stl, needed, n).len() == stack.len()
            &&& top.len() <= new.len() <= top.len() + n
            &&& forall|i: int| 0 <= i < top.len() ==> #[trigger] new[i] == top[i]
            &&& 0 <= k < n ==> (stl[k] matches Column::Synthetic { path, kind, src, resno }
                ==> needed.contains((path, kind)) ==> passes_on(new, resno))
        }),
    decreases n,
{
    if n > 0 {
        lemma_needed_columns_are_passed_on(stack, stl, needed, n - 1, k);
        let before = propagated(stack, stl, needed, n - 1);
        let now = propagated(stack, stl, needed, n);
        if let Column::Synthetic { path, kind, src, resno } = stl[n - 1] {
            if needed.contains((path, kind)) {
                lemma_column_is_lifted(before, resno, kind);
                lemma_lifted_depth(before, resno, kind);
                let (a, b) = (before.last(), now.last());
                let i = choose|i: int|
                    0 <= i < b.len() && (#[trigger] b[i].expr.head matches Head::Var(v) && v.varno
                        == -2 && v.varattno == resno);
                assert(passes_on(b, resno));
                assert forall|i: int| 0 <= i < stack.last().len() implies #[trigger] b[i]
                    == stack.last()[i] by {
                    assert(b[i] == a[i]);
                }
                if 0 <= k < n - 1 {
                    if let Column::Synthetic { path: p2, kind: k2, src: s2, resno: r2 } = stl[k] {
                        if needed.contains((p2, k2)) {
                            let j = choose|j: int|
                                0 <= j < a.len() && (#[trigger] a[j].expr.head matches Head::Var(v)
                                    && v.varno == -2 && v.varattno == r2);
                            assert(b[j] == a[j]);
                            assert(b[j].expr.head is Var);
                        }
                    }
                }
            }
        }
    }
}

proof fn lemma_lifted_depth(stack: Seq<Seq<Target>>, pos: i16, kind: ColumnKind)
    ensures
        lifted(stack, pos, kind).len() == stack.len(),
    decreases stack.len(),
{
    if stack.len() > 0 {
        let top = stack.last();
        let rest = stack.drop_last();
        if top.len() == 0 {
            lemma_lifted_depth(rest, pos, kind);
        } else {
            match forwarder_at(top, pos) {
                Some(r) => lemma_lifted_depth(rest, r, kind),
                None => lemma_lifted_depth(rest, (top.len() + 1) as i16, kind),
            }
        }
    }
}

} // verus!
