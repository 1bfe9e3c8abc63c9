//! What the plans above a scan read of it, and what it loads for them.

use vstd::prelude::*;
use crate::scan::chain_laws::{
    extracted, is_faithful, lemma_chain_value, lemma_rewriting_keeps_value,
    lemma_rewritten_list_keeps_values, row_fits, value, Meaning,
};
use crate::scan::json_extract::{chain_of, mentions, Column, ColumnKind, Rule, Target};
use crate::scan::json_plan::{finished, plan_mentions, plan_sigs, PlanKind, PlanTree};
use crate::scan::json_prune::{
    add_all, add_pos, add_refs, child_refs, is_loaded, kept, limit_section, list_vars, load_attnos,
    load_entries, load_entry, load_refs, loaded, pruned, read_by_entries, vars_of, with_columns,
    Loaded, RefKind,
};
use crate::scan::json_tlist::scan_synths;
use crate::scan::node::{is_null, Expr, Head, Var};
use crate::search::{lemma_first_is, lemma_first_none};

verus! {

// ---------------------------------------------------------------------------
// References
// ---------------------------------------------------------------------------

/// Whether a column reference occurs in an expression.
pub open spec fn occurs(e: Expr, v: Var) -> bool
    decreases e,
{
    if e.head is Var {
        e.head == Head::Var(v)
    } else {
        ||| exists|i: int| 0 <= i < e.args.len() && occurs(#[trigger] e.args[i], v)
        ||| match e.subject {
            Some(b) => occurs(*b, v),
            None => false,
        }
        ||| match e.aux {
            Some(b) => occurs(*b, v),
            None => false,
        }
    }
}

/// Every column reference in an expression is found, and nothing else.
pub proof fn lemma_references_found(e: Expr, v: Var)
    ensures
        vars_of(e).contains(v) <==> occurs(e, v),
    decreases e, 0int,
{
    if let Head::Var(w) = e.head {
        assert(seq![w][0] == w);
        assert(vars_of(e) == seq![w]);
    } else {
        let first = match e.subject {
            Some(b) => vars_of(*b),
            None => Seq::empty(),
        };
        let last = match e.aux {
            Some(b) => vars_of(*b),
            None => Seq::empty(),
        };
        let mid = list_vars(e.args, e.args.len() as int);
        lemma_list_references(e.args, e.args.len() as int, v);
        if let Some(b) = e.subject {
            lemma_references_found(*b, v);
        }
        if let Some(b) = e.aux {
            lemma_references_found(*b, v);
        }
        lemma_contains_sum(first, mid, v);
        lemma_contains_sum(first + mid, last, v);
    }
}

proof fn lemma_contains_sum(a: Seq<Var>, b: Seq<Var>, v: Var)
    ensures
        (a + b).contains(v) <==> a.contains(v) || b.contains(v),
{
    if a.contains(v) {
        let i = choose|i: int| 0 <= i < a.len() && a[i] == v;
        assert((a + b)[i] == v);
    }
    if b.contains(v) {
        let i = choose|i: int| 0 <= i < b.len() && b[i] == v;
        assert((a + b)[a.len() + i] == v);
    }
    if (a + b).contains(v) {
        let i = choose|i: int| 0 <= i < (a + b).len() && (a + b)[i] == v;
        if i < a.len() {
            assert(a[i] == v);
        } else {
            assert(b[i - a.len()] == v);
        }
    }
}

proof fn lemma_list_references(s: Seq<Expr>, n: int, v: Var)
    requires
        0 <= n <= s.len(),
    ensures
        list_vars(s, n).contains(v) <==> exists|i: int| 0 <= i < n && occurs(#[trigger] s[i], v),
    decreases s, n,
{
    if n > 0 {
        lemma_list_references(s, n - 1, v);
        lemma_references_found(s[n - 1], v);
        lemma_contains_sum(list_vars(s, n - 1), vars_of(s[n - 1]), v);
    }
}

/// Whether a column reference occurs in a list.
pub open spec fn list_occurs(s: Seq<Expr>, v: Var) -> bool {
    exists|i: int| 0 <= i < s.len() && occurs(#[trigger] s[i], v)
}

proof fn lemma_pos_added(s: Seq<i16>, k: i16)
    ensures
        add_pos(s, k).contains(k),
        forall|d: i16| #[trigger] s.contains(d) ==> add_pos(s, k).contains(d),
{
    if !s.contains(k) {
        assert(s.push(k)[s.len() as int] == k);
        assert forall|d: i16| #[trigger] s.contains(d) implies s.push(k).contains(d) by {
            let i = choose|i: int| 0 <= i < s.len() && s[i] == d;
            assert(s.push(k)[i] == d);
        }
    }
}

proof fn lemma_refs_added(out: Seq<i16>, vars: Seq<Var>, which: RefKind, n: int)
    requires
        0 <= n <= vars.len(),
    ensures
        forall|d: i16| #[trigger] out.contains(d) ==> add_refs(out, vars, which, n).contains(d),
        which == RefKind::Outer ==> forall|j: int|
            0 <= j < n && (#[trigger] vars[j]).varno == -2 ==> add_refs(
                out,
                vars,
                which,
                n,
            ).contains(vars[j].varattno),
        which == RefKind::Index ==> forall|j: int|
            0 <= j < n && (#[trigger] vars[j]).varno == -3 ==> add_refs(
                out,
                vars,
                which,
                n,
            ).contains(vars[j].varattno),
    decreases n,
{
    if n > 0 {
        lemma_refs_added(out, vars, which, n - 1);
        lemma_pos_added(add_refs(out, vars, which, n - 1), vars[n - 1].varattno);
    }
}

proof fn lemma_all_added(out: Seq<i16>, more: Seq<i16>, n: int)
    requires
        0 <= n <= more.len(),
    ensures
        forall|d: i16| #[trigger] out.contains(d) ==> add_all(out, more, n).contains(d),
        forall|j: int| 0 <= j < n ==> add_all(out, more, n).contains(#[trigger] more[j]),
    decreases n,
{
    if n > 0 {
        lemma_all_added(out, more, n - 1);
        lemma_pos_added(add_all(out, more, n - 1), more[n - 1]);
    }
}

proof fn lemma_entries_read(tlist: Seq<Target>, at: Seq<i16>, n: int, j: int, v: Var)
    requires
        0 <= j < n <= at.len(),
        1 <= at[j] <= tlist.len(),
        v.varno == -2,
        occurs(tlist[at[j] - 1].expr, v),
    ensures
        read_by_entries(tlist, at, n).contains(v.varattno),
    decreases n,
{
    let before = read_by_entries(tlist, at, n - 1);
    let p = at[n - 1];
    if 1 <= p <= tlist.len() {
        let vars = vars_of(tlist[p - 1].expr);
        lemma_refs_added(before, vars, RefKind::Outer, vars.len() as int);
        if j == n - 1 {
            lemma_references_found(tlist[p - 1].expr, v);
            let k = choose|k: int| 0 <= k < vars.len() && vars[k] == v;
            assert(vars[k].varno == -2);
        }
    }
    if j < n - 1 {
        lemma_entries_read(tlist, at, n - 1, j, v);
    }
}

/// A plan reads of its child every column that occurs in an entry which is read
/// or sorted or grouped by, in its filter, or in the run condition of a window
/// aggregate.
pub proof fn lemma_read_columns_are_asked_for(p: PlanTree, refs: Seq<i16>, v: Var)
    requires
        v.varno == -2,
        ({
            ||| exists|at: i16|
                (refs.contains(at) || p.key_cols.contains(at)) && 1 <= at <= p.targetlist.len()
                    && occurs((#[trigger] p.targetlist[at - 1]).expr, v)
            ||| list_occurs(p.qual, v)
            ||| p.kind == PlanKind::WindowAgg && list_occurs(p.run_condition, v)
        }),
    ensures
        child_refs(p, refs).contains(v.varattno),
{
    let at = add_all(refs, p.key_cols, p.key_cols.len() as int);
    let entries = read_by_entries(p.targetlist, at, at.len() as int);
    let qual = list_vars(p.qual, p.qual.len() as int);
    let with_qual = add_refs(entries, qual, RefKind::Outer, qual.len() as int);
    let run = list_vars(p.run_condition, p.run_condition.len() as int);
    lemma_all_added(refs, p.key_cols, p.key_cols.len() as int);
    lemma_refs_added(entries, qual, RefKind::Outer, qual.len() as int);
    lemma_refs_added(with_qual, run, RefKind::Outer, run.len() as int);
    lemma_list_references(p.qual, p.qual.len() as int, v);
    lemma_list_references(p.run_condition, p.run_condition.len() as int, v);
    if list_occurs(p.qual, v) {
        let k = choose|k: int| 0 <= k < qual.len() && qual[k] == v;
        assert(qual[k].varno == -2);
        assert(with_qual.contains(v.varattno));
    } else if p.kind == PlanKind::WindowAgg && list_occurs(p.run_condition, v) {
        let k = choose|k: int| 0 <= k < run.len() && run[k] == v;
        assert(run[k].varno == -2);
    } else {
        let a = choose|a: i16|
            (refs.contains(a) || p.key_cols.contains(a)) && 1 <= a <= p.targetlist.len() && occurs(
                (#[trigger] p.targetlist[a - 1]).expr,
                v,
            );
        if p.key_cols.contains(a) {
            let i = choose|i: int| 0 <= i < p.key_cols.len() && p.key_cols[i] == a;
            assert(at.contains(p.key_cols[i]));
        }
        let j = choose|j: int| 0 <= j < at.len() && at[j] == a;
        lemma_entries_read(p.targetlist, at, at.len() as int, j, v);
        assert(entries.contains(v.varattno));
        assert(with_qual.contains(v.varattno));
    }
}

// ---------------------------------------------------------------------------
// Scans
// ---------------------------------------------------------------------------

proof fn lemma_col_added(l: Loaded, cst: Seq<Target>, k: i16)
    ensures
        forall|c: i32| #[trigger] l.cols.contains(c) ==> load_entry(l, cst, k).cols.contains(c),
        forall|c: i32| #[trigger] l.synth.contains(c) ==> load_entry(l, cst, k).synth.contains(c),
        1 <= k <= cst.len() && !is_null(cst[k - 1].expr) ==> is_loaded(load_entry(l, cst, k), k),
{
    let r = load_entry(l, cst, k);
    let c = (k - 1) as i32;
    if 1 <= k <= cst.len() && !is_null(cst[k - 1].expr) {
        let (a, b) = if cst[k - 1].expr.head is Var {
            (l.cols, r.cols)
        } else {
            (l.synth, r.synth)
        };
        if !a.contains(c) {
            assert(b[a.len() as int] == c);
        }
        assert forall|d: i32| #[trigger] a.contains(d) implies b.contains(d) by {
            let i = choose|i: int| 0 <= i < a.len() && a[i] == d;
            assert(b[i] == d);
        }
    }
}

proof fn lemma_entry_loaded(l: Loaded, cst: Seq<Target>, ks: Seq<i16>, n: int, j: int)
    requires
        0 <= j < n <= ks.len(),
        1 <= ks[j] <= cst.len(),
        !is_null(cst[ks[j] - 1].expr),
    ensures
        is_loaded(load_entries(l, cst, ks, n), ks[j]),
    decreases n,
{
    lemma_col_added(load_entries(l, cst, ks, n - 1), cst, ks[n - 1]);
    if j < n - 1 {
        lemma_entry_loaded(l, cst, ks, n - 1, j);
    }
}

proof fn lemma_attnos_keep(l: Loaded, cst: Seq<Target>, attnos: Seq<i16>, n: int)
    ensures
        forall|c: i32| #[trigger]
            l.cols.contains(c) ==> load_attnos(l, cst, attnos, n).cols.contains(c),
        l.synth == load_attnos(l, cst, attnos, n).synth,
    decreases n,
{
    if n > 0 {
        lemma_attnos_keep(l, cst, attnos, n - 1);
        let a = load_attnos(l, cst, attnos, n - 1).cols;
        let b = load_attnos(l, cst, attnos, n).cols;
        assert forall|d: i32| #[trigger] a.contains(d) implies b.contains(d) by {
            let i = choose|i: int| 0 <= i < a.len() && a[i] == d;
            assert(b[i] == d);
        }
    }
}

/// Every entry of its tuple that a scan's own filter refers to is loaded, whatever
/// is read from above.
pub proof fn lemma_filter_entries_are_loaded(p: PlanTree, refs: Seq<i16>, v: Var)
    requires
        v.varno == -3,
        list_occurs(p.qual, v),
        1 <= v.varattno <= p.custom_scan_tlist.len(),
        !is_null(p.custom_scan_tlist[v.varattno - 1].expr),
    ensures
        is_loaded(loaded(p, refs), v.varattno),
{
    let cst = p.custom_scan_tlist;
    let vars = list_vars(p.qual, p.qual.len() as int);
    let index = add_refs(Seq::empty(), vars, RefKind::Index, vars.len() as int);
    let attnos = add_refs(Seq::empty(), vars, RefKind::Relation, vars.len() as int);
    let for_refs = load_refs(cst, p.targetlist, refs, refs.len() as int);
    let for_index = load_entries(for_refs, cst, index, index.len() as int);
    lemma_list_references(p.qual, p.qual.len() as int, v);
    lemma_refs_added(Seq::empty(), vars, RefKind::Index, vars.len() as int);
    let k = choose|k: int| 0 <= k < vars.len() && vars[k] == v;
    assert(vars[k].varno == -3);
    let j = choose|j: int| 0 <= j < index.len() && index[j] == v.varattno;
    lemma_entry_loaded(for_refs, cst, index, index.len() as int, j);
    lemma_attnos_keep(for_index, cst, attnos, attnos.len() as int);
}

/// Each plan asks its outer child, and each member of an append, for what it reads
/// of them; the inner side of a join is read in full. Nothing of a plan changes
/// but what its scans load.
pub proof fn lemma_pruned_children(p: PlanTree, refs: Seq<i16>)
    requires
        p.kind != PlanKind::CustomScan,
    ensures
        ({
            let q = pruned(p, refs);
            &&& p.left matches Some(b) ==> q.left == Some(Box::new(pruned(*b, child_refs(p, refs))))
            &&& p.right matches Some(b) ==> q.right == Some(Box::new(kept(*b)))
            &&& q.children.len() == p.children.len()
            &&& p.kind == PlanKind::Append || p.kind == PlanKind::MergeAppend ==> forall|i: int|
                0 <= i < p.children.len() ==> #[trigger] q.children[i] == pruned(
                    p.children[i],
                    child_refs(p, refs),
                )
            &&& q.targetlist == p.targetlist && q.qual == p.qual && q.run_condition
                == p.run_condition && q.key_cols == p.key_cols && q.kind == p.kind && q.ident
                == p.ident
        }),
{
}

/// A plan that is read in full loads, in each of its scans, every entry of the
/// scan's target list.
pub proof fn lemma_kept_scan(p: PlanTree)
    requires
        p.kind == PlanKind::CustomScan,
        p.targetlist.len() < i16::MAX,
    ensures
        kept(p) == pruned(p, Seq::new(p.targetlist.len(), |i: int| (i + 1) as i16)),
{
    assert(crate::scan::json_prune::all_positions(p.targetlist.len()) =~= Seq::new(
        p.targetlist.len(),
        |i: int| (i + 1) as i16,
    ));
}

/// Whether a list does not hold a number.
pub open spec fn lacks(s: Seq<i32>, v: i32) -> bool {
    forall|i: int| 0 <= i < s.len() ==> #[trigger] s[i] != v
}

/// A scan's description keeps its tables and its limit. Its columns are those that
/// are loaded, and so are its extracted columns, which stand last and are left
/// out where none is loaded.
pub proof fn lemma_description_keeps_limit(
    tables: Seq<i32>,
    cols: Seq<i32>,
    limit: Seq<i32>,
    old_synth: Seq<i32>,
    has_limit: bool,
    has_synth: bool,
    l: Loaded,
)
    requires
        lacks(tables, -1i32),
        lacks(cols, -2i32),
        lacks(cols, -3i32),
        lacks(limit, -3i32),
    ensures
        ({
            let tail = if has_limit {
                seq![-2i32] + limit
            } else {
                Seq::empty()
            };
            let synth = if has_synth {
                seq![-3i32] + old_synth
            } else {
                Seq::empty()
            };
            with_columns(tables + seq![-1i32] + cols + tail + synth, l) == tables + seq![-1i32]
                + l.cols + tail + if l.synth.len() > 0 {
                seq![-3i32] + l.synth
            } else {
                Seq::empty()
            }
        }),
{
    let tail = if has_limit {
        seq![-2i32] + limit
    } else {
        Seq::empty()
    };
    let synth = if has_synth {
        seq![-3i32] + old_synth
    } else {
        Seq::empty()
    };
    let all = tables + seq![-1i32] + cols + tail + synth;
    let t = tables.len() as int;
    let is_end = |v: i32| v == -1;
    assert forall|j: int| 0 <= j < t implies !is_end(all[j]) by {
        assert(all[j] == tables[j]);
    }
    assert(all[t] == -1);
    lemma_first_is(all, is_end, t);
    assert(all.subrange(0, t + 1) =~= tables + seq![-1i32]);
    let rest = all.subrange(t + 1, all.len() as int);
    assert(rest =~= cols + tail + synth);
    let n = cols.len() as int;
    let is_mark = |v: i32| v == -2 || v == -3;
    assert forall|j: int| 0 <= j < n implies !is_mark(rest[j]) by {
        assert(rest[j] == cols[j]);
    }
    if has_limit {
        assert(rest[n] == -2);
        lemma_first_is(rest, is_mark, n);
        let payload = rest.subrange(n + 1, rest.len() as int);
        assert(payload =~= limit + synth);
        let k = limit.len() as int;
        let is_synth = |v: i32| v == -3;
        assert forall|j: int| 0 <= j < k implies !is_synth(payload[j]) by {
            assert(payload[j] == limit[j]);
        }
        if has_synth {
            assert(payload[k] == -3);
            lemma_first_is(payload, is_synth, k);
            assert(payload.subrange(0, k) =~= limit);
        } else {
            lemma_first_none(payload, is_synth);
            assert(payload =~= limit);
        }
    } else if has_synth {
        assert(rest[n] == -3);
        lemma_first_is(rest, is_mark, n);
    } else {
        lemma_first_none(rest, is_mark);
    }
    assert(limit_section(rest) =~= tail);
    assert(with_columns(all, l) =~= tables + seq![-1i32] + l.cols + tail + if l.synth.len() > 0 {
        seq![-3i32] + l.synth
    } else {
        Seq::empty()
    });
}

// ---------------------------------------------------------------------------
// Values
// ---------------------------------------------------------------------------

/// A plan puts out and filters by the same values after chains over its child's
/// columns were replaced.
pub proof fn lemma_finished_plan<V>(
    m: Meaning<V>,
    p: PlanTree,
    stl: Seq<Column>,
    doc: spec_fn(i16) -> V,
    named: spec_fn(Seq<char>) -> V,
)
    requires
        is_faithful(m),
        row_fits(m, Rule::Child(stl), doc, named),
    ensures
        ({
            let q = finished(p, stl);
            &&& q.targetlist.len() == p.targetlist.len()
            &&& forall|i: int|
                0 <= i < p.targetlist.len() ==> value(m, (#[trigger] q.targetlist[i]).expr) == value(
                    m,
                    p.targetlist[i].expr,
                ) && q.targetlist[i].resno == p.targetlist[i].resno && q.targetlist[i].resjunk
                    == p.targetlist[i].resjunk
            &&& q.qual.len() == p.qual.len()
            &&& forall|i: int|
                0 <= i < p.qual.len() ==> value(m, #[trigger] q.qual[i]) == value(m, p.qual[i])
            &&& q.run_condition.len() == p.run_condition.len()
            &&& forall|i: int|
                0 <= i < p.run_condition.len() ==> value(m, #[trigger] q.run_condition[i]) == value(
                    m,
                    p.run_condition[i],
                )
            &&& q.left == p.left && q.right == p.right && q.children == p.children && q.key_cols
                == p.key_cols
        }),
{
    let rule = Rule::Child(stl);
    let q = finished(p, stl);
    lemma_rewritten_list_keeps_values(m, rule, doc, named, p.qual);
    lemma_rewritten_list_keeps_values(m, rule, doc, named, p.run_condition);
    assert forall|i: int| 0 <= i < p.targetlist.len() implies value(
        m,
        (#[trigger] q.targetlist[i]).expr,
    ) == value(m, p.targetlist[i].expr) && q.targetlist[i].resno == p.targetlist[i].resno
        && q.targetlist[i].resjunk == p.targetlist[i].resjunk by {
        lemma_rewriting_keeps_value(m, rule, doc, named, p.targetlist[i].expr);
    }
}

/// The extracted columns of a scan's tuple are found where they stand, and hold
/// what their chain leads to.
pub proof fn lemma_scan_synths<V>(m: Meaning<V>, cst: Seq<Target>, n: int, k: int)
    requires
        is_faithful(m),
        0 <= n <= cst.len() < i16::MAX,
    ensures
        forall|i: int|
            0 <= i < scan_synths(cst, n).len() ==> {
                let s = #[trigger] scan_synths(cst, n)[i];
                &&& 1 <= s.position <= n
                &&& chain_of(cst[s.position - 1].expr) matches Some(c) && c.inner_var.varattno
                    == s.src && value(m, cst[s.position - 1].expr) == extracted(
                    m,
                    (m.var)(c.inner_var),
                    s.path,
                    s.kind,
                )
            },
        0 <= k < n && !(cst[k].expr.head is Var) && chain_of(cst[k].expr) is Some ==> exists|i: int|
            0 <= i < scan_synths(cst, n).len() && (#[trigger] scan_synths(cst, n)[i]).position == k
                + 1,
    decreases n,
{
    if n > 0 {
        lemma_scan_synths(m, cst, n - 1, k);
        let before = scan_synths(cst, n - 1);
        let now = scan_synths(cst, n);
        let e = cst[n - 1].expr;
        if chain_of(e) is Some {
            lemma_chain_value(m, e);
        }
        assert forall|i: int| 0 <= i < now.len() implies {
            let s = #[trigger] now[i];
            &&& 1 <= s.position <= n
            &&& chain_of(cst[s.position - 1].expr) matches Some(c) && c.inner_var.varattno == s.src
                && value(m, cst[s.position - 1].expr) == extracted(
                m,
                (m.var)(c.inner_var),
                s.path,
                s.kind,
            )
        } by {
            if i < before.len() {
                assert(now[i] == before[i]);
            }
        }
        if 0 <= k < n && !(cst[k].expr.head is Var) && chain_of(cst[k].expr) is Some {
            if k < n - 1 {
                let i = choose|i: int|
                    0 <= i < before.len() && (#[trigger] before[i]).position == k + 1;
                assert(now[i] == before[i]);
            } else {
                assert(now[before.len() as int].position == k + 1);
            }
        }
    }
}

// ---------------------------------------------------------------------------
// Signatures
// ---------------------------------------------------------------------------

/// Whether a chain of the signature stands in an expression: it is one, or it
/// stands in a part of one that has parts.
pub open spec fn has_chain(e: Expr, path: Seq<Seq<char>>, kind: ColumnKind) -> bool
    decreases e,
{
    ||| chain_of(e) matches Some(c) && c.keys == path && c.leaf_kind == kind
    ||| !(e.head is Null || e.head is Var || e.head is Const || e.head is List || e.head is Other)
        && {
        ||| exists|i: int| 0 <= i < e.args.len() && has_chain(#[trigger] e.args[i], path, kind)
        ||| match e.aux {
            Some(b) => has_chain(*b, path, kind),
            None => false,
        }
        ||| match e.subject {
            Some(b) => has_chain(*b, path, kind),
            None => false,
        }
    }
}

/// Every chain that stands in an expression is found, and nothing else.
pub proof fn lemma_chains_found(e: Expr, path: Seq<Seq<char>>, kind: ColumnKind)
    ensures
        mentions(e, path, kind) <==> has_chain(e, path, kind),
    decreases e,
{
    assert forall|i: int| 0 <= i < e.args.len() implies mentions(#[trigger] e.args[i], path, kind)
        == has_chain(e.args[i], path, kind) by {
        lemma_chains_found(e.args[i], path, kind);
    }
    if let Some(b) = e.aux {
        lemma_chains_found(*b, path, kind);
    }
    if let Some(b) = e.subject {
        lemma_chains_found(*b, path, kind);
    }
}

/// The signatures that a plan needs are those of the chains in its target list, in
/// its filter and in the run condition of a window aggregate, and those that the
/// plans below it need. A scan needs none.
pub proof fn lemma_signatures_needed(p: PlanTree, path: Seq<Seq<char>>, kind: ColumnKind)
    ensures
        p.kind == PlanKind::CustomScan ==> !plan_sigs(p).contains((path, kind)),
        p.kind != PlanKind::CustomScan ==> {
            let needs = plan_sigs(p).contains((path, kind));
            &&& forall|i: int|
                0 <= i < p.targetlist.len() && has_chain(
                    (#[trigger] p.targetlist[i]).expr,
                    path,
                    kind,
                ) ==> needs
            &&& forall|i: int|
                0 <= i < p.qual.len() && has_chain(#[trigger] p.qual[i], path, kind) ==> needs
            &&& p.kind == PlanKind::WindowAgg ==> forall|i: int|
                0 <= i < p.run_condition.len() && has_chain(
                    #[trigger] p.run_condition[i],
                    path,
                    kind,
                ) ==> needs
            &&& p.left matches Some(b) ==> plan_sigs(*b).contains((path, kind)) ==> needs
            &&& p.right matches Some(b) ==> plan_sigs(*b).contains((path, kind)) ==> needs
            &&& p.kind == PlanKind::Append || p.kind == PlanKind::MergeAppend ==> forall|i: int|
                0 <= i < p.children.len() && plan_sigs(#[trigger] p.children[i]).contains(
                    (path, kind),
                ) ==> needs
        },
{
    let s = (path, kind);
    assert(plan_sigs(p).contains(s) <==> plan_mentions(p, path, kind));
    if p.kind != PlanKind::CustomScan {
        assert forall|i: int|
            0 <= i < p.targetlist.len() && has_chain(
                (#[trigger] p.targetlist[i]).expr,
                path,
                kind,
            ) implies plan_mentions(p, path, kind) by {
            lemma_chains_found(p.targetlist[i].expr, path, kind);
        }
        assert forall|i: int|
            0 <= i < p.qual.len() && has_chain(#[trigger] p.qual[i], path, kind) implies plan_mentions(
            p,
            path,
            kind,
        ) by {
            lemma_chains_found(p.qual[i], path, kind);
        }
        assert forall|i: int|
            0 <= i < p.run_condition.len() && p.kind == PlanKind::WindowAgg && has_chain(
                #[trigger] p.run_condition[i],
                path,
                kind,
            ) implies plan_mentions(p, path, kind) by {
            lemma_chains_found(p.run_condition[i], path, kind);
        }
        assert forall|i: int|
            0 <= i < p.children.len() && (p.kind == PlanKind::Append || p.kind
                == PlanKind::MergeAppend) && plan_sigs(#[trigger] p.children[i]).contains(
                s,
            ) implies plan_mentions(p, path, kind) by {
            assert(plan_mentions(p.children[i], path, kind));
        }
    }
}

} // verus!
