//! Which columns a scan still has to load.
//!
//! Once chains are replaced, a plan may no longer read the `jsonb` column that
//! they started from. Walking down from the plan's output, the positions that
//! are read are passed on from plan to plan, and each rewritten scan is told
//! the columns to load.

use vstd::prelude::*;
use crate::scan::json_extract::{targets, Target, TargetEntry};
use crate::scan::json_plan::{
    is_append, is_row_scan, lemma_plan_view, trees, Plan, PlanKind, PlanTree, ScanName,
};
use crate::scan::node::{
    exprs, group_node, is_null, Expr, Head, Node, Var, INDEX_VAR, INNER_VAR, OUTER_VAR,
};
use crate::search::{first_where, lemma_first_is, lemma_first_none};

verus! {

/// The column references of an expression, in the order in which they occur.
pub open spec fn vars_of(e: Expr) -> Seq<Var>
    decreases e, 0int,
{
    match e.head {
        Head::Var(v) => seq![v],
        _ => {
            let first = match e.subject {
                Some(b) => vars_of(*b),
                None => Seq::empty(),
            };
            let last = match e.aux {
                Some(b) => vars_of(*b),
                None => Seq::empty(),
            };
            first + list_vars(e.args, e.args.len() as int) + last
        },
    }
}

/// The column references of the first `n` expressions of a list.
pub open spec fn list_vars(s: Seq<Expr>, n: int) -> Seq<Var>
    decreases s, n,
{
    if n <= 0 || n > s.len() {
        Seq::empty()
    } else {
        list_vars(s, n - 1) + vars_of(s[n - 1])
    }
}

/// Appends the column references of an expression to `out`.
pub fn pull_vars(node: &Node, out: &mut Vec<Var>)
    ensures
        final(out)@ == old(out)@ + vars_of(node.view()),
    decreases node, 0int,
{
    broadcast use group_node;

    let ghost e = node.view();
    let ghost base = out@;
    if let Head::Var(v) = &node.head {
        out.push(*v);
        assert(out@ =~= base + vars_of(e));
        return ;
    }
    if let Some(b) = &node.subject {
        pull_vars(b, out);
    }
    let ghost first = match e.subject {
        Some(b) => vars_of(*b),
        None => Seq::empty(),
    };
    assert(out@ =~= base + first);
    let mut i: usize = 0;
    assert(out@ =~= base + first + list_vars(e.args, 0));
    while i < node.args.len()
        invariant
            i <= node.args.len(),
            e == node.view(),
            e.args == exprs(node.args@),
            out@ == base + first + list_vars(e.args, i as int),
        decreases node.args.len() - i,
    {
        pull_vars(&node.args[i], out);
        assert(e.args[i as int] == node.args@[i as int].view());
        i += 1;
        assert(out@ =~= base + first + list_vars(e.args, i as int));
    }
    if let Some(b) = &node.aux {
        pull_vars(b, out);
    }
    assert(out@ =~= base + vars_of(e));
}

/// Appends the column references of a list of expressions to `out`.
pub fn pull_list_vars(list: &Vec<Node>, out: &mut Vec<Var>)
    ensures
        final(out)@ == old(out)@ + list_vars(exprs(list@), list@.len() as int),
{
    broadcast use group_node;

    let ghost base = out@;
    let mut i: usize = 0;
    assert(out@ =~= base + list_vars(exprs(list@), 0));
    while i < list.len()
        invariant
            i <= list.len(),
            out@ == base + list_vars(exprs(list@), i as int),
        decreases list.len() - i,
    {
        pull_vars(&list[i], out);
        i += 1;
        assert(out@ =~= base + list_vars(exprs(list@), i as int));
    }
}

/// References that are told apart by what they refer to.
#[derive(Clone, Copy, Debug, PartialEq, Eq, Structural)]
pub enum RefKind {
    /// To a column of the outer child.
    Outer,
    /// To an entry of the scan's tuple.
    Index,
    /// To a column of a relation.
    Relation,
}

pub open spec fn of_kind(which: RefKind, v: Var) -> bool {
    match which {
        RefKind::Outer => v.varno == OUTER_VAR,
        RefKind::Index => v.varno == INDEX_VAR,
        RefKind::Relation => v.varno != INDEX_VAR && v.varno != OUTER_VAR && v.varno != INNER_VAR
            && v.varattno > 0,
    }
}

/// A position added to a list without repetition.
pub open spec fn add_pos(s: Seq<i16>, k: i16) -> Seq<i16> {
    if s.contains(k) {
        s
    } else {
        s.push(k)
    }
}

/// The numbers of the references of one kind among the first `n`, added to `out`.
pub open spec fn add_refs(out: Seq<i16>, vars: Seq<Var>, which: RefKind, n: int) -> Seq<i16>
    decreases n,
{
    if n <= 0 {
        out
    } else {
        let before = add_refs(out, vars, which, n - 1);
        if of_kind(which, vars[n - 1]) {
            add_pos(before, vars[n - 1].varattno)
        } else {
            before
        }
    }
}

fn push_pos(out: &mut Vec<i16>, k: i16)
    ensures
        final(out)@ == add_pos(old(out)@, k),
{
    let mut i: usize = 0;
    while i < out.len()
        invariant
            i <= out.len(),
            out@ == old(out)@,
            forall|j: int| 0 <= j < i ==> out@[j] != k,
        decreases out.len() - i,
    {
        if out[i] == k {
            assert(out@.contains(k));
            return ;
        }
        i += 1;
    }
    out.push(k);
}

/// Adds the numbers of the references of one kind to `out`.
fn push_refs(out: &mut Vec<i16>, vars: &Vec<Var>, which: RefKind)
    ensures
        final(out)@ == add_refs(old(out)@, vars@, which, vars@.len() as int),
{
    let ghost base = out@;
    let mut i: usize = 0;
    while i < vars.len()
        invariant
            i <= vars.len(),
            out@ == add_refs(base, vars@, which, i as int),
        decreases vars.len() - i,
    {
        let v = vars[i];
        let hit = match which {
            RefKind::Outer => v.varno == OUTER_VAR,
            RefKind::Index => v.varno == INDEX_VAR,
            RefKind::Relation => v.varno != INDEX_VAR && v.varno != OUTER_VAR && v.varno
                != INNER_VAR && v.varattno > 0,
        };
        if hit {
            push_pos(out, v.varattno);
        }
        i += 1;
    }
}

/// The first `n` of `more` added to `out`.
pub open spec fn add_all(out: Seq<i16>, more: Seq<i16>, n: int) -> Seq<i16>
    decreases n,
{
    if n <= 0 {
        out
    } else {
        add_pos(add_all(out, more, n - 1), more[n - 1])
    }
}

/// What the entries at the first `n` of the positions `at` read of the child.
pub open spec fn read_by_entries(tlist: Seq<Target>, at: Seq<i16>, n: int) -> Seq<i16>
    decreases n,
{
    if n <= 0 {
        Seq::empty()
    } else {
        let before = read_by_entries(tlist, at, n - 1);
        let p = at[n - 1];
        if 1 <= p <= tlist.len() {
            let vars = vars_of(tlist[p - 1].expr);
            add_refs(before, vars, RefKind::Outer, vars.len() as int)
        } else {
            before
        }
    }
}

/// What a plan reads of its child, where its own positions `refs` are read: the
/// references in those entries and in the entries it sorts or groups by, and
/// those in its conditions.
pub open spec fn child_refs(p: PlanTree, refs: Seq<i16>) -> Seq<i16> {
    let at = add_all(refs, p.key_cols, p.key_cols.len() as int);
    let entries = read_by_entries(p.targetlist, at, at.len() as int);
    let qual = list_vars(p.qual, p.qual.len() as int);
    let with_qual = add_refs(entries, qual, RefKind::Outer, qual.len() as int);
    if p.kind == PlanKind::WindowAgg {
        let run = list_vars(p.run_condition, p.run_condition.len() as int);
        add_refs(with_qual, run, RefKind::Outer, run.len() as int)
    } else {
        with_qual
    }
}

// ---------------------------------------------------------------------------
// What a scan loads
// ---------------------------------------------------------------------------

/// Entries of a scan's tuple that are loaded, by index: columns of the relation
/// and extracted columns.
pub struct Loaded {
    pub cols: Seq<i32>,
    pub synth: Seq<i32>,
}

pub open spec fn nothing_loaded() -> Loaded {
    Loaded { cols: Seq::empty(), synth: Seq::empty() }
}

pub open spec fn add_col(s: Seq<i32>, c: i32) -> Seq<i32> {
    if s.contains(c) {
        s
    } else {
        s.push(c)
    }
}

/// `l` with entry number `k` of the tuple `cst`.
pub open spec fn load_entry(l: Loaded, cst: Seq<Target>, k: i16) -> Loaded {
    if 1 <= k <= cst.len() && !is_null(cst[k - 1].expr) {
        if cst[k - 1].expr.head is Var {
            Loaded { cols: add_col(l.cols, (k - 1) as i32), synth: l.synth }
        } else {
            Loaded { cols: l.cols, synth: add_col(l.synth, (k - 1) as i32) }
        }
    } else {
        l
    }
}

/// What position `p` of a scan's target list reads of the scan's tuple.
pub open spec fn tuple_entry(tlist: Seq<Target>, p: i16) -> Option<i16> {
    if 1 <= p <= tlist.len() {
        match tlist[p - 1].expr.head {
            Head::Var(v) => if v.varno == INDEX_VAR {
                Some(v.varattno)
            } else {
                None
            },
            _ => None,
        }
    } else {
        None
    }
}

/// What the first `n` of the positions `refs` of a scan's target list need.
pub open spec fn load_refs(
    cst: Seq<Target>,
    tlist: Seq<Target>,
    refs: Seq<i16>,
    n: int,
) -> Loaded
    decreases n,
{
    if n <= 0 {
        nothing_loaded()
    } else {
        let before = load_refs(cst, tlist, refs, n - 1);
        match tuple_entry(tlist, refs[n - 1]) {
            Some(k) => load_entry(before, cst, k),
            None => before,
        }
    }
}

/// `l` with the first `n` of the entries `ks`.
pub open spec fn load_entries(l: Loaded, cst: Seq<Target>, ks: Seq<i16>, n: int) -> Loaded
    decreases n,
{
    if n <= 0 {
        l
    } else {
        load_entry(load_entries(l, cst, ks, n - 1), cst, ks[n - 1])
    }
}

pub open spec fn is_attno(t: Target, attno: i16) -> bool {
    match t.expr.head {
        Head::Var(v) => v.varattno == attno,
        _ => false,
    }
}

/// `l` with the first `n` of the relation's columns `attnos`.
pub open spec fn load_attnos(l: Loaded, cst: Seq<Target>, attnos: Seq<i16>, n: int) -> Loaded
    decreases n,
{
    if n <= 0 {
        l
    } else {
        let before = load_attnos(l, cst, attnos, n - 1);
        match first_where(cst, |t: Target| is_attno(t, attnos[n - 1])) {
            Some(i) => Loaded { cols: add_col(before.cols, i as i32), synth: before.synth },
            None => before,
        }
    }
}

/// What a scan loads, where the positions `refs` of its target list are read:
/// what those need and what its own filter reads.
pub open spec fn loaded(p: PlanTree, refs: Seq<i16>) -> Loaded {
    let cst = p.custom_scan_tlist;
    let vars = list_vars(p.qual, p.qual.len() as int);
    let index = add_refs(Seq::empty(), vars, RefKind::Index, vars.len() as int);
    let attnos = add_refs(Seq::empty(), vars, RefKind::Relation, vars.len() as int);
    let for_refs = load_refs(cst, p.targetlist, refs, refs.len() as int);
    let for_index = load_entries(for_refs, cst, index, index.len() as int);
    load_attnos(for_index, cst, attnos, attnos.len() as int)
}

/// The part of a scan description that follows its column list: the sort limit,
/// if it has one, up to the list of extracted columns.
pub open spec fn limit_section(rest: Seq<i32>) -> Seq<i32> {
    match first_where(rest, |v: i32| v == -2 || v == -3) {
        Some(j) => if rest[j] == -2 {
            let payload = rest.subrange(j + 1, rest.len() as int);
            match first_where(payload, |v: i32| v == -3) {
                Some(e) => seq![-2i32] + payload.subrange(0, e),
                None => seq![-2i32] + payload,
            }
        } else {
            Seq::empty()
        },
        None => Seq::empty(),
    }
}

/// A scan description `[tables.., -1, columns.., (-2, limit..)?, (-3, extracted..)?]`
/// with its two column lists replaced.
pub open spec fn with_columns(private: Seq<i32>, l: Loaded) -> Seq<i32> {
    let head = match first_where(private, |v: i32| v == -1) {
        Some(i) => private.subrange(0, i + 1) + l.cols + limit_section(
            private.subrange(i + 1, private.len() as int),
        ),
        None => private,
    };
    if l.synth.len() > 0 {
        head + seq![-3i32] + l.synth
    } else {
        head
    }
}

/// Whether a scan was rewritten to serve extracted columns.
pub open spec fn is_touched(p: PlanTree) -> bool {
    p.custom_scan_tlist.len() > 0 && is_row_scan(p.scan_name)
}

/// The description of a custom scan whose positions `refs` are read.
pub open spec fn private_for(p: PlanTree, refs: Seq<i16>) -> Seq<i32> {
    if is_touched(p) && p.targetlist.len() > 0 {
        with_columns(p.custom_private, loaded(p, refs))
    } else {
        p.custom_private
    }
}

/// All positions of a list of length `n`.
pub open spec fn all_positions(n: nat) -> Seq<i16> {
    Seq::new(n, |i: int| (i + 1) as i16)
}

/// A plan of which the positions `refs` are read.
pub open spec fn pruned(p: PlanTree, refs: Seq<i16>) -> PlanTree
    decreases p,
{
    if p.kind == PlanKind::CustomScan {
        PlanTree { custom_private: private_for(p, refs), ..p }
    } else {
        PlanTree {
            left: match p.left {
                Some(b) => Some(Box::new(pruned(*b, child_refs(p, refs)))),
                None => None,
            },
            right: match p.right {
                Some(b) => Some(Box::new(kept(*b))),
                None => None,
            },
            children: if is_append(p.kind) {
                Seq::new(
                    p.children.len(),
                    |i: int|
                        if 0 <= i < p.children.len() {
                            pruned(p.children[i], child_refs(p, refs))
                        } else {
                            arbitrary()
                        },
                )
            } else {
                p.children
            },
            ..p
        }
    }
}

/// A plan of which every position may be read.
pub open spec fn kept(p: PlanTree) -> PlanTree
    decreases p,
{
    if p.kind == PlanKind::CustomScan {
        PlanTree { custom_private: private_for(p, all_positions(p.targetlist.len())), ..p }
    } else {
        PlanTree {
            left: match p.left {
                Some(b) => Some(Box::new(kept(*b))),
                None => None,
            },
            right: match p.right {
                Some(b) => Some(Box::new(kept(*b))),
                None => None,
            },
            children: if is_append(p.kind) {
                Seq::new(
                    p.children.len(),
                    |i: int|
                        if 0 <= i < p.children.len() {
                            kept(p.children[i])
                        } else {
                            arbitrary()
                        },
                )
            } else {
                p.children
            },
            ..p
        }
    }
}

fn push_col(out: &mut Vec<i32>, c: i32)
    ensures
        final(out)@ == add_col(old(out)@, c),
{
    let mut i: usize = 0;
    while i < out.len()
        invariant
            i <= out.len(),
            out@ == old(out)@,
            forall|j: int| 0 <= j < i ==> out@[j] != c,
        decreases out.len() - i,
    {
        if out[i] == c {
            assert(out@.contains(c));
            return ;
        }
        i += 1;
    }
    out.push(c);
}

/// Loads entry number `k` of the tuple.
fn push_entry(cols: &mut Vec<i32>, synth: &mut Vec<i32>, cstlist: &Vec<TargetEntry>, k: i16)
    ensures
        (Loaded { cols: final(cols)@, synth: final(synth)@ }) == load_entry(
            Loaded { cols: old(cols)@, synth: old(synth)@ },
            targets(cstlist@),
            k,
        ),
{
    broadcast use group_node;

    if k >= 1 && k as usize <= cstlist.len() {
        let e = &cstlist[k as usize - 1].expr;
        assert(targets(cstlist@)[k - 1] == cstlist@[k - 1].view());
        if e.is_null() {
            return ;
        }
        if matches!(e.head, Head::Var(_)) {
            push_col(cols, k as i32 - 1);
        } else {
            push_col(synth, k as i32 - 1);
        }
    }
}

/// What a scan loads: indices of relation columns and of extracted columns.
fn scan_columns(
    cstlist: &Vec<TargetEntry>,
    tlist: &Vec<TargetEntry>,
    qual: &Vec<Node>,
    referenced: &Vec<i16>,
    Ghost(p): Ghost<PlanTree>,
) -> (r: (Vec<i32>, Vec<i32>))
    requires
        p.custom_scan_tlist == targets(cstlist@),
        p.targetlist == targets(tlist@),
        p.qual == exprs(qual@),
    ensures
        (Loaded { cols: r.0@, synth: r.1@ }) == loaded(p, referenced@),
{
    broadcast use group_node;

    let ghost cst = targets(cstlist@);
    let mut cols: Vec<i32> = Vec::new();
    let mut synth: Vec<i32> = Vec::new();
    let mut i: usize = 0;
    while i < referenced.len()
        invariant
            i <= referenced.len(),
            cst == targets(cstlist@),
            p.targetlist == targets(tlist@),
            (Loaded { cols: cols@, synth: synth@ }) == load_refs(
                cst,
                p.targetlist,
                referenced@,
                i as int,
            ),
        decreases referenced.len() - i,
    {
        let at: i16 = referenced[i];
        if at >= 1 && at as usize <= tlist.len() {
            assert(p.targetlist[at - 1] == tlist@[at - 1].view());
            if let Head::Var(v) = &tlist[at as usize - 1].expr.head {
                if v.varno == INDEX_VAR {
                    push_entry(&mut cols, &mut synth, cstlist, v.varattno);
                }
            }
        }
        i += 1;
    }
    let mut vars: Vec<Var> = Vec::new();
    pull_list_vars(qual, &mut vars);
    assert(vars@ =~= list_vars(p.qual, p.qual.len() as int));
    let mut index: Vec<i16> = Vec::new();
    push_refs(&mut index, &vars, RefKind::Index);
    let mut attnos: Vec<i16> = Vec::new();
    push_refs(&mut attnos, &vars, RefKind::Relation);
    let ghost for_refs = Loaded { cols: cols@, synth: synth@ };
    let mut j: usize = 0;
    while j < index.len()
        invariant
            j <= index.len(),
            cst == targets(cstlist@),
            (Loaded { cols: cols@, synth: synth@ }) == load_entries(
                for_refs,
                cst,
                index@,
                j as int,
            ),
        decreases index.len() - j,
    {
        push_entry(&mut cols, &mut synth, cstlist, index[j]);
        j += 1;
    }
    let ghost for_index = Loaded { cols: cols@, synth: synth@ };
    let mut m: usize = 0;
    while m < attnos.len()
        invariant
            m <= attnos.len(),
            cst == targets(cstlist@),
            (Loaded { cols: cols@, synth: synth@ }) == load_attnos(
                for_index,
                cst,
                attnos@,
                m as int,
            ),
        decreases attnos.len() - m,
    {
        let attno: i16 = attnos[m];
        if let Some(c) = find_attno(cstlist, attno) {
            let idx: i32 = #[verifier::truncate]
            (c as i32);
            push_col(&mut cols, idx);
        }
        m += 1;
    }
    (cols, synth)
}

/// The entry of a scan's tuple that is column `attno` of the relation.
fn find_attno(cstlist: &Vec<TargetEntry>, attno: i16) -> (r: Option<usize>)
    ensures
        match r {
            Some(i) => first_where(targets(cstlist@), |t: Target| is_attno(t, attno)) == Some(
                i as int,
            ),
            None => first_where(targets(cstlist@), |t: Target| is_attno(t, attno)) is None,
        },
{
    broadcast use group_node;

    let ghost cst = targets(cstlist@);
    let ghost p = |t: Target| is_attno(t, attno);
    let mut i: usize = 0;
    while i < cstlist.len()
        invariant
            i <= cstlist.len(),
            cst == targets(cstlist@),
            p == (|t: Target| is_attno(t, attno)),
            forall|j: int| 0 <= j < i ==> !p(#[trigger] cst[j]),
        decreases cstlist.len() - i,
    {
        assert(cst[i as int] == cstlist@[i as int].view());
        if let Head::Var(v) = &cstlist[i].expr.head {
            if v.varattno == attno {
                proof {
                    lemma_first_is(cst, p, i as int);
                }
                return Some(i);
            }
        }
        i += 1;
    }
    proof {
        lemma_first_none(cst, p);
    }
    None
}

/// Index of the first of two values from `from` on.
fn find_value(list: &Vec<i32>, from: usize, a: i32, b: i32) -> (r: Option<usize>)
    requires
        from <= list.len(),
    ensures
        match r {
            Some(i) => from <= i < list.len() && (list@[i as int] == a || list@[i as int] == b)
                && forall|j: int| from <= j < i ==> list@[j] != a && list@[j] != b,
            None => forall|j: int| from <= j < list@.len() ==> list@[j] != a && list@[j] != b,
        },
{
    let mut i: usize = from;
    while i < list.len()
        invariant
            from <= i <= list.len(),
            forall|j: int| from <= j < i ==> list@[j] != a && list@[j] != b,
        decreases list.len() - i,
    {
        if list[i] == a || list[i] == b {
            return Some(i);
        }
        i += 1;
    }
    None
}

/// Appends `list[from..to]` to `out`.
fn copy_range(out: &mut Vec<i32>, list: &Vec<i32>, from: usize, to: usize)
    requires
        from <= to <= list.len(),
    ensures
        final(out)@ == old(out)@ + list@.subrange(from as int, to as int),
{
    let ghost base = out@;
    let mut i: usize = from;
    assert(out@ =~= base + list@.subrange(from as int, i as int));
    while i < to
        invariant
            from <= i <= to <= list.len(),
            out@ == base + list@.subrange(from as int, i as int),
        decreases to - i,
    {
        out.push(list[i]);
        i += 1;
        assert(out@ =~= base + list@.subrange(from as int, i as int));
    }
}

/// Replaces the column lists of a scan description.
fn replace_columns(private: &Vec<i32>, cols: &Vec<i32>, synth: &Vec<i32>) -> (r: Vec<i32>)
    ensures
        r@ == with_columns(private@, Loaded { cols: cols@, synth: synth@ }),
{
    let ghost is_sep = |v: i32| v == -1;
    let ghost is_mark = |v: i32| v == -2 || v == -3;
    let ghost is_end = |v: i32| v == -3;
    let mut out: Vec<i32> = Vec::new();
    let n: usize = private.len();
    match find_value(private, 0, -1, -1) {
        None => {
            proof {
                lemma_first_none(private@, is_sep);
            }
            copy_range(&mut out, private, 0, n);
            assert(out@ =~= private@);
        },
        Some(i) => {
            proof {
                lemma_first_is(private@, is_sep, i as int);
            }
            let ghost rest = private@.subrange(i + 1, n as int);
            copy_range(&mut out, private, 0, i + 1);
            copy_range(&mut out, cols, 0, cols.len());
            let ghost head = private@.subrange(0, i + 1) + cols@;
            assert(out@ =~= head);
            match find_value(private, i + 1, -2, -3) {
                None => {
                    assert forall|j: int| 0 <= j < rest.len() implies !is_mark(rest[j]) by {
                        assert(rest[j] == private@[i + 1 + j]);
                    }
                    proof {
                        lemma_first_none(rest, is_mark);
                    }
                    assert(out@ =~= head + limit_section(rest));
                },
                Some(j) => {
                    assert forall|k: int| 0 <= k < j - i - 1 implies !is_mark(rest[k]) by {
                        assert(rest[k] == private@[i + 1 + k]);
                    }
                    assert(rest[j - i - 1] == private@[j as int]);
                    proof {
                        lemma_first_is(rest, is_mark, j - i - 1);
                    }
                    if private[j] == -2 {
                        let ghost payload = rest.subrange(j - i, rest.len() as int);
                        assert(payload =~= private@.subrange(j + 1, n as int));
                        out.push(-2);
                        let end: usize = match find_value(private, j + 1, -3, -3) {
                            Some(e) => {
                                assert forall|k: int| 0 <= k < e - j - 1 implies !is_end(
                                    payload[k],
                                ) by {
                                    assert(payload[k] == private@[j + 1 + k]);
                                }
                                assert(payload[e - j - 1] == private@[e as int]);
                                proof {
                                    lemma_first_is(payload, is_end, e - j - 1);
                                }
                                assert(payload.subrange(0, e - j - 1) =~= private@.subrange(
                                    j + 1,
                                    e as int,
                                ));
                                e
                            },
                            None => {
                                assert forall|k: int| 0 <= k < payload.len() implies !is_end(
                                    payload[k],
                                ) by {
                                    assert(payload[k] == private@[j + 1 + k]);
                                }
                                proof {
                                    lemma_first_none(payload, is_end);
                                }
                                n
                            },
                        };
                        copy_range(&mut out, private, j + 1, end);
                        assert(out@ =~= head + limit_section(rest));
                    } else {
                        assert(out@ =~= head + limit_section(rest));
                    }
                },
            }
        },
    }
    if synth.len() > 0 {
        let ghost base = out@;
        out.push(-3);
        copy_range(&mut out, synth, 0, synth.len());
        assert(out@ =~= base + seq![-3i32] + synth@);
    }
    out
}

/// Rewrites the description of a custom scan so that it loads what the
/// positions `referenced` of its target list and its own filter read.
pub fn rebuild_cscan_custom_private(plan: Plan, referenced: &Vec<i16>) -> (r: Plan)
    ensures
        r.view() == (PlanTree {
            custom_private: private_for(plan.view(), referenced@),
            ..plan.view()
        }),
{
    broadcast use lemma_plan_view;

    let ghost tree = plan.view();
    let row_scan = plan.scan_name == ScanName::Decompress || plan.scan_name == ScanName::Append;
    if plan.custom_scan_tlist.len() == 0 || !row_scan || plan.targetlist.len() == 0 {
        return plan;
    }
    let (cols, synth) = scan_columns(
        &plan.custom_scan_tlist,
        &plan.targetlist,
        &plan.qual,
        referenced,
        Ghost(tree),
    );
    let custom_private = replace_columns(&plan.custom_private, &cols, &synth);
    let q = Plan {
        ident: plan.ident,
        kind: plan.kind,
        targetlist: plan.targetlist,
        qual: plan.qual,
        run_condition: plan.run_condition,
        key_cols: plan.key_cols,
        lefttree: plan.lefttree,
        righttree: plan.righttree,
        children: plan.children,
        scan_name: plan.scan_name,
        scanrelid: plan.scanrelid,
        custom_private,
        custom_scan_tlist: plan.custom_scan_tlist,
    };
    assert(q.view().children =~= tree.children);
    q
}

/// The positions `1..=n`.
fn positions(n: usize) -> (r: Vec<i16>)
    ensures
        r@ == all_positions(n as nat),
{
    let mut out: Vec<i16> = Vec::new();
    let mut i: usize = 0;
    while i < n
        invariant
            i <= n,
            out@ == all_positions(i as nat),
        decreases n - i,
    {
        let p: i16 = #[verifier::truncate]
        ((i as u128 + 1) as i16);
        out.push(p);
        i += 1;
        assert(out@ =~= all_positions(i as nat));
    }
    out
}

/// What a plan reads of its child, where its positions `refs` are read.
fn read_of_child(plan: &Plan, refs: &Vec<i16>) -> (r: Vec<i16>)
    ensures
        r@ == child_refs(plan.view(), refs@),
{
    broadcast use {group_node, lemma_plan_view};

    let ghost tree = plan.view();
    let mut at: Vec<i16> = Vec::new();
    let mut i: usize = 0;
    while i < refs.len()
        invariant
            i <= refs.len(),
            at@ == refs@.subrange(0, i as int),
        decreases refs.len() - i,
    {
        at.push(refs[i]);
        i += 1;
        assert(at@ =~= refs@.subrange(0, i as int));
    }
    assert(at@ =~= refs@);
    let mut k: usize = 0;
    while k < plan.key_cols.len()
        invariant
            k <= plan.key_cols.len(),
            at@ == add_all(refs@, plan.key_cols@, k as int),
        decreases plan.key_cols.len() - k,
    {
        push_pos(&mut at, plan.key_cols[k]);
        k += 1;
    }
    let mut out: Vec<i16> = Vec::new();
    let mut m: usize = 0;
    while m < at.len()
        invariant
            m <= at.len(),
            tree.targetlist == targets(plan.targetlist@),
            out@ == read_by_entries(tree.targetlist, at@, m as int),
        decreases at.len() - m,
    {
        let p: i16 = at[m];
        if p >= 1 && p as usize <= plan.targetlist.len() {
            assert(tree.targetlist[p - 1] == plan.targetlist@[p - 1].view());
            let mut vars: Vec<Var> = Vec::new();
            pull_vars(&plan.targetlist[p as usize - 1].expr, &mut vars);
            assert(vars@ =~= vars_of(tree.targetlist[p - 1].expr));
            push_refs(&mut out, &vars, RefKind::Outer);
        }
        m += 1;
    }
    let mut qual_vars: Vec<Var> = Vec::new();
    pull_list_vars(&plan.qual, &mut qual_vars);
    assert(qual_vars@ =~= list_vars(tree.qual, tree.qual.len() as int));
    push_refs(&mut out, &qual_vars, RefKind::Outer);
    if plan.kind == PlanKind::WindowAgg {
        let mut run_vars: Vec<Var> = Vec::new();
        pull_list_vars(&plan.run_condition, &mut run_vars);
        assert(run_vars@ =~= list_vars(tree.run_condition, tree.run_condition.len() as int));
        push_refs(&mut out, &run_vars, RefKind::Outer);
    }
    out
}

/// Tells every rewritten scan below `plan` what to load; every position of
/// every plan may be read.
fn descend_for_refs_conservative(plan: Plan) -> (r: Plan)
    ensures
        r.view() == kept(plan.view()),
    decreases plan,
{
    broadcast use lemma_plan_view;

    let ghost tree = plan.view();
    if plan.kind == PlanKind::CustomScan {
        let all = positions(plan.targetlist.len());
        return rebuild_cscan_custom_private(plan, &all);
    }
    let lefttree = match plan.lefttree {
        Some(b) => Some(Box::new(descend_for_refs_conservative(*b))),
        None => None,
    };
    let righttree = match plan.righttree {
        Some(b) => Some(Box::new(descend_for_refs_conservative(*b))),
        None => None,
    };
    let mut children = plan.children;
    if plan.kind == PlanKind::Append || plan.kind == PlanKind::MergeAppend {
        let ghost all = plan.children;
        let mut done: Vec<Plan> = Vec::new();
        let mut rest: Vec<Plan> = children;
        assert(rest@ =~= all@.subrange(0, all@.len() as int));
        while rest.len() > 0
            invariant
                done@.len() + rest@.len() == all@.len(),
                rest@ == all@.subrange(done@.len() as int, all@.len() as int),
                all == plan.children,
                forall|j: int|
                    0 <= j < done@.len() ==> (#[trigger] done@[j]).view() == kept(all@[j].view()),
            decreases rest.len(),
        {
            let child = rest.remove(0);
            assert(child == all@[done@.len() as int]);
            let q = descend_for_refs_conservative(child);
            done.push(q);
            assert(rest@ =~= all@.subrange(done@.len() as int, all@.len() as int));
        }
        assert forall|j: int| 0 <= j < tree.children.len() implies trees(done@)[j] == #[trigger] kept(
            tree,
        ).children[j] by {
            assert(done@[j].view() == kept(all@[j].view()));
        }
        assert(trees(done@) =~= kept(tree).children);
        children = done;
    }
    let q = Plan {
        ident: plan.ident,
        kind: plan.kind,
        targetlist: plan.targetlist,
        qual: plan.qual,
        run_condition: plan.run_condition,
        key_cols: plan.key_cols,
        lefttree,
        righttree,
        children,
        scan_name: plan.scan_name,
        scanrelid: plan.scanrelid,
        custom_private: plan.custom_private,
        custom_scan_tlist: plan.custom_scan_tlist,
    };
    assert(q.view().children == trees(q.children@));
    q
}

/// Tells every rewritten scan below `plan` what to load, where the positions
/// `my_refs` of the plan's target list are read.
pub fn descend_for_refs(plan: Plan, my_refs: &Vec<i16>) -> (r: Plan)
    ensures
        r.view() == pruned(plan.view(), my_refs@),
    decreases plan,
{
    broadcast use lemma_plan_view;

    let ghost tree = plan.view();
    if plan.kind == PlanKind::CustomScan {
        return rebuild_cscan_custom_private(plan, my_refs);
    }
    let refs = read_of_child(&plan, my_refs);
    let lefttree = match plan.lefttree {
        Some(b) => Some(Box::new(descend_for_refs(*b, &refs))),
        None => None,
    };
    let righttree = match plan.righttree {
        Some(b) => Some(Box::new(descend_for_refs_conservative(*b))),
        None => None,
    };
    let mut children = plan.children;
    if plan.kind == PlanKind::Append || plan.kind == PlanKind::MergeAppend {
        let ghost all = plan.children;
        let mut done: Vec<Plan> = Vec::new();
        let mut rest: Vec<Plan> = children;
        assert(rest@ =~= all@.subrange(0, all@.len() as int));
        while rest.len() > 0
            invariant
                done@.len() + rest@.len() == all@.len(),
                rest@ == all@.subrange(done@.len() as int, all@.len() as int),
                all == plan.children,
                forall|j: int|
                    0 <= j < done@.len() ==> (#[trigger] done@[j]).view() == pruned(
                        all@[j].view(),
                        refs@,
                    ),
            decreases rest.len(),
        {
            let child = rest.remove(0);
            assert(child == all@[done@.len() as int]);
            let q = descend_for_refs(child, &refs);
            done.push(q);
            assert(rest@ =~= all@.subrange(done@.len() as int, all@.len() as int));
        }
        assert forall|j: int| 0 <= j < tree.children.len() implies trees(done@)[j] == #[trigger] pruned(
            tree,
            my_refs@,
        ).children[j] by {
            assert(done@[j].view() == pruned(all@[j].view(), refs@));
        }
        assert(trees(done@) =~= pruned(tree, my_refs@).children);
        children = done;
    }
    let q = Plan {
        ident: plan.ident,
        kind: plan.kind,
        targetlist: plan.targetlist,
        qual: plan.qual,
        run_condition: plan.run_condition,
        key_cols: plan.key_cols,
        lefttree,
        righttree,
        children,
        scan_name: plan.scan_name,
        scanrelid: plan.scanrelid,
        custom_private: plan.custom_private,
        custom_scan_tlist: plan.custom_scan_tlist,
    };
    assert(q.view().children == trees(q.children@));
    q
}

/// Tells every rewritten scan of a plan what to load; the plan's own output is
/// read in full.
pub fn prune_cscans_by_ref_count(root: Plan) -> (r: Plan)
    ensures
        r.view() == pruned(root.view(), all_positions(root.view().targetlist.len())),
{
    let all = positions(root.targetlist.len());
    assert(root.view().targetlist.len() == root.targetlist@.len());
    descend_for_refs(root, &all)
}

// ---------------------------------------------------------------------------
// Nothing that is read is left out
// ---------------------------------------------------------------------------

/// Whether entry number `k` of a tuple is loaded.
pub open spec fn is_loaded(l: Loaded, k: i16) -> bool {
    l.cols.contains((k - 1) as i32) || l.synth.contains((k - 1) as i32)
}

/// What is loaded stays loaded as more is added.
pub open spec fn at_least(l: Loaded, m: Loaded) -> bool {
    &&& forall|c: i32| #[trigger] l.cols.contains(c) ==> m.cols.contains(c)
    &&& forall|c: i32| #[trigger] l.synth.contains(c) ==> m.synth.contains(c)
}

proof fn lemma_add_col(s: Seq<i32>, c: i32)
    ensures
        add_col(s, c).contains(c),
        forall|d: i32| #[trigger] s.contains(d) ==> add_col(s, c).contains(d),
        s.no_duplicates() ==> add_col(s, c).no_duplicates(),
{
    if !s.contains(c) {
        assert(s.push(c)[s.len() as int] == c);
        assert forall|d: i32| #[trigger] s.contains(d) implies s.push(c).contains(d) by {
            let i = choose|i: int| 0 <= i < s.len() && s[i] == d;
            assert(s.push(c)[i] == d);
        }
    }
}

proof fn lemma_load_entry(l: Loaded, cst: Seq<Target>, k: i16)
    ensures
        at_least(l, load_entry(l, cst, k)),
        1 <= k <= cst.len() && !is_null(cst[k - 1].expr) ==> is_loaded(load_entry(l, cst, k), k),
{
    lemma_add_col(l.cols, (k - 1) as i32);
    lemma_add_col(l.synth, (k - 1) as i32);
}

proof fn lemma_load_refs(cst: Seq<Target>, tlist: Seq<Target>, refs: Seq<i16>, n: int, j: int)
    requires
        0 <= j < n <= refs.len(),
        tuple_entry(tlist, refs[j]) matches Some(k) && 1 <= k <= cst.len() && !is_null(
            cst[k - 1].expr,
        ),
    ensures
        is_loaded(load_refs(cst, tlist, refs, n), tuple_entry(tlist, refs[j])->0),
    decreases n,
{
    let before = load_refs(cst, tlist, refs, n - 1);
    match tuple_entry(tlist, refs[n - 1]) {
        Some(k) => lemma_load_entry(before, cst, k),
        None => {},
    }
    if j < n - 1 {
        lemma_load_refs(cst, tlist, refs, n - 1, j);
    }
}

proof fn lemma_load_entries(l: Loaded, cst: Seq<Target>, ks: Seq<i16>, n: int)
    ensures
        at_least(l, load_entries(l, cst, ks, n)),
    decreases n,
{
    if n > 0 {
        lemma_load_entries(l, cst, ks, n - 1);
        lemma_load_entry(load_entries(l, cst, ks, n - 1), cst, ks[n - 1]);
    }
}

proof fn lemma_load_attnos(l: Loaded, cst: Seq<Target>, attnos: Seq<i16>, n: int)
    ensures
        at_least(l, load_attnos(l, cst, attnos, n)),
    decreases n,
{
    if n > 0 {
        lemma_load_attnos(l, cst, attnos, n - 1);
        let before = load_attnos(l, cst, attnos, n - 1);
        match first_where(cst, |t: Target| is_attno(t, attnos[n - 1])) {
            Some(i) => lemma_add_col(before.cols, i as i32),
            None => {},
        }
    }
}

/// Every entry of a scan's tuple that a position read from above refers to is
/// loaded.
pub proof fn lemma_read_positions_are_loaded(p: PlanTree, refs: Seq<i16>, j: int)
    requires
        0 <= j < refs.len(),
        tuple_entry(p.targetlist, refs[j]) matches Some(k) && 1 <= k <= p.custom_scan_tlist.len()
            && !is_null(p.custom_scan_tlist[k - 1].expr),
    ensures
        is_loaded(loaded(p, refs), tuple_entry(p.targetlist, refs[j])->0),
{
    let cst = p.custom_scan_tlist;
    let vars = list_vars(p.qual, p.qual.len() as int);
    let index = add_refs(Seq::empty(), vars, RefKind::Index, vars.len() as int);
    let attnos = add_refs(Seq::empty(), vars, RefKind::Relation, vars.len() as int);
    let for_refs = load_refs(cst, p.targetlist, refs, refs.len() as int);
    let for_index = load_entries(for_refs, cst, index, index.len() as int);
    lemma_load_refs(cst, p.targetlist, refs, refs.len() as int, j);
    lemma_load_entries(for_refs, cst, index, index.len() as int);
    lemma_load_attnos(for_index, cst, attnos, attnos.len() as int);
}

proof fn lemma_add_pos(s: Seq<i16>, k: i16)
    ensures
        add_pos(s, k).contains(k),
        forall|d: i16| #[trigger] s.contains(d) ==> add_pos(s, k).contains(d),
{
    if !s.contains(k) {
        assert(s.push(k)[s.len() as int] == k);
        assert forall|d: i16| #[trigger] s.contains(d) implies s.push(k).contains(d) by {
            let i = choose|i: int| 0 <= i < s.len() && s[i] == d;
            assert(s.push(k)[i] == d);
        }
    }
}

proof fn lemma_add_refs(out: Seq<i16>, vars: Seq<Var>, which: RefKind, n: int, j: int)
    requires
        0 <= j < n <= vars.len(),
        of_kind(which, vars[j]),
    ensures
        add_refs(out, vars, which, n).contains(vars[j].varattno),
    decreases n,
{
    let before = add_refs(out, vars, which, n - 1);
    lemma_add_pos(before, vars[n - 1].varattno);
    if j < n - 1 {
        lemma_add_refs(out, vars, which, n - 1, j);
    }
}

/// Every column of the relation that a scan's own filter reads directly is
/// loaded, whatever is read from above.
pub proof fn lemma_filter_columns_are_loaded(p: PlanTree, refs: Seq<i16>, j: int, i: int)
    requires
        ({
            let vars = list_vars(p.qual, p.qual.len() as int);
            &&& 0 <= j < vars.len()
            &&& of_kind(RefKind::Relation, vars[j])
            &&& first_where(
                p.custom_scan_tlist,
                |t: Target| is_attno(t, vars[j].varattno),
            ) == Some(i)
        }),
    ensures
        loaded(p, refs).cols.contains(i as i32),
{
    let cst = p.custom_scan_tlist;
    let vars = list_vars(p.qual, p.qual.len() as int);
    let index = add_refs(Seq::empty(), vars, RefKind::Index, vars.len() as int);
    let attnos = add_refs(Seq::empty(), vars, RefKind::Relation, vars.len() as int);
    let for_refs = load_refs(cst, p.targetlist, refs, refs.len() as int);
    let for_index = load_entries(for_refs, cst, index, index.len() as int);
    lemma_add_refs(Seq::empty(), vars, RefKind::Relation, vars.len() as int, j);
    let m = choose|m: int| 0 <= m < attnos.len() && attnos[m] == vars[j].varattno;
    lemma_load_attno_at(for_index, cst, attnos, attnos.len() as int, m, i);
}

proof fn lemma_load_attno_at(
    l: Loaded,
    cst: Seq<Target>,
    attnos: Seq<i16>,
    n: int,
    m: int,
    i: int,
)
    requires
        0 <= m < n <= attnos.len(),
        first_where(cst, |t: Target| is_attno(t, attnos[m])) == Some(i),
    ensures
        load_attnos(l, cst, attnos, n).cols.contains(i as i32),
    decreases n,
{
    let before = load_attnos(l, cst, attnos, n - 1);
    match first_where(cst, |t: Target| is_attno(t, attnos[n - 1])) {
        Some(k) => lemma_add_col(before.cols, k as i32),
        None => {},
    }
    if m < n - 1 {
        lemma_load_attno_at(l, cst, attnos, n - 1, m, i);
    }
}

} // verus!
