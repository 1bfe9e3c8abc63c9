//! Plan of an aggregate scan: which groupings are computed, what each output
//! column is, and the description that the executor reads.

use vstd::prelude::*;
use crate::pg_types::{INT2OID, INT4OID, INT8OID};
use crate::scan::agg_types::{
    groups_view, Group, GroupByColSpec, GroupByExpr, GroupExpr, HavingFilter, ADD_CONST_CODE,
    MAX_CODE, MIN_CODE,
};
use crate::scan::json_extract::{
    rewrite_chains_in_list, rewritten_list, targets, AggChainCtx, Rule, Target, TargetEntry,
};
use crate::scan::node::{exprs, group_node, is_null, Const, Expr, Head, Node, OpName, Var};
use crate::scan::path::AggTopnInfo;
use crate::scan::wire::{
    append_groups, append_oids_as_ints, append_qual_list_as_bytes, flag, groups_ints, hi32,
    high_half, ints_of, lemma_ints_of_step, lo32, low_half, oid_ints, opt_bytes, qual_ints,
};
use crate::scan::wire_decode::{
    parse_agg_path_private, path_contents, ParsedAgg, PathContents,
};
use crate::search::{first_where, lemma_first_is, lemma_first_none, lemma_first_where};
use crate::text::dup_opt_text;

verus! {

// ---------------------------------------------------------------------------
// Target list
// ---------------------------------------------------------------------------

/// The entries of a target list that are output columns, renumbered; the first
/// `n` entries.
pub open spec fn clean_targets(tlist: Seq<Target>, n: int) -> Seq<Target>
    decreases n,
{
    if n <= 0 {
        Seq::empty()
    } else {
        let before = clean_targets(tlist, n - 1);
        if tlist[n - 1].resjunk {
            before
        } else {
            before.push(Target { resno: (before.len() + 1) as i16, ..tlist[n - 1] })
        }
    }
}

/// The output columns of a target list, renumbered.
pub fn clean_targetlist(tlist: &Vec<TargetEntry>) -> (r: Vec<TargetEntry>)
    ensures
        targets(r@) == clean_targets(targets(tlist@), tlist@.len() as int),
{
    let ghost tl = targets(tlist@);
    let mut out: Vec<TargetEntry> = Vec::new();
    let mut i: usize = 0;
    assert(targets(out@) =~= clean_targets(tl, 0));
    while i < tlist.len()
        invariant
            i <= tlist.len(),
            tl == targets(tlist@),
            targets(out@) == clean_targets(tl, i as int),
        decreases tlist.len() - i,
    {
        let t = &tlist[i];
        assert(tl[i as int] == t.view());
        if !t.resjunk {
            let resno: i16 = #[verifier::truncate]
            ((out.len() as u128 + 1) as i16);
            let entry = TargetEntry {
                expr: t.expr.dup(),
                resno,
                resname: dup_opt_text(&t.resname),
                resjunk: false,
            };
            let ghost before = out@;
            out.push(entry);
            assert(targets(out@) =~= targets(before).push(entry.view()));
        }
        i += 1;
    }
    out
}

// ---------------------------------------------------------------------------
// Redundant groupings
// ---------------------------------------------------------------------------

/// A grouping by a column, or by a column plus a constant.
pub open spec fn is_shifted(g: Group) -> bool {
    g.expr is Column || g.expr is AddConst
}

/// The constant that is added to the column.
pub open spec fn shift_of(g: Group) -> int {
    match g.expr {
        GroupExpr::AddConst { offset, .. } => offset as int,
        _ => 0,
    }
}

/// The grouping from which the others by the same column are derived: the first
/// one by the bare column, else the first one.
pub open spec fn base_of(groups: Seq<Group>, col: i32) -> Option<int> {
    match first_where(groups, |g: Group| g.col_idx == col && g.expr is Column) {
        Some(i) => Some(i),
        None => first_where(groups, |g: Group| g.col_idx == col && is_shifted(g)),
    }
}

/// Whether grouping `i` follows from another one.
pub open spec fn is_redundant(groups: Seq<Group>, i: int) -> bool {
    is_shifted(groups[i]) && base_of(groups, groups[i].col_idx) != Some(i)
}

/// The groupings that do not follow from another one; among the first `n`.
pub open spec fn kept_groups(groups: Seq<Group>, n: int) -> Seq<Group>
    decreases n,
{
    if n <= 0 {
        Seq::empty()
    } else if is_redundant(groups, n - 1) {
        kept_groups(groups, n - 1)
    } else {
        kept_groups(groups, n - 1).push(groups[n - 1])
    }
}

/// A grouping that is not computed: its column, the constant added to it, the
/// grouping it is derived from, and what to add to that one.
#[derive(Clone, Copy, Debug, PartialEq, Eq, Structural)]
pub struct EliminatedSpec {
    pub col_idx: i32,
    pub offset: i32,
    pub base_new_idx: usize,
    pub delta: i64,
}

/// How the redundant grouping `i` is derived.
pub open spec fn derivation(groups: Seq<Group>, i: int) -> EliminatedSpec {
    let base = base_of(groups, groups[i].col_idx)->0;
    EliminatedSpec {
        col_idx: groups[i].col_idx,
        offset: shift_of(groups[i]) as i32,
        base_new_idx: kept_groups(groups, base).len() as usize,
        delta: (shift_of(groups[i]) - shift_of(groups[base])) as i64,
    }
}

/// The derivations of the redundant groupings among the first `n`.
pub open spec fn derivations(groups: Seq<Group>, n: int) -> Seq<EliminatedSpec>
    decreases n,
{
    if n <= 0 {
        Seq::empty()
    } else if is_redundant(groups, n - 1) {
        derivations(groups, n - 1).push(derivation(groups, n - 1))
    } else {
        derivations(groups, n - 1)
    }
}

proof fn lemma_base(groups: Seq<Group>, i: int)
    requires
        0 <= i < groups.len(),
        is_shifted(groups[i]),
    ensures
        base_of(groups, groups[i].col_idx) matches Some(b) && 0 <= b < groups.len() && is_shifted(
            groups[b],
        ) && groups[b].col_idx == groups[i].col_idx && !is_redundant(groups, b),
{
    let col = groups[i].col_idx;
    let p = |g: Group| g.col_idx == col && g.expr is Column;
    let q = |g: Group| g.col_idx == col && is_shifted(g);
    lemma_first_where(groups, p);
    lemma_first_where(groups, q);
    assert(q(groups[i]));
}

proof fn lemma_kept_len(groups: Seq<Group>, m: int, n: int)
    requires
        0 <= m <= n <= groups.len(),
    ensures
        kept_groups(groups, m).len() <= kept_groups(groups, n).len() <= n,
        kept_groups(groups, m) == kept_groups(groups, n).subrange(
            0,
            kept_groups(groups, m).len() as int,
        ),
    decreases n,
{
    if m < n {
        lemma_kept_len(groups, m, n - 1);
        let k = kept_groups(groups, m).len() as int;
        assert(kept_groups(groups, n).subrange(0, k) =~= kept_groups(groups, n - 1).subrange(0, k));
    } else {
        if n > 0 {
            lemma_kept_len(groups, n - 1, n - 1);
        }
        assert(kept_groups(groups, n).subrange(0, kept_groups(groups, n).len() as int)
            =~= kept_groups(groups, n));
    }
}

/// A redundant grouping is its base plus the difference, and the base is
/// computed.
pub proof fn lemma_derivation(groups: Seq<Group>, i: int)
    requires
        0 <= i < groups.len(),
        groups.len() <= usize::MAX,
        is_redundant(groups, i),
    ensures
        ({
            let d = derivation(groups, i);
            let kept = kept_groups(groups, groups.len() as int);
            &&& d.base_new_idx < kept.len()
            &&& is_shifted(kept[d.base_new_idx as int])
            &&& kept[d.base_new_idx as int].col_idx == groups[i].col_idx
            &&& shift_of(kept[d.base_new_idx as int]) + d.delta == shift_of(groups[i])
        }),
{
    lemma_base(groups, i);
    let base = base_of(groups, groups[i].col_idx)->0;
    let n = groups.len() as int;
    lemma_kept_len(groups, base, base + 1);
    lemma_kept_len(groups, base + 1, n);
    lemma_kept_len(groups, base, n);
    let k = kept_groups(groups, base).len() as int;
    assert(kept_groups(groups, base + 1)[k] == groups[base]);
    assert(kept_groups(groups, n).subrange(0, k + 1)[k] == groups[base]);
}

/// After elimination no two computed groupings are by the same column, apart
/// from functions and CASE expressions.
pub proof fn lemma_kept_distinct(groups: Seq<Group>, i: int, j: int)
    requires
        0 <= i < j < groups.len(),
        is_shifted(groups[i]),
        is_shifted(groups[j]),
        groups[i].col_idx == groups[j].col_idx,
    ensures
        is_redundant(groups, i) || is_redundant(groups, j),
{
    lemma_base(groups, i);
}

fn shifted(g: &GroupByColSpec) -> (r: bool)
    ensures
        r == is_shifted(g.view()),
{
    matches!(g.expr, GroupByExpr::Column | GroupByExpr::AddConst { .. })
}

fn shift(g: &GroupByColSpec) -> (r: i32)
    ensures
        r == shift_of(g.view()),
{
    match &g.expr {
        GroupByExpr::AddConst { offset, .. } => *offset,
        _ => 0,
    }
}

/// Position of the base of the groupings by `col`.
fn find_base(groups: &Vec<GroupByColSpec>, col: i32) -> (r: Option<usize>)
    ensures
        match r {
            Some(i) => base_of(groups_view(groups@), col) == Some(i as int) && i < groups.len(),
            None => base_of(groups_view(groups@), col) is None,
        },
{
    let ghost gs = groups_view(groups@);
    let ghost p = |g: Group| g.col_idx == col && g.expr is Column;
    let ghost q = |g: Group| g.col_idx == col && is_shifted(g);
    let mut first: Option<usize> = None;
    let mut i: usize = 0;
    while i < groups.len()
        invariant
            i <= groups.len(),
            gs == groups_view(groups@),
            p == (|g: Group| g.col_idx == col && g.expr is Column),
            q == (|g: Group| g.col_idx == col && is_shifted(g)),
            forall|j: int| 0 <= j < i ==> !p(#[trigger] gs[j]),
            match first {
                Some(f) => f < i && q(gs[f as int]) && forall|j: int|
                    0 <= j < f ==> !q(#[trigger] gs[j]),
                None => forall|j: int| 0 <= j < i ==> !q(#[trigger] gs[j]),
            },
        decreases groups.len() - i,
    {
        assert(gs[i as int] == groups@[i as int].view());
        if groups[i].col_idx == col {
            if matches!(groups[i].expr, GroupByExpr::Column) {
                proof {
                    lemma_first_is(gs, p, i as int);
                }
                return Some(i);
            }
            if first.is_none() && shifted(&groups[i]) {
                first = Some(i);
            }
        }
        i += 1;
    }
    proof {
        lemma_first_none(gs, p);
        match first {
            Some(f) => lemma_first_is(gs, q, f as int),
            None => lemma_first_none(gs, q),
        }
    }
    first
}

/// Whether each grouping follows from another one.
fn redundant_flags(groups: &Vec<GroupByColSpec>) -> (r: Vec<bool>)
    ensures
        r@.len() == groups@.len(),
        forall|i: int|
            0 <= i < groups@.len() ==> #[trigger] r@[i] == is_redundant(groups_view(groups@), i),
{
    let ghost gs = groups_view(groups@);
    let mut out: Vec<bool> = Vec::new();
    let mut i: usize = 0;
    while i < groups.len()
        invariant
            i <= groups.len(),
            gs == groups_view(groups@),
            out@.len() == i,
            forall|j: int| 0 <= j < i ==> #[trigger] out@[j] == is_redundant(gs, j),
        decreases groups.len() - i,
    {
        assert(gs[i as int] == groups@[i as int].view());
        let red = if shifted(&groups[i]) {
            match find_base(groups, groups[i].col_idx) {
                Some(b) => b != i,
                None => true,
            }
        } else {
            false
        };
        out.push(red);
        i += 1;
    }
    out
}

/// Number of groupings before `n` that are computed.
fn rank(flags: &Vec<bool>, n: usize, Ghost(gs): Ghost<Seq<Group>>) -> (r: usize)
    requires
        n <= flags.len(),
        flags@.len() == gs.len(),
        forall|i: int| 0 <= i < gs.len() ==> #[trigger] flags@[i] == is_redundant(gs, i),
    ensures
        r == kept_groups(gs, n as int).len(),
{
    let mut count: usize = 0;
    let mut i: usize = 0;
    while i < n
        invariant
            i <= n <= flags.len(),
            flags@.len() == gs.len(),
            forall|j: int| 0 <= j < gs.len() ==> #[trigger] flags@[j] == is_redundant(gs, j),
            count <= i,
            count == kept_groups(gs, i as int).len(),
        decreases n - i,
    {
        if !flags[i] {
            count += 1;
        }
        i += 1;
    }
    count
}

/// Removes the groupings that follow from another one. Returns the groupings
/// to compute, and how each of the others is derived.
pub fn eliminate_redundant_groups(groups: Vec<GroupByColSpec>) -> (r: (
    Vec<GroupByColSpec>,
    Vec<EliminatedSpec>,
))
    ensures
        groups_view(r.0@) == kept_groups(groups_view(groups@), groups@.len() as int),
        r.1@ == derivations(groups_view(groups@), groups@.len() as int),
{
    let ghost gs = groups_view(groups@);
    let flags = redundant_flags(&groups);
    let mut eliminated: Vec<EliminatedSpec> = Vec::new();
    let mut i: usize = 0;
    while i < groups.len()
        invariant
            i <= groups.len(),
            gs == groups_view(groups@),
            flags@.len() == gs.len(),
            forall|j: int| 0 <= j < gs.len() ==> #[trigger] flags@[j] == is_redundant(gs, j),
            eliminated@ == derivations(gs, i as int),
        decreases groups.len() - i,
    {
        assert(gs[i as int] == groups@[i as int].view());
        if flags[i] {
            proof {
                lemma_base(gs, i as int);
            }
            if let Some(b) = find_base(&groups, groups[i].col_idx) {
                let base_new_idx: usize = rank(&flags, b, Ghost(gs));
                assert(gs[b as int] == groups@[b as int].view());
                let e = EliminatedSpec {
                    col_idx: groups[i].col_idx,
                    offset: shift(&groups[i]),
                    base_new_idx,
                    delta: shift(&groups[i]) as i64 - shift(&groups[b]) as i64,
                };
                assert(e == derivation(gs, i as int));
                eliminated.push(e);
            }
        }
        i += 1;
    }
    let mut kept: Vec<GroupByColSpec> = Vec::new();
    let mut rest = groups;
    let ghost all = groups@;
    let mut k: usize = 0;
    assert(groups_view(kept@) =~= kept_groups(gs, 0));
    assert(rest@ =~= all.subrange(0, all.len() as int));
    while rest.len() > 0
        invariant
            k + rest@.len() == all.len(),
            k <= flags.len(),
            rest@ == all.subrange(k as int, all.len() as int),
            gs == groups_view(all),
            flags@.len() == gs.len(),
            forall|j: int| 0 <= j < gs.len() ==> #[trigger] flags@[j] == is_redundant(gs, j),
            groups_view(kept@) == kept_groups(gs, k as int),
        decreases rest.len(),
    {
        let g = rest.remove(0);
        assert(g == all[k as int]);
        assert(gs[k as int] == g.view());
        if !flags[k] {
            let ghost before = kept@;
            kept.push(g);
            assert(groups_view(kept@) =~= groups_view(before).push(g.view()));
        }
        k += 1;
        assert(rest@ =~= all.subrange(k as int, all.len() as int));
    }
    (kept, eliminated)
}

// ---------------------------------------------------------------------------
// Output columns
// ---------------------------------------------------------------------------

/// What one output column is.
#[derive(Clone, Copy, Debug, PartialEq, Eq, Structural)]
pub enum Output {
    /// The aggregate of that number.
    Agg(i32),
    /// The grouping of that number.
    Group(i32),
    Const { type_oid: u32, value: i64, is_null: bool },
    /// The grouping of that number plus a constant.
    Derived { base: i32, delta: i64 },
}

/// Value of an integer constant, by its type; 0 for another type.
pub open spec fn int_value(c: Const) -> i64 {
    if c.consttype == INT2OID {
        c.word as i16 as i64
    } else if c.consttype == INT4OID {
        c.word as i32 as i64
    } else if c.consttype == INT8OID {
        c.word
    } else {
        0
    }
}

pub fn const_int_value(c: &Const) -> (r: i64)
    ensures
        r == int_value(*c),
{
    if c.consttype == INT2OID {
        #[verifier::truncate]
        (c.word as i16) as i64
    } else if c.consttype == INT4OID {
        #[verifier::truncate]
        (c.word as i32) as i64
    } else if c.consttype == INT8OID {
        c.word
    } else {
        0
    }
}

/// Value of a constant output column: its datum, an integer by its type.
pub open spec fn datum_value(c: Const) -> i64 {
    if c.consttype == INT2OID {
        c.word as i16 as i64
    } else if c.consttype == INT4OID {
        c.word as i32 as i64
    } else {
        c.word
    }
}

fn const_datum_value(c: &Const) -> (r: i64)
    ensures
        r == datum_value(*c),
{
    if c.consttype == INT2OID {
        #[verifier::truncate]
        (c.word as i16) as i64
    } else if c.consttype == INT4OID {
        #[verifier::truncate]
        (c.word as i32) as i64
    } else {
        c.word
    }
}

/// Index of the column that a reference is to.
pub open spec fn col_of(v: Var) -> i32 {
    (v.varattno - 1) as i32
}

/// Index of the column of the first argument that is a column, else -1.
pub open spec fn first_var_col(args: Seq<Expr>) -> i32 {
    match first_where(args, |a: Expr| a.head is Var) {
        Some(i) => col_of(args[i].head->Var_0),
        None => -1i32,
    }
}

/// `column + constant`, `constant + column` or `column - constant`, as the
/// column's index and the constant with its sign; `(-1, 0)` for anything else,
/// and a constant of 0 where it is null.
pub open spec fn shift_expr(name: OpName, args: Seq<Expr>) -> (i32, i32) {
    if args.len() == 2 {
        match (args[0].head, args[1].head) {
            (Head::Var(v), Head::Const(c)) => (
                col_of(v),
                if c.constisnull {
                    0
                } else if name == OpName::Minus {
                    0i64.wrapping_sub(int_value(c)) as i32
                } else {
                    int_value(c) as i32
                },
            ),
            (Head::Const(c), Head::Var(v)) => (
                col_of(v),
                if c.constisnull {
                    0
                } else {
                    int_value(c) as i32
                },
            ),
            _ => (-1i32, 0i32),
        }
    } else {
        (-1i32, 0i32)
    }
}

/// Position of the first grouping with the property, else 0.
pub open spec fn group_pos(groups: Seq<Group>, p: spec_fn(Group) -> bool) -> i32 {
    match first_where(groups, p) {
        Some(i) => i as i32,
        None => 0,
    }
}

/// Whether a grouping is by a function of the given OID over column `col`.
pub open spec fn is_func_group(g: Group, col: i32, funcid: u32) -> bool {
    g.col_idx == col && match g.expr {
        GroupExpr::RegexpReplace { func_oid, .. } => func_oid == funcid,
        GroupExpr::DateTrunc { func_oid, .. } => func_oid == funcid,
        GroupExpr::Extract { func_oid, .. } => func_oid == funcid,
        _ => false,
    }
}

/// Whether a grouping is by column `col` plus `offset`, with the operator `opno`.
pub open spec fn is_shift_group(g: Group, col: i32, offset: i32, opno: u32) -> bool {
    g.col_idx == col && match g.expr {
        GroupExpr::AddConst { offset: o, op_oid } => o == offset && op_oid == opno,
        _ => false,
    }
}

/// Positions of the groupings by a CASE expression among the first `n`.
pub open spec fn case_groups(groups: Seq<Group>, n: int) -> Seq<int>
    decreases n,
{
    if n <= 0 {
        Seq::empty()
    } else if groups[n - 1].expr is CaseWhen {
        case_groups(groups, n - 1).push(n - 1)
    } else {
        case_groups(groups, n - 1)
    }
}

/// The grouping of the CASE expression that `k` others stand before: the one in
/// the same place among the groupings by a CASE expression. With fewer of those
/// it is the first of them, and grouping 0 without any.
pub open spec fn case_group(groups: Seq<Group>, k: int) -> i32 {
    let at = case_groups(groups, groups.len() as int);
    if 0 <= k < at.len() {
        at[k] as i32
    } else if at.len() > 0 {
        at[0] as i32
    } else {
        0
    }
}

/// The groupings by a CASE expression are listed in order, each once.
pub proof fn lemma_case_groups(groups: Seq<Group>, n: int)
    requires
        0 <= n <= groups.len(),
    ensures
        forall|k: int|
            0 <= k < case_groups(groups, n).len() ==> 0 <= #[trigger] case_groups(groups, n)[k] < n
                && groups[case_groups(groups, n)[k]].expr is CaseWhen,
        forall|j: int, k: int|
            0 <= j < k < case_groups(groups, n).len() ==> #[trigger] case_groups(groups, n)[j]
                < #[trigger] case_groups(groups, n)[k],
        forall|i: int|
            0 <= i < n && (#[trigger] groups[i]).expr is CaseWhen ==> case_groups(
                groups,
                n,
            ).contains(i),
    decreases n,
{
    if n > 0 {
        lemma_case_groups(groups, n - 1);
        let before = case_groups(groups, n - 1);
        if groups[n - 1].expr is CaseWhen {
            let all = before.push(n - 1);
            assert forall|i: int| 0 <= i < n && (#[trigger] groups[i]).expr is CaseWhen implies all
                .contains(i) by {
                if i < n - 1 {
                    let k = choose|k: int| 0 <= k < before.len() && before[k] == i;
                    assert(all[k] == i);
                } else {
                    assert(all[before.len() as int] == i);
                }
            }
        }
    }
}

/// Number of CASE expressions that are put out by the first `n` entries.
pub open spec fn case_count(tlist: Seq<Target>, n: int) -> int
    decreases n,
{
    if n <= 0 {
        0
    } else {
        case_count(tlist, n - 1) + if !tlist[n - 1].resjunk && tlist[n - 1].expr.head is CaseExpr {
            1int
        } else {
            0
        }
    }
}

/// What an operator expression in the target list is: an extracted column, a
/// grouping by a shifted column, one derived from another, else grouping 0.
pub open spec fn op_output(
    e: Expr,
    groups: Seq<Group>,
    eliminated: Seq<EliminatedSpec>,
    ctx: Option<AggChainCtx>,
) -> Output {
    let chain = match ctx {
        Some(c) => c.synthetic(e),
        None => None,
    };
    let op = e.head->OpExpr_0;
    match chain {
        Some((col, _)) => Output::Group(
            group_pos(groups, |g: Group| g.col_idx == col && g.expr is Column),
        ),
        None => {
            let (col, offset) = shift_expr(op.name, e.args);
            match first_where(groups, |g: Group| is_shift_group(g, col, offset, op.opno)) {
                Some(i) => Output::Group(i as i32),
                None => match first_where(
                    eliminated,
                    |d: EliminatedSpec| d.col_idx == col && d.offset == offset,
                ) {
                    Some(j) => Output::Derived {
                        base: eliminated[j].base_new_idx as i32,
                        delta: eliminated[j].delta,
                    },
                    None => Output::Group(0),
                },
            }
        },
    }
}

/// What an output column is, where `aggs` aggregates and `cases` CASE
/// expressions stand before it; none for an expression that the scan does not
/// put out.
pub open spec fn output_of(
    e: Expr,
    aggs: int,
    cases: int,
    groups: Seq<Group>,
    eliminated: Seq<EliminatedSpec>,
    ctx: Option<AggChainCtx>,
) -> Option<Output> {
    match e.head {
        Head::Aggref(_) => Some(Output::Agg(aggs as i32)),
        Head::Var(v) => Some(
            Output::Group(group_pos(groups, |g: Group| g.col_idx == col_of(v))),
        ),
        Head::FuncExpr(f) => Some(
            Output::Group(
                group_pos(groups, |g: Group| is_func_group(g, first_var_col(e.args), f.funcid)),
            ),
        ),
        Head::OpExpr(_) => Some(op_output(e, groups, eliminated, ctx)),
        Head::CaseExpr => Some(Output::Group(case_group(groups, cases))),
        Head::Const(c) => Some(
            Output::Const {
                type_oid: c.consttype,
                value: if c.constisnull {
                    0
                } else {
                    datum_value(c)
                },
                is_null: c.constisnull,
            },
        ),
        _ => None,
    }
}

/// Number of aggregates among output columns.
pub open spec fn agg_count(outputs: Seq<Output>) -> int
    decreases outputs.len(),
{
    if outputs.len() == 0 {
        0
    } else {
        agg_count(outputs.drop_last()) + if outputs.last() is Agg {
            1int
        } else {
            0
        }
    }
}

/// The output columns of the first `n` entries of a target list.
pub open spec fn outputs_of(
    tlist: Seq<Target>,
    groups: Seq<Group>,
    eliminated: Seq<EliminatedSpec>,
    ctx: Option<AggChainCtx>,
    n: int,
) -> Seq<Output>
    decreases n,
{
    if n <= 0 {
        Seq::empty()
    } else {
        let before = outputs_of(tlist, groups, eliminated, ctx, n - 1);
        if tlist[n - 1].resjunk {
            before
        } else {
            match output_of(
                tlist[n - 1].expr,
                agg_count(before),
                case_count(tlist, n - 1),
                groups,
                eliminated,
                ctx,
            ) {
                Some(o) => before.push(o),
                None => before,
            }
        }
    }
}

/// Position of the first argument that is a column.
pub fn first_var_arg(args: &Vec<Node>) -> (r: i32)
    ensures
        r == first_var_col(exprs(args@)),
{
    broadcast use group_node;

    let ghost es = exprs(args@);
    let ghost p = |a: Expr| a.head is Var;
    let mut i: usize = 0;
    while i < args.len()
        invariant
            i <= args.len(),
            es == exprs(args@),
            p == (|a: Expr| a.head is Var),
            forall|j: int| 0 <= j < i ==> !p(#[trigger] es[j]),
        decreases args.len() - i,
    {
        assert(es[i as int] == args@[i as int].view());
        if let Head::Var(v) = &args[i].head {
            proof {
                lemma_first_is(es, p, i as int);
            }
            return v.varattno as i32 - 1;
        }
        i += 1;
    }
    proof {
        lemma_first_none(es, p);
    }
    -1
}

/// The column and the signed constant of a shifted column.
fn shifted_column(name: OpName, args: &Vec<Node>) -> (r: (i32, i32))
    ensures
        r == shift_expr(name, exprs(args@)),
{
    broadcast use group_node;

    if args.len() != 2 {
        return (-1, 0);
    }
    assert(exprs(args@)[0] == args@[0].view());
    assert(exprs(args@)[1] == args@[1].view());
    match (&args[0].head, &args[1].head) {
        (Head::Var(v), Head::Const(c)) => {
            let offset: i32 = if c.constisnull {
                0
            } else if name == OpName::Minus {
                #[verifier::truncate]
                (0i64.wrapping_sub(const_int_value(c)) as i32)
            } else {
                #[verifier::truncate]
                (const_int_value(c) as i32)
            };
            (v.varattno as i32 - 1, offset)
        },
        (Head::Const(c), Head::Var(v)) => {
            let offset: i32 = if c.constisnull {
                0
            } else {
                #[verifier::truncate]
                (const_int_value(c) as i32)
            };
            (v.varattno as i32 - 1, offset)
        },
        _ => (-1, 0),
    }
}

/// Properties by which a grouping is looked for.
#[derive(Clone, Copy, Debug, PartialEq, Eq, Structural)]
pub enum GroupKey {
    /// Any grouping by the column.
    OnColumn(i32),
    /// The grouping by the bare column.
    BareColumn(i32),
    /// By a function of that OID over the column.
    Func { col: i32, funcid: u32 },
    /// By the column plus an offset, with that operator.
    Shift { col: i32, offset: i32, opno: u32 },
    Case,
}

pub open spec fn key_pred(key: GroupKey) -> spec_fn(Group) -> bool {
    match key {
        GroupKey::OnColumn(col) => |g: Group| g.col_idx == col,
        GroupKey::BareColumn(col) => |g: Group| g.col_idx == col && g.expr is Column,
        GroupKey::Func { col, funcid } => |g: Group| is_func_group(g, col, funcid),
        GroupKey::Shift { col, offset, opno } => |g: Group| is_shift_group(g, col, offset, opno),
        GroupKey::Case => |g: Group| g.expr is CaseWhen,
    }
}

fn group_has_key(g: &GroupByColSpec, key: GroupKey) -> (r: bool)
    ensures
        r == key_pred(key)(g.view()),
{
    match key {
        GroupKey::OnColumn(col) => g.col_idx == col,
        GroupKey::BareColumn(col) => g.col_idx == col && matches!(g.expr, GroupByExpr::Column),
        GroupKey::Func { col, funcid } => g.col_idx == col && match &g.expr {
            GroupByExpr::RegexpReplace { func_oid, .. } => *func_oid == funcid,
            GroupByExpr::DateTrunc { func_oid, .. } => *func_oid == funcid,
            GroupByExpr::Extract { func_oid, .. } => *func_oid == funcid,
            _ => false,
        },
        GroupKey::Shift { col, offset, opno } => g.col_idx == col && match &g.expr {
            GroupByExpr::AddConst { offset: o, op_oid } => *o == offset && *op_oid == opno,
            _ => false,
        },
        GroupKey::Case => matches!(g.expr, GroupByExpr::CaseWhen(_)),
    }
}

/// The first grouping with the property.
pub fn find_group(groups: &Vec<GroupByColSpec>, key: GroupKey) -> (r: Option<usize>)
    ensures
        match r {
            Some(i) => first_where(groups_view(groups@), key_pred(key)) == Some(i as int) && i
                < groups.len(),
            None => first_where(groups_view(groups@), key_pred(key)) is None,
        },
{
    let ghost gs = groups_view(groups@);
    let mut i: usize = 0;
    while i < groups.len()
        invariant
            i <= groups.len(),
            gs == groups_view(groups@),
            forall|j: int| 0 <= j < i ==> !key_pred(key)(#[trigger] gs[j]),
        decreases groups.len() - i,
    {
        assert(gs[i as int] == groups@[i as int].view());
        if group_has_key(&groups[i], key) {
            proof {
                lemma_first_is(gs, key_pred(key), i as int);
            }
            return Some(i);
        }
        i += 1;
    }
    proof {
        lemma_first_none(gs, key_pred(key));
    }
    None
}

fn group_position(groups: &Vec<GroupByColSpec>, key: GroupKey) -> (r: i32)
    ensures
        r == group_pos(groups_view(groups@), key_pred(key)),
{
    match find_group(groups, key) {
        Some(i) => {
            #[verifier::truncate]
            (i as i32)
        },
        None => 0,
    }
}

/// Positions of the groupings by a CASE expression.
fn find_case_groups(groups: &Vec<GroupByColSpec>) -> (r: Vec<usize>)
    ensures
        r@.map_values(|i: usize| i as int) == case_groups(
            groups_view(groups@),
            groups@.len() as int,
        ),
{
    let ghost gs = groups_view(groups@);
    let mut at: Vec<usize> = Vec::new();
    let mut i: usize = 0;
    while i < groups.len()
        invariant
            i <= groups.len(),
            gs == groups_view(groups@),
            at@.map_values(|i: usize| i as int) == case_groups(gs, i as int),
        decreases groups.len() - i,
    {
        assert(gs[i as int] == groups@[i as int].view());
        if matches!(groups[i].expr, GroupByExpr::CaseWhen(_)) {
            let ghost before = at@.map_values(|i: usize| i as int);
            at.push(i);
            assert(at@.map_values(|i: usize| i as int) =~= before.push(i as int));
        }
        i += 1;
    }
    at
}

/// The grouping of the CASE expression that `k` others stand before.
fn case_position(at: &Vec<usize>, k: usize) -> (r: i32)
    ensures
        forall|groups: Seq<Group>|
            at@.map_values(|i: usize| i as int) == #[trigger] case_groups(
                groups,
                groups.len() as int,
            ) ==> r == case_group(groups, k as int),
{
    assert(at@.map_values(|i: usize| i as int).len() == at@.len());
    if k < at.len() {
        #[verifier::truncate]
        (at[k] as i32)
    } else if at.len() > 0 {
        #[verifier::truncate]
        (at[0] as i32)
    } else {
        0
    }
}

/// What an operator expression in the target list is.
fn op_output_for(
    node: &Node,
    name: OpName,
    opno: u32,
    groups: &Vec<GroupByColSpec>,
    eliminated: &Vec<EliminatedSpec>,
    ctx: &Option<AggChainCtx>,
) -> (r: Output)
    requires
        *ctx matches Some(c) ==> c.wf(),
        node.view().head matches Head::OpExpr(op) && op.name == name && op.opno == opno,
    ensures
        r == op_output(node.view(), groups_view(groups@), eliminated@, *ctx),
{
    broadcast use group_node;

    let ghost e = node.view();
    let ghost gs = groups_view(groups@);
    let chain = match ctx {
        Some(c) => c.match_to_synthetic(node),
        None => None,
    };
    if let Some((col, _)) = chain {
        let key = GroupKey::BareColumn(col);
        assert(key_pred(key) == (|g: Group| g.col_idx == col && g.expr is Column));
        return Output::Group(group_position(groups, key));
    }
    let (col, offset) = shifted_column(name, &node.args);
    let key = GroupKey::Shift { col, offset, opno };
    assert(key_pred(key) == (|g: Group| is_shift_group(g, col, offset, opno)));
    if let Some(i) = find_group(groups, key) {
        return Output::Group(
            #[verifier::truncate]
            (i as i32),
        );
    }
    let ghost p = |d: EliminatedSpec| d.col_idx == col && d.offset == offset;
    let mut j: usize = 0;
    while j < eliminated.len()
        invariant
            j <= eliminated.len(),
            p == (|d: EliminatedSpec| d.col_idx == col && d.offset == offset),
            forall|k: int| 0 <= k < j ==> !p(#[trigger] eliminated@[k]),
            e == node.view(),
            e.head matches Head::OpExpr(op) && op.name == name && op.opno == opno,
            (col, offset) == shift_expr(name, e.args),
            gs == groups_view(groups@),
            first_where(gs, |g: Group| is_shift_group(g, col, offset, opno)) is None,
            (match *ctx {
                Some(c) => c.synthetic(e),
                None => None,
            }) is None,
        decreases eliminated.len() - j,
    {
        let d = eliminated[j];
        if d.col_idx == col && d.offset == offset {
            proof {
                lemma_first_is(eliminated@, p, j as int);
            }
            return Output::Derived {
                base: #[verifier::truncate]
                (d.base_new_idx as i32),
                delta: d.delta,
            };
        }
        j += 1;
    }
    proof {
        lemma_first_none(eliminated@, p);
    }
    Output::Group(0)
}

/// What an output column is.
fn output_for(
    node: &Node,
    aggs: usize,
    cases: usize,
    case_at: &Vec<usize>,
    groups: &Vec<GroupByColSpec>,
    eliminated: &Vec<EliminatedSpec>,
    ctx: &Option<AggChainCtx>,
) -> (r: Option<Output>)
    requires
        *ctx matches Some(c) ==> c.wf(),
        case_at@.map_values(|i: usize| i as int) == case_groups(
            groups_view(groups@),
            groups@.len() as int,
        ),
    ensures
        r == output_of(
            node.view(),
            aggs as int,
            cases as int,
            groups_view(groups@),
            eliminated@,
            *ctx,
        ),
{
    broadcast use group_node;

    let ghost e = node.view();
    match &node.head {
        Head::Aggref(_) => Some(
            Output::Agg(
                #[verifier::truncate]
                (aggs as i32),
            ),
        ),
        Head::Var(v) => {
            let key = GroupKey::OnColumn(v.varattno as i32 - 1);
            assert(key_pred(key) == (|g: Group| g.col_idx == col_of(*v)));
            Some(Output::Group(group_position(groups, key)))
        },
        Head::FuncExpr(f) => {
            let col: i32 = first_var_arg(&node.args);
            let key = GroupKey::Func { col, funcid: f.funcid };
            assert(key_pred(key) == (|g: Group|
                is_func_group(g, first_var_col(e.args), f.funcid)));
            Some(Output::Group(group_position(groups, key)))
        },
        Head::OpExpr(op) => Some(op_output_for(node, op.name, op.opno, groups, eliminated, ctx)),
        Head::CaseExpr => {
            assert(groups_view(groups@).len() == groups@.len());
            Some(Output::Group(case_position(case_at, cases)))
        },
        Head::Const(c) => Some(
            Output::Const {
                type_oid: c.consttype,
                value: if c.constisnull {
                    0
                } else {
                    const_datum_value(c)
                },
                is_null: c.constisnull,
            },
        ),
        _ => None,
    }
}

/// The output columns of a target list.
pub fn build_output_map(
    tlist: &Vec<TargetEntry>,
    groups: &Vec<GroupByColSpec>,
    eliminated: &Vec<EliminatedSpec>,
    ctx: &Option<AggChainCtx>,
) -> (r: Vec<Output>)
    requires
        *ctx matches Some(c) ==> c.wf(),
    ensures
        r@ == outputs_of(
            targets(tlist@),
            groups_view(groups@),
            eliminated@,
            *ctx,
            tlist@.len() as int,
        ),
{
    let ghost tl = targets(tlist@);
    let ghost gs = groups_view(groups@);
    let case_at = find_case_groups(groups);
    let mut out: Vec<Output> = Vec::new();
    let mut aggs: usize = 0;
    let mut cases: usize = 0;
    let mut i: usize = 0;
    while i < tlist.len()
        invariant
            i <= tlist.len(),
            tl == targets(tlist@),
            gs == groups_view(groups@),
            *ctx matches Some(c) ==> c.wf(),
            case_at@.map_values(|i: usize| i as int) == case_groups(gs, groups@.len() as int),
            out@ == outputs_of(tl, gs, eliminated@, *ctx, i as int),
            aggs == agg_count(out@),
            aggs <= i,
            cases == case_count(tl, i as int),
            cases <= i,
        decreases tlist.len() - i,
    {
        broadcast use group_node;

        let t = &tlist[i];
        assert(tl[i as int] == t.view());
        if !t.resjunk {
            if let Some(o) = output_for(&t.expr, aggs, cases, &case_at, groups, eliminated, ctx) {
                let ghost before = out@;
                out.push(o);
                assert(out@.drop_last() =~= before);
                if matches!(o, Output::Agg(_)) {
                    aggs += 1;
                }
            }
            if matches!(t.expr.head, Head::CaseExpr) {
                cases += 1;
            }
        }
        i += 1;
    }
    out
}

// ---------------------------------------------------------------------------
// The plan's description
// ---------------------------------------------------------------------------

pub open spec fn parsed_agg_ints(a: ParsedAgg) -> Seq<i32> {
    seq![a.agg_type, a.col_idx, a.result_oid as i32, a.col_type_oid as i32, a.expr_kind] + (
    if a.expr_kind == ADD_CONST_CODE {
        seq![a.const_offset]
    } else {
        Seq::empty()
    }) + (if a.agg_type == MIN_CODE || a.agg_type == MAX_CODE {
        if a.output_tag == 1 {
            seq![a.output_tag, a.output_lo, a.output_hi]
        } else {
            seq![a.output_tag]
        }
    } else {
        Seq::empty()
    })
}

pub open spec fn parsed_agg_enc() -> spec_fn(ParsedAgg) -> Seq<i32> {
    |a: ParsedAgg| parsed_agg_ints(a)
}

pub open spec fn output_ints(o: Output) -> Seq<i32> {
    match o {
        Output::Agg(i) => seq![0i32, i],
        Output::Group(i) => seq![1i32, i],
        Output::Const { type_oid, value, is_null } => seq![
            2i32,
            value as i32,
            type_oid as i32,
            hi32(value),
            lo32(value),
            flag(is_null),
        ],
        Output::Derived { base, delta } => seq![3i32, base, hi32(delta), lo32(delta)],
    }
}

pub open spec fn output_enc() -> spec_fn(Output) -> Seq<i32> {
    |o: Output| output_ints(o)
}

pub open spec fn having_ints(h: HavingFilter) -> Seq<i32> {
    seq![h.agg_idx as i32, h.op.code_spec(), h.const_val as i32]
}

pub open spec fn having_enc() -> spec_fn(HavingFilter) -> Seq<i32> {
    |h: HavingFilter| having_ints(h)
}

/// The limit: `[limit, sort_col, ascending]`, with the two aggregates of a
/// derived sort key, or `[0]`.
pub open spec fn topn_ints(t: Option<AggTopnInfo>) -> Seq<i32> {
    match t {
        Some(i) => seq![i.limit as i32, i.sort_col, flag(i.ascending)] + match i.derived_minmax {
            Some((mx, mn)) => seq![mx, mn],
            None => Seq::empty(),
        },
        None => seq![0i32],
    }
}

/// What an aggregate plan computes.
pub struct PlanContents {
    pub oids: Seq<u32>,
    pub aggs: Seq<ParsedAgg>,
    pub groups: Seq<Group>,
    pub outputs: Seq<Output>,
    pub having: Seq<HavingFilter>,
    pub quals: Option<Seq<u8>>,
    pub topn: Option<AggTopnInfo>,
    pub is_partial: bool,
}

/// The description of an aggregate plan: `[tables.., -1, #aggs, aggs..,
/// #groups, groups.., #outputs, outputs.., #having, having.., conditions,
/// limit, is_partial]`.
pub open spec fn agg_plan_ints(c: PlanContents) -> Seq<i32> {
    (oid_ints(c.oids).push(-1i32) + (seq![c.aggs.len() as i32] + ints_of(parsed_agg_enc(), c.aggs))
        + (seq![c.groups.len() as i32] + groups_ints(c.groups)) + (seq![c.outputs.len() as i32] + ints_of(output_enc(), c.outputs))
        + (seq![c.having.len() as i32] + ints_of(having_enc(), c.having)) + qual_ints(c.quals)
        + topn_ints(c.topn)).push(flag(c.is_partial))
}

fn append_parsed_agg(out: &mut Vec<i32>, a: &ParsedAgg)
    ensures
        final(out)@ == old(out)@ + parsed_agg_ints(*a),
{
    let ghost base = out@;
    out.push(a.agg_type);
    out.push(a.col_idx);
    let result: i32 = #[verifier::truncate]
    (a.result_oid as i32);
    out.push(result);
    let col_type: i32 = #[verifier::truncate]
    (a.col_type_oid as i32);
    out.push(col_type);
    out.push(a.expr_kind);
    if a.expr_kind == ADD_CONST_CODE {
        out.push(a.const_offset);
    }
    if a.agg_type == MIN_CODE || a.agg_type == MAX_CODE {
        out.push(a.output_tag);
        if a.output_tag == 1 {
            out.push(a.output_lo);
            out.push(a.output_hi);
        }
    }
    assert(out@ =~= base + parsed_agg_ints(*a));
}

fn append_aggs(out: &mut Vec<i32>, aggs: &Vec<ParsedAgg>)
    ensures
        final(out)@ == old(out)@ + (seq![aggs@.len() as i32] + ints_of(parsed_agg_enc(), aggs@)),
{
    let ghost base = out@;
    let n: i32 = #[verifier::truncate]
    (aggs.len() as i32);
    out.push(n);
    let mut i: usize = 0;
    assert(out@ =~= base + (seq![n] + ints_of(parsed_agg_enc(), aggs@.subrange(0, 0))));
    while i < aggs.len()
        invariant
            i <= aggs.len(),
            out@ == base + (seq![n] + ints_of(parsed_agg_enc(), aggs@.subrange(0, i as int))),
        decreases aggs.len() - i,
    {
        append_parsed_agg(out, &aggs[i]);
        proof {
            lemma_ints_of_step(parsed_agg_enc(), aggs@, i as int);
        }
        i += 1;
        assert(out@ =~= base + (seq![n] + ints_of(
            parsed_agg_enc(),
            aggs@.subrange(0, i as int),
        )));
    }
    assert(aggs@.subrange(0, i as int) =~= aggs@);
}

fn append_outputs(out: &mut Vec<i32>, outputs: &Vec<Output>)
    ensures
        final(out)@ == old(out)@ + (seq![outputs@.len() as i32] + ints_of(output_enc(), outputs@)),
{
    let ghost base = out@;
    let n: i32 = #[verifier::truncate]
    (outputs.len() as i32);
    out.push(n);
    let mut i: usize = 0;
    assert(out@ =~= base + (seq![n] + ints_of(output_enc(), outputs@.subrange(0, 0))));
    while i < outputs.len()
        invariant
            i <= outputs.len(),
            out@ == base + (seq![n] + ints_of(output_enc(), outputs@.subrange(0, i as int))),
        decreases outputs.len() - i,
    {
        let ghost before = out@;
        match outputs[i] {
            Output::Agg(k) => {
                out.push(0);
                out.push(k);
            },
            Output::Group(k) => {
                out.push(1);
                out.push(k);
            },
            Output::Const { type_oid, value, is_null } => {
                out.push(2);
                out.push(low_half(value));
                let t: i32 = #[verifier::truncate]
                (type_oid as i32);
                out.push(t);
                out.push(high_half(value));
                out.push(low_half(value));
                out.push(
                    if is_null {
                        1
                    } else {
                        0
                    },
                );
            },
            Output::Derived { base: b, delta } => {
                out.push(3);
                out.push(b);
                out.push(high_half(delta));
                out.push(low_half(delta));
            },
        }
        assert(out@ =~= before + output_ints(outputs@[i as int]));
        proof {
            lemma_ints_of_step(output_enc(), outputs@, i as int);
        }
        i += 1;
        assert(out@ =~= base + (seq![n] + ints_of(output_enc(), outputs@.subrange(0, i as int))));
    }
    assert(outputs@.subrange(0, i as int) =~= outputs@);
}

fn append_having(out: &mut Vec<i32>, having: &Vec<HavingFilter>)
    ensures
        final(out)@ == old(out)@ + (seq![having@.len() as i32] + ints_of(having_enc(), having@)),
{
    let ghost base = out@;
    let n: i32 = #[verifier::truncate]
    (having.len() as i32);
    out.push(n);
    let mut i: usize = 0;
    assert(out@ =~= base + (seq![n] + ints_of(having_enc(), having@.subrange(0, 0))));
    while i < having.len()
        invariant
            i <= having.len(),
            out@ == base + (seq![n] + ints_of(having_enc(), having@.subrange(0, i as int))),
        decreases having.len() - i,
    {
        let h = having[i];
        let ghost before = out@;
        let idx: i32 = #[verifier::truncate]
        (h.agg_idx as i32);
        out.push(idx);
        out.push(h.op.code());
        out.push(low_half(h.const_val));
        assert(out@ =~= before + having_ints(h));
        proof {
            lemma_ints_of_step(having_enc(), having@, i as int);
        }
        i += 1;
        assert(out@ =~= base + (seq![n] + ints_of(having_enc(), having@.subrange(0, i as int))));
    }
    assert(having@.subrange(0, i as int) =~= having@);
}

fn append_topn(out: &mut Vec<i32>, topn: &Option<AggTopnInfo>)
    ensures
        final(out)@ == old(out)@ + topn_ints(*topn),
{
    let ghost base = out@;
    match topn {
        Some(info) => {
            out.push(low_half(info.limit));
            out.push(info.sort_col);
            out.push(
                if info.ascending {
                    1
                } else {
                    0
                },
            );
            if let Some((mx, mn)) = info.derived_minmax {
                out.push(mx);
                out.push(mn);
            }
        },
        None => {
            out.push(0);
        },
    }
    assert(out@ =~= base + topn_ints(*topn));
}

/// Builds the description of an aggregate plan.
fn build_agg_plan_private(
    oids: &Vec<u32>,
    aggs: &Vec<ParsedAgg>,
    groups: &Vec<GroupByColSpec>,
    outputs: &Vec<Output>,
    having: &Vec<HavingFilter>,
    quals: &Option<Vec<u8>>,
    topn: &Option<AggTopnInfo>,
    is_partial: bool,
) -> (r: Vec<i32>)
    ensures
        r@ == agg_plan_ints(
            PlanContents {
                oids: oids@,
                aggs: aggs@,
                groups: groups_view(groups@),
                outputs: outputs@,
                having: having@,
                quals: opt_bytes(*quals),
                topn: *topn,
                is_partial,
            },
        ),
{
    let mut out: Vec<i32> = Vec::new();
    append_oids_as_ints(&mut out, oids);
    assert(out@ =~= oid_ints(oids@));
    out.push(-1);
    append_aggs(&mut out, aggs);
    append_groups(&mut out, groups);
    append_outputs(&mut out, outputs);
    append_having(&mut out, having);
    append_qual_list_as_bytes(&mut out, quals);
    append_topn(&mut out, topn);
    out.push(
        if is_partial {
            1
        } else {
            0
        },
    );
    out
}

/// What an aggregate plan computes, from its path and its target list.
pub open spec fn plan_contents(
    path: PathContents,
    tlist: Seq<Target>,
    ctx: Option<AggChainCtx>,
    having: Seq<HavingFilter>,
    quals: Option<Seq<u8>>,
    topn: Option<AggTopnInfo>,
) -> PlanContents {
    let groups = kept_groups(path.groups, path.groups.len() as int);
    let eliminated = derivations(path.groups, path.groups.len() as int);
    PlanContents {
        oids: path.oids,
        aggs: path.aggs,
        groups,
        outputs: outputs_of(tlist, groups, eliminated, ctx, tlist.len() as int),
        having,
        quals,
        topn,
        is_partial: path.is_partial,
    }
}

/// A planned aggregate scan.
pub struct AggPlan {
    pub targetlist: Vec<TargetEntry>,
    pub custom_private: Vec<i32>,
}

/// Turns an aggregate path into a plan: the output columns of its target list,
/// and the description that the executor reads. None where the path's
/// description ends too early.
///
/// `quals` are the serialized conditions, with chains already replaced (see
/// `agg_scan_quals`).
pub fn plan_agg_path(
    path_private: &Vec<i32>,
    tlist: &Vec<TargetEntry>,
    ctx: &Option<AggChainCtx>,
    having: &Vec<HavingFilter>,
    quals: &Option<Vec<u8>>,
    topn: &Option<AggTopnInfo>,
) -> (r: Option<AggPlan>)
    requires
        *ctx matches Some(c) ==> c.wf(),
    ensures
        match r {
            Some(plan) => path_contents(path_private@) matches Some(path) && targets(
                plan.targetlist@,
            ) == clean_targets(targets(tlist@), tlist@.len() as int) && plan.custom_private@
                == agg_plan_ints(
                plan_contents(
                    path,
                    targets(tlist@),
                    *ctx,
                    having@,
                    opt_bytes(*quals),
                    *topn,
                ),
            ),
            None => path_contents(path_private@) is None,
        },
{
    let path = match parse_agg_path_private(path_private) {
        Some(p) => p,
        None => {
            return None;
        },
    };
    let ghost contents = path.view();
    let (groups, eliminated) = eliminate_redundant_groups(path.groups);
    let outputs = build_output_map(tlist, &groups, &eliminated, ctx);
    let custom_private = build_agg_plan_private(
        &path.companion_oids,
        &path.aggs,
        &groups,
        &outputs,
        having,
        quals,
        topn,
        path.is_partial,
    );
    Some(AggPlan { targetlist: clean_targetlist(tlist), custom_private })
}

/// The conditions that an aggregate scan checks, with the chains over
/// extracted columns replaced.
pub open spec fn agg_scan_conditions(
    jointree: Expr,
    rels: Seq<Seq<Expr>>,
    ctx: Option<AggChainCtx>,
) -> Seq<Expr> {
    let quals = crate::scan::quals::scan_conditions(jointree, rels);
    match ctx {
        Some(c) => rewritten_list(
            Rule::Specs {
                rti: c.parent_rti,
                specs: c.specs@,
                phys: c.phys.by_attno@,
                natts: c.physical_count,
            },
            quals,
        ),
        None => quals,
    }
}

/// The conditions that an aggregate scan checks.
pub fn agg_scan_quals(jointree: &Node, rels: &Vec<Vec<Node>>, ctx: &Option<AggChainCtx>) -> (r: Vec<
    Node,
>)
    requires
        *ctx matches Some(c) ==> c.wf(),
    ensures
        exprs(r@) == agg_scan_conditions(
            jointree.view(),
            crate::scan::quals::rel_exprs(rels@),
            *ctx,
        ),
{
    let quals = crate::scan::quals::extract_scan_quals(jointree, rels);
    match ctx {
        Some(c) => rewrite_chains_in_list(
            &quals,
            c.parent_rti,
            &c.specs,
            &c.phys,
            c.physical_count,
        ),
        None => quals,
    }
}

/// The aggregates of a plan are described as those of its path are.
pub proof fn lemma_agg_section_kept(a: crate::scan::agg_types::AggSpec)
    ensures
        parsed_agg_ints(crate::scan::wire_decode::as_written(a)) == crate::scan::wire::agg_ints(a),
{
    assert(parsed_agg_ints(crate::scan::wire_decode::as_written(a))
        =~= crate::scan::wire::agg_ints(a));
}

} // verus!
