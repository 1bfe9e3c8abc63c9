//! Rewriting of a finished plan so that it reads extracted columns.
//!
//! Chains above a scan are replaced by references to the scan's extracted
//! columns, which are forwarded through every plan in between; afterwards each
//! scan is told which columns are still read.

use vstd::prelude::*;
use crate::pg_types::INVALID_OID;
use crate::scan::json_extract::{
    collect_chain_signatures_in_list, collect_chain_signatures_in_node, collation_of_kind,
    column_ref, columns, has_signature, kind_collation, kind_to_type_oid, list_mentions, listed,
    mentions, rewrite_list, rewrite_walker, rewritten, rewritten_list, targets, Attribute,
    ChainSig, Column, ColumnKind, ExtractSpec, Rewrite, Rule, SubplanColumn, Target, TargetEntry,
};
use crate::scan::json_tlist::{
    any_synthetic, build_custom_scan_tlist, build_subplan_tlist_from_scan_targetlist,
    common_columns, compute_my_subplan_tlist, custom_scan_targets, extend_scan_targetlist_with_forwarders,
    extended, has_any_synthetic, intersect_subplan_tlists, paths_given, plan_columns,
    rewrite_scan_qual_chains, scan_column, scan_synths, sig_set, Sigs,
};
use crate::scan::json_prune::{all_positions, prune_cscans_by_ref_count, pruned};
use crate::scan::node::{exprs, group_node, var_expr, Expr, Head, Node, Var, OUTER_VAR};
use crate::search::{first_where, lemma_first_is, lemma_first_none};

verus! {

/// What the planner logic tells apart among plan nodes.
#[derive(Clone, Copy, Debug, PartialEq, Eq, Structural)]
pub enum PlanKind {
    CustomScan,
    Append,
    MergeAppend,
    WindowAgg,
    Other,
}

/// The provider of a custom scan.
#[derive(Clone, Copy, Debug, PartialEq, Eq, Structural)]
pub enum ScanName {
    /// The scan of one compressed partition.
    Decompress,
    /// The scan of all partitions of a table.
    Append,
    Other,
}

/// A plan node.
pub struct Plan {
    /// Tells one node of the plan from another.
    pub ident: u64,
    pub kind: PlanKind,
    pub targetlist: Vec<TargetEntry>,
    pub qual: Vec<Node>,
    /// Run condition of a window aggregate.
    pub run_condition: Vec<Node>,
    /// Positions of the target list that the node itself sorts or groups by.
    pub key_cols: Vec<i16>,
    pub lefttree: Option<Box<Plan>>,
    pub righttree: Option<Box<Plan>>,
    /// Children of an append.
    pub children: Vec<Plan>,
    /// The remaining fields describe a custom scan.
    pub scan_name: ScanName,
    pub scanrelid: u32,
    pub custom_private: Vec<i32>,
    pub custom_scan_tlist: Vec<TargetEntry>,
}

/// The tree that a `Plan` stands for.
pub struct PlanTree {
    pub ident: u64,
    pub kind: PlanKind,
    pub targetlist: Seq<Target>,
    pub qual: Seq<Expr>,
    pub run_condition: Seq<Expr>,
    pub key_cols: Seq<i16>,
    pub left: Option<Box<PlanTree>>,
    pub right: Option<Box<PlanTree>>,
    pub children: Seq<PlanTree>,
    pub scan_name: ScanName,
    pub scanrelid: u32,
    pub custom_private: Seq<i32>,
    pub custom_scan_tlist: Seq<Target>,
}

impl Plan {
    pub open spec fn view(&self) -> PlanTree
        decreases self,
    {
        PlanTree {
            ident: self.ident,
            kind: self.kind,
            targetlist: targets(self.targetlist@),
            qual: exprs(self.qual@),
            run_condition: exprs(self.run_condition@),
            key_cols: self.key_cols@,
            left: match self.lefttree {
                Some(b) => Some(Box::new(b.view())),
                None => None,
            },
            right: match self.righttree {
                Some(b) => Some(Box::new(b.view())),
                None => None,
            },
            children: Seq::new(
                self.children@.len(),
                |i: int|
                    if 0 <= i < self.children@.len() {
                        self.children@[i].view()
                    } else {
                        arbitrary()
                    },
            ),
            scan_name: self.scan_name,
            scanrelid: self.scanrelid,
            custom_private: self.custom_private@,
            custom_scan_tlist: targets(self.custom_scan_tlist@),
        }
    }
}

/// The trees of a list of plans.
pub open spec fn trees(v: Seq<Plan>) -> Seq<PlanTree> {
    v.map_values(|p: Plan| p.view())
}

/// What the list fields of a plan's tree are.
pub broadcast proof fn lemma_plan_view(p: Plan)
    ensures
        (#[trigger] p.view()).children == trees(p.children@),
{
    assert(p.view().children =~= trees(p.children@));
}

pub open spec fn is_append(k: PlanKind) -> bool {
    k == PlanKind::Append || k == PlanKind::MergeAppend
}

fn is_append_kind(k: PlanKind) -> (r: bool)
    ensures
        r == is_append(k),
{
    k == PlanKind::Append || k == PlanKind::MergeAppend
}

// ---------------------------------------------------------------------------
// Signatures of the chains in a plan
// ---------------------------------------------------------------------------

/// Whether a chain of the given signature occurs in an entry of a target list.
pub open spec fn tlist_mentions(s: Seq<Target>, path: Seq<Seq<char>>, kind: ColumnKind) -> bool {
    exists|i: int| 0 <= i < s.len() && mentions((#[trigger] s[i]).expr, path, kind)
}

/// Whether a chain of the given signature occurs in a plan, custom scans
/// excepted.
pub open spec fn plan_mentions(p: PlanTree, path: Seq<Seq<char>>, kind: ColumnKind) -> bool
    decreases p,
{
    p.kind != PlanKind::CustomScan && {
        ||| tlist_mentions(p.targetlist, path, kind)
        ||| list_mentions(p.qual, path, kind)
        ||| p.kind == PlanKind::WindowAgg && list_mentions(p.run_condition, path, kind)
        ||| match p.left {
            Some(b) => plan_mentions(*b, path, kind),
            None => false,
        }
        ||| match p.right {
            Some(b) => plan_mentions(*b, path, kind),
            None => false,
        }
        ||| is_append(p.kind) && exists|i: int|
            0 <= i < p.children.len() && plan_mentions(#[trigger] p.children[i], path, kind)
    }
}

/// The signatures of the chains in a plan.
pub open spec fn plan_sigs(p: PlanTree) -> Sigs {
    Set::new(|s: (Seq<Seq<char>>, ColumnKind)| plan_mentions(p, s.0, s.1))
}

fn collect_chain_signatures_in_tlist(list: &Vec<TargetEntry>, out: &mut Vec<ChainSig>)
    ensures
        forall|p: Seq<Seq<char>>, k: ColumnKind| #[trigger]
            listed(final(out)@, p, k) <==> listed(old(out)@, p, k) || tlist_mentions(
                targets(list@),
                p,
                k,
            ),
{
    let ghost base = out@;
    let ghost tl = targets(list@);
    let mut i: usize = 0;
    while i < list.len()
        invariant
            i <= list.len(),
            tl == targets(list@),
            forall|p: Seq<Seq<char>>, k: ColumnKind| #[trigger]
                listed(out@, p, k) <==> listed(base, p, k) || exists|j: int|
                    0 <= j < i && mentions((#[trigger] tl[j]).expr, p, k),
        decreases list.len() - i,
    {
        let ghost prior = out@;
        collect_chain_signatures_in_node(&list[i].expr, out);
        assert(tl[i as int] == list@[i as int].view());
        i += 1;
        assert forall|p: Seq<Seq<char>>, k: ColumnKind| #[trigger]
            listed(out@, p, k) <==> listed(base, p, k) || exists|j: int|
                0 <= j < i && mentions((#[trigger] tl[j]).expr, p, k) by {
            assert(listed(out@, p, k) <==> listed(prior, p, k) || mentions(tl[i - 1].expr, p, k));
        }
    }
}

/// Adds the signatures of all chains in a plan to `out`.
pub fn collect_chain_signatures_in_plan(plan: &Plan, out: &mut Vec<ChainSig>)
    ensures
        forall|p: Seq<Seq<char>>, k: ColumnKind| #[trigger]
            listed(final(out)@, p, k) <==> listed(old(out)@, p, k) || plan_mentions(
                plan.view(),
                p,
                k,
            ),
    decreases plan,
{
    broadcast use lemma_plan_view;

    if plan.kind == PlanKind::CustomScan {
        return ;
    }
    let ghost t = plan.view();
    let ghost s0 = out@;
    collect_chain_signatures_in_tlist(&plan.targetlist, out);
    let ghost s1 = out@;
    collect_chain_signatures_in_list(&plan.qual, out);
    let ghost s2 = out@;
    if plan.kind == PlanKind::WindowAgg {
        collect_chain_signatures_in_list(&plan.run_condition, out);
    }
    let ghost s3 = out@;
    if let Some(b) = &plan.lefttree {
        collect_chain_signatures_in_plan(b, out);
    }
    let ghost s4 = out@;
    if let Some(b) = &plan.righttree {
        collect_chain_signatures_in_plan(b, out);
    }
    let ghost s5 = out@;
    if is_append_kind(plan.kind) {
        let mut i: usize = 0;
        while i < plan.children.len()
            invariant
                i <= plan.children.len(),
                t == plan.view(),
                t.children == trees(plan.children@),
                forall|p: Seq<Seq<char>>, k: ColumnKind| #[trigger]
                    listed(out@, p, k) <==> listed(s5, p, k) || exists|j: int|
                        0 <= j < i && plan_mentions(#[trigger] t.children[j], p, k),
            decreases plan.children.len() - i,
        {
            let ghost prior = out@;
            collect_chain_signatures_in_plan(&plan.children[i], out);
            assert(t.children[i as int] == plan.children@[i as int].view());
            i += 1;
            assert forall|p: Seq<Seq<char>>, k: ColumnKind| #[trigger]
                listed(out@, p, k) <==> listed(s5, p, k) || exists|j: int|
                    0 <= j < i && plan_mentions(#[trigger] t.children[j], p, k) by {
                assert(listed(out@, p, k) <==> listed(prior, p, k) || plan_mentions(
                    t.children[i - 1],
                    p,
                    k,
                ));
            }
        }
    }
    assert forall|p: Seq<Seq<char>>, k: ColumnKind| #[trigger]
        listed(out@, p, k) <==> listed(s0, p, k) || plan_mentions(t, p, k) by {
        assert(listed(s1, p, k) <==> listed(s0, p, k) || tlist_mentions(t.targetlist, p, k));
        assert(listed(s2, p, k) <==> listed(s1, p, k) || list_mentions(t.qual, p, k));
        assert(listed(s3, p, k) <==> listed(s2, p, k) || (t.kind == PlanKind::WindowAgg
            && list_mentions(t.run_condition, p, k)));
        assert(listed(s4, p, k) <==> listed(s3, p, k) || (plan.lefttree matches Some(b)
            && plan_mentions(b.view(), p, k)));
        assert(listed(s5, p, k) <==> listed(s4, p, k) || (plan.righttree matches Some(b)
            && plan_mentions(b.view(), p, k)));
    }
}

// ---------------------------------------------------------------------------
// Forwarding of extracted columns through the plans above a scan
// ---------------------------------------------------------------------------

/// Whether `t` passes on column `attno` of the child.
pub open spec fn forwards(t: Target, attno: i16) -> bool {
    match t.expr.head {
        Head::Var(v) => v.varno == OUTER_VAR && v.varattno == attno,
        _ => false,
    }
}

/// Position at which a target list passes on column `attno` of the child.
pub open spec fn forwarder_at(tlist: Seq<Target>, attno: i16) -> Option<i16> {
    match first_where(tlist, |t: Target| forwards(t, attno)) {
        Some(i) => Some(tlist[i].resno),
        None => None,
    }
}

/// Finds the position at which a target list passes on column `varattno` of
/// the child.
pub fn find_outer_var_forwarder(tlist: &Vec<TargetEntry>, varattno: i16) -> (r: Option<i16>)
    ensures
        r == forwarder_at(targets(tlist@), varattno),
{
    broadcast use group_node;

    let ghost tl = targets(tlist@);
    let ghost p = |t: Target| forwards(t, varattno);
    let mut i: usize = 0;
    while i < tlist.len()
        invariant
            i <= tlist.len(),
            tl == targets(tlist@),
            p == (|t: Target| forwards(t, varattno)),
            forall|j: int| 0 <= j < i ==> !p(#[trigger] tl[j]),
        decreases tlist.len() - i,
    {
        assert(tl[i as int] == tlist@[i as int].view());
        if let Head::Var(v) = &tlist[i].expr.head {
            if v.varno == OUTER_VAR && v.varattno == varattno {
                proof {
                    lemma_first_is(tl, p, i as int);
                }
                return Some(tlist[i].resno);
            }
        }
        i += 1;
    }
    proof {
        lemma_first_none(tl, p);
    }
    None
}

/// The target lists of a plan's ancestors, the outermost first.
pub open spec fn stack_view(v: Seq<Vec<TargetEntry>>) -> Seq<Seq<Target>> {
    v.map_values(|t: Vec<TargetEntry>| targets(t@))
}

/// The entry that an ancestor gets to pass on column `pos` of its child.
pub open spec fn pass_on_entry(pos: i16, kind: ColumnKind, resno: i16) -> Target {
    Target {
        expr: var_expr(column_ref(OUTER_VAR, pos, kind, collation_of_kind(kind))),
        resno,
        resname: None,
        resjunk: true,
    }
}

/// The ancestors' target lists once each of them passes on the column that
/// stands at position `pos` of the innermost one's child. An ancestor that
/// already passes it on, or has no target list, is left as it is.
pub open spec fn lifted(stack: Seq<Seq<Target>>, pos: i16, kind: ColumnKind) -> Seq<Seq<Target>>
    decreases stack.len(),
{
    if stack.len() == 0 {
        stack
    } else {
        let top = stack.last();
        let rest = stack.drop_last();
        if top.len() == 0 {
            lifted(rest, pos, kind).push(top)
        } else {
            match forwarder_at(top, pos) {
                Some(resno) => lifted(rest, resno, kind).push(top),
                None => {
                    let resno = (top.len() + 1) as i16;
                    lifted(rest, resno, kind).push(top.push(pass_on_entry(pos, kind, resno)))
                },
            }
        }
    }
}

/// The ancestors' target lists once the needed ones among the first `n`
/// columns of `stl` are passed on.
pub open spec fn propagated(
    stack: Seq<Seq<Target>>,
    stl: Seq<Column>,
    needed: Sigs,
    n: int,
) -> Seq<Seq<Target>>
    decreases n,
{
    if n <= 0 {
        stack
    } else {
        let before = propagated(stack, stl, needed, n - 1);
        match stl[n - 1] {
            Column::Synthetic { path, kind, src, resno } => if needed.contains((path, kind)) {
                lifted(before, resno, kind)
            } else {
                before
            },
            _ => before,
        }
    }
}

/// Lifting keeps the number of ancestors.
proof fn lemma_lifted_len(stack: Seq<Seq<Target>>, pos: i16, kind: ColumnKind)
    ensures
        lifted(stack, pos, kind).len() == stack.len(),
    decreases stack.len(),
{
    if stack.len() > 0 {
        let top = stack.last();
        let rest = stack.drop_last();
        if top.len() == 0 {
            lemma_lifted_len(rest, pos, kind);
        } else {
            match forwarder_at(top, pos) {
                Some(resno) => lemma_lifted_len(rest, resno, kind),
                None => lemma_lifted_len(rest, (top.len() + 1) as i16, kind),
            }
        }
    }
}

proof fn lemma_propagated_len(stack: Seq<Seq<Target>>, stl: Seq<Column>, needed: Sigs, n: int)
    ensures
        propagated(stack, stl, needed, n).len() == stack.len(),
    decreases n,
{
    if n > 0 {
        lemma_propagated_len(stack, stl, needed, n - 1);
        let before = propagated(stack, stl, needed, n - 1);
        match stl[n - 1] {
            Column::Synthetic { path, kind, src, resno } => lemma_lifted_len(before, resno, kind),
            _ => {},
        }
    }
}

/// Makes every ancestor pass on the column at position `pos` of the innermost
/// ancestor's child.
fn lift_column(stack: &mut Vec<Vec<TargetEntry>>, pos: i16, kind: ColumnKind)
    ensures
        stack_view(final(stack)@) == lifted(stack_view(old(stack)@), pos, kind),
{
    let ghost orig = stack_view(stack@);
    let mut current: i16 = pos;
    let mut i: usize = stack.len();
    assert(orig.subrange(0, i as int) =~= orig);
    assert(stack_view(stack@).subrange(i as int, stack@.len() as int) =~= Seq::<
        Seq<Target>,
    >::empty());
    assert(lifted(orig, pos, kind) =~= lifted(orig.subrange(0, i as int), current, kind)
        + stack_view(stack@).subrange(i as int, stack@.len() as int));
    while i > 0
        invariant
            i <= stack.len(),
            stack@.len() == orig.len(),
            stack_view(stack@).subrange(0, i as int) == orig.subrange(0, i as int),
            lifted(orig, pos, kind) == lifted(orig.subrange(0, i as int), current, kind)
                + stack_view(stack@).subrange(i as int, stack@.len() as int),
        decreases i,
    {
        i -= 1;
        let ghost sub = orig.subrange(0, i + 1);
        let ghost before = stack_view(stack@);
        assert(sub.last() == targets(stack@[i as int]@)) by {
            assert(before.subrange(0, i + 1)[i as int] == orig.subrange(0, i + 1)[i as int]);
        }
        assert(sub.drop_last() =~= orig.subrange(0, i as int));
        assert(before.subrange(0, i as int) =~= orig.subrange(0, i as int)) by {
            assert(before.subrange(0, i as int) =~= before.subrange(0, i + 1).subrange(
                0,
                i as int,
            ));
            assert(orig.subrange(0, i as int) =~= orig.subrange(0, i + 1).subrange(0, i as int));
        }
        let ghost top = sub.last();
        let ghost tail = before.subrange(i + 1, before.len() as int);
        if stack[i].len() == 0 {
            assert(stack_view(stack@).subrange(i as int, stack@.len() as int) =~= seq![top] + tail);
            assert(lifted(orig, pos, kind) =~= lifted(sub.drop_last(), current, kind) + (seq![top]
                + tail));
        } else {
            match find_outer_var_forwarder(&stack[i], current) {
                Some(resno) => {
                    assert(stack_view(stack@).subrange(i as int, stack@.len() as int) =~= seq![top]
                        + tail);
                    assert(lifted(orig, pos, kind) =~= lifted(sub.drop_last(), resno, kind) + (
                    seq![top] + tail));
                    current = resno;
                },
                None => {
                    let resno: i16 = #[verifier::truncate]
                    ((stack[i].len() as u128 + 1) as i16);
                    let nv = Var {
                        varno: OUTER_VAR,
                        varattno: current,
                        vartype: kind_to_type_oid(kind),
                        vartypmod: -1,
                        varcollid: kind_collation(kind),
                        varlevelsup: 0,
                    };
                    let entry = TargetEntry {
                        expr: Node::leaf(Head::Var(nv)),
                        resno,
                        resname: None,
                        resjunk: true,
                    };
                    let ghost te = pass_on_entry(current, kind, resno);
                    assert(entry.view() == te);
                    let ghost old_top = stack@[i as int]@;
                    stack[i].push(entry);
                    assert(targets(stack@[i as int]@) =~= top.push(te));
                    assert(stack_view(stack@) =~= before.update(i as int, top.push(te)));
                    assert(stack_view(stack@).subrange(i as int, stack@.len() as int) =~= seq![
                        top.push(te),
                    ] + tail);
                    assert(stack_view(stack@).subrange(0, i as int) =~= before.subrange(
                        0,
                        i as int,
                    ));
                    assert(lifted(orig, pos, kind) =~= lifted(sub.drop_last(), resno, kind) + (
                    seq![top.push(te)] + tail));
                    current = resno;
                },
            }
        }
    }
    assert(orig.subrange(0, 0) =~= Seq::<Seq<Target>>::empty());
    assert(stack_view(stack@).subrange(0, stack@.len() as int) =~= stack_view(stack@));
    assert(lifted(orig, pos, kind) =~= stack_view(stack@));
}

/// Makes every ancestor of a scan pass on the scan's extracted columns whose
/// signatures are needed.
pub fn propagate_synthetics_through_ancestors(
    ancestors: &mut Vec<Vec<TargetEntry>>,
    cscan_stl: &Vec<SubplanColumn>,
    needed: &Vec<ChainSig>,
)
    ensures
        stack_view(final(ancestors)@) == propagated(
            stack_view(old(ancestors)@),
            columns(cscan_stl@),
            sig_set(needed@),
            cscan_stl@.len() as int,
        ),
{
    let ghost orig = stack_view(ancestors@);
    let ghost stl = columns(cscan_stl@);
    let mut i: usize = 0;
    while i < cscan_stl.len()
        invariant
            i <= cscan_stl.len(),
            stl == columns(cscan_stl@),
            stack_view(ancestors@) == propagated(orig, stl, sig_set(needed@), i as int),
        decreases cscan_stl.len() - i,
    {
        assert(stl[i as int] == cscan_stl@[i as int].view());
        match &cscan_stl[i] {
            SubplanColumn::Synthetic { path, target_kind, forwarder_resno, .. } => {
                if has_signature(needed, path, *target_kind) {
                    lift_column(ancestors, *forwarder_resno, *target_kind);
                }
            },
            _ => {},
        }
        i += 1;
    }
}

// ---------------------------------------------------------------------------
// Rewriting
// ---------------------------------------------------------------------------

/// A relation of the plan's range table, with the extractions configured for
/// it and whether every compressed partition of it holds them.
pub struct RelInfo {
    pub relid: u32,
    pub specs: Vec<ExtractSpec>,
    pub extract_safe: bool,
    pub atts: Vec<Attribute>,
}

/// Every extraction of every relation has a path.
pub open spec fn rtable_ok(rtable: Seq<RelInfo>) -> bool {
    forall|i: int| 0 <= i < rtable.len() ==> paths_given((#[trigger] rtable[i]).specs@)
}

/// Whether some extraction has a signature that is needed.
pub open spec fn some_spec_needed(specs: Seq<ExtractSpec>, needed: Sigs) -> bool {
    exists|i: int|
        0 <= i < specs.len() && needed.contains(
            (crate::text::texts((#[trigger] specs[i]).path@), specs[i].target_kind),
        )
}

/// Whether a custom scan is one of the extension's row scans.
pub open spec fn is_row_scan(name: ScanName) -> bool {
    name == ScanName::Decompress || name == ScanName::Append
}

/// Whether a scan's extracted columns are used: it is a row scan of a relation
/// with extractions that all compressed partitions hold, and a chain of the
/// plan has the signature of one.
pub open spec fn scan_serves(p: PlanTree, rtable: Seq<RelInfo>, needed: Sigs) -> bool {
    &&& is_row_scan(p.scan_name)
    &&& 1 <= p.scanrelid <= rtable.len()
    &&& rtable[p.scanrelid - 1].relid != INVALID_OID
    &&& some_spec_needed(rtable[p.scanrelid - 1].specs@, needed)
    &&& rtable[p.scanrelid - 1].extract_safe
}

/// A scan that serves extracted columns.
pub open spec fn served_scan(p: PlanTree, rel: RelInfo, needed: Sigs) -> PlanTree {
    let cst = custom_scan_targets(p.scanrelid as i32, rel.atts@, rel.specs@);
    PlanTree {
        custom_scan_tlist: cst,
        targetlist: extended(p.targetlist, cst, needed),
        qual: rewritten_list(Rule::Scan(scan_synths(cst, cst.len() as int)), p.qual),
        ..p
    }
}

/// A custom scan after rewriting, and what it provides.
pub open spec fn rewritten_scan(p: PlanTree, rtable: Seq<RelInfo>, needed: Sigs) -> (
    PlanTree,
    Seq<Column>,
) {
    if scan_serves(p, rtable, needed) {
        let rel = rtable[p.scanrelid - 1];
        let cst = custom_scan_targets(p.scanrelid as i32, rel.atts@, rel.specs@);
        if cst.len() == 0 {
            (p, Seq::empty())
        } else {
            let q = served_scan(p, rel, needed);
            (q, q.targetlist.map_values(|t: Target| scan_column(t, cst)))
        }
    } else {
        (p, Seq::empty())
    }
}

/// A plan with the chains over its child's columns replaced.
pub open spec fn substituted(p: PlanTree, stl: Seq<Column>) -> PlanTree {
    PlanTree {
        targetlist: p.targetlist.map_values(
            |t: Target| Target { expr: rewritten(Rule::Child(stl), t.expr), ..t },
        ),
        qual: rewritten_list(Rule::Child(stl), p.qual),
        run_condition: if p.kind == PlanKind::WindowAgg {
            rewritten_list(Rule::Child(stl), p.run_condition)
        } else {
            p.run_condition
        },
        ..p
    }
}

/// A plan after its children were rewritten: its target list may have grown,
/// and chains over what the children provide are replaced.
pub open spec fn finished(p: PlanTree, stl: Seq<Column>) -> PlanTree {
    if any_synthetic(stl) {
        substituted(p, stl)
    } else {
        p
    }
}

/// A plan after rewriting, its ancestors' target lists, and what it provides.
/// The outer side of a join is rewritten, the inner side is not.
pub open spec fn rewritten_plan(
    p: PlanTree,
    stack: Seq<Seq<Target>>,
    rtable: Seq<RelInfo>,
    needed: Sigs,
) -> (PlanTree, Seq<Seq<Target>>, Seq<Column>)
    decreases p, 0int,
{
    if p.kind == PlanKind::CustomScan {
        let (q, stl) = rewritten_scan(p, rtable, needed);
        (q, propagated(stack, stl, needed, stl.len() as int), stl)
    } else {
        let own = stack.push(p.targetlist);
        if is_append(p.kind) {
            let (children, below, stl) = rewritten_children(
                p.children,
                p.children.len() as int,
                own,
                rtable,
                needed,
            );
            let q = finished(PlanTree { targetlist: below.last(), children, ..p }, stl);
            (q, below.drop_last(), plan_columns(q.targetlist, stl))
        } else {
            match p.left {
                Some(b) => {
                    let (left, below, stl) = rewritten_plan(*b, own, rtable, needed);
                    let q = finished(
                        PlanTree { targetlist: below.last(), left: Some(Box::new(left)), ..p },
                        stl,
                    );
                    (q, below.drop_last(), plan_columns(q.targetlist, stl))
                },
                None => (p, stack, plan_columns(p.targetlist, Seq::empty())),
            }
        }
    }
}

/// The first `n` children of an append after rewriting, their ancestors'
/// target lists, and what all of them provide.
pub open spec fn rewritten_children(
    children: Seq<PlanTree>,
    n: int,
    stack: Seq<Seq<Target>>,
    rtable: Seq<RelInfo>,
    needed: Sigs,
) -> (Seq<PlanTree>, Seq<Seq<Target>>, Seq<Column>)
    decreases children, n,
{
    if n <= 0 || n > children.len() {
        (Seq::empty(), stack, Seq::empty())
    } else {
        let (done, above, provided) = rewritten_children(children, n - 1, stack, rtable, needed);
        let (q, below, stl) = rewritten_plan(children[n - 1], above, rtable, needed);
        (
            done.push(q),
            below,
            if n == 1 {
                stl
            } else {
                common_columns(provided, stl)
            },
        )
    }
}

/// Rewriting keeps the number of ancestors.
proof fn lemma_rewritten_plan_stack(
    p: PlanTree,
    stack: Seq<Seq<Target>>,
    rtable: Seq<RelInfo>,
    needed: Sigs,
)
    ensures
        rewritten_plan(p, stack, rtable, needed).1.len() == stack.len(),
    decreases p, 0int,
{
    if p.kind == PlanKind::CustomScan {
        let (q, stl) = rewritten_scan(p, rtable, needed);
        lemma_propagated_len(stack, stl, needed, stl.len() as int);
    } else {
        let own = stack.push(p.targetlist);
        if is_append(p.kind) {
            lemma_rewritten_children_stack(
                p.children,
                p.children.len() as int,
                own,
                rtable,
                needed,
            );
        } else {
            match p.left {
                Some(b) => lemma_rewritten_plan_stack(*b, own, rtable, needed),
                None => {},
            }
        }
    }
}

proof fn lemma_rewritten_children_stack(
    children: Seq<PlanTree>,
    n: int,
    stack: Seq<Seq<Target>>,
    rtable: Seq<RelInfo>,
    needed: Sigs,
)
    ensures
        rewritten_children(children, n, stack, rtable, needed).1.len() == stack.len(),
    decreases children, n,
{
    if 0 < n <= children.len() {
        lemma_rewritten_children_stack(children, n - 1, stack, rtable, needed);
        let above = rewritten_children(children, n - 1, stack, rtable, needed).1;
        lemma_rewritten_plan_stack(children[n - 1], above, rtable, needed);
    }
}

/// Whether some extraction has a signature that is needed.
fn check_specs_needed(specs: &Vec<ExtractSpec>, needed: &Vec<ChainSig>) -> (r: bool)
    ensures
        r == some_spec_needed(specs@, sig_set(needed@)),
{
    let mut i: usize = 0;
    while i < specs.len()
        invariant
            i <= specs.len(),
            forall|j: int|
                0 <= j < i ==> !sig_set(needed@).contains(
                    (crate::text::texts((#[trigger] specs@[j]).path@), specs@[j].target_kind),
                ),
        decreases specs.len() - i,
    {
        if has_signature(needed, &specs[i].path, specs[i].target_kind) {
            assert(sig_set(needed@).contains(
                (crate::text::texts(specs@[i as int].path@), specs@[i as int].target_kind),
            ));
            return true;
        }
        i += 1;
    }
    false
}

/// Rewrites a custom scan. Returns it with what it provides.
fn rewrite_scan(plan: Plan, rtable: &Vec<RelInfo>, needed: &Vec<ChainSig>) -> (r: (
    Plan,
    Vec<SubplanColumn>,
))
    requires
        rtable_ok(rtable@),
    ensures
        (r.0.view(), columns(r.1@)) == rewritten_scan(plan.view(), rtable@, sig_set(needed@)),
{
    broadcast use lemma_plan_view;

    let ghost sigs = sig_set(needed@);
    let ghost tree = plan.view();
    let nothing: Vec<SubplanColumn> = Vec::new();
    assert(columns(nothing@) =~= Seq::<Column>::empty());
    let row_scan = plan.scan_name == ScanName::Decompress || plan.scan_name == ScanName::Append;
    if !row_scan || plan.scanrelid == 0 || plan.scanrelid as usize > rtable.len() {
        return (plan, nothing);
    }
    let rel = &rtable[plan.scanrelid as usize - 1];
    if rel.relid == INVALID_OID || !check_specs_needed(&rel.specs, needed) || !rel.extract_safe {
        return (plan, nothing);
    }
    let rti: i32 = #[verifier::truncate]
    (plan.scanrelid as i32);
    let cstlist = build_custom_scan_tlist(rti, &rel.atts, &rel.specs);
    if cstlist.len() == 0 {
        assert(targets(cstlist@).len() == 0);
        return (plan, nothing);
    }
    assert(targets(cstlist@).len() > 0);
    let (targetlist, _) = extend_scan_targetlist_with_forwarders(
        &plan.targetlist,
        &cstlist,
        needed,
    );
    let qual = rewrite_scan_qual_chains(&plan.qual, &cstlist);
    let stl = build_subplan_tlist_from_scan_targetlist(&targetlist, &cstlist);
    let q = Plan {
        ident: plan.ident,
        kind: plan.kind,
        targetlist,
        qual,
        run_condition: plan.run_condition,
        key_cols: plan.key_cols,
        lefttree: plan.lefttree,
        righttree: plan.righttree,
        children: plan.children,
        scan_name: plan.scan_name,
        scanrelid: plan.scanrelid,
        custom_private: plan.custom_private,
        custom_scan_tlist: cstlist,
    };
    assert(q.view() == served_scan(tree, *rel, sigs));
    (q, stl)
}

/// Replaces the chains in the entries of a target list.
fn substitute_chains_in_tlist(tlist: &Vec<TargetEntry>, stl: &Vec<SubplanColumn>) -> (r: Vec<
    TargetEntry,
>)
    ensures
        targets(r@) == targets(tlist@).map_values(
            |t: Target| Target { expr: rewritten(Rule::Child(columns(stl@)), t.expr), ..t },
        ),
{
    let mut out: Vec<TargetEntry> = Vec::new();
    let mut i: usize = 0;
    while i < tlist.len()
        invariant
            i <= tlist.len(),
            out.len() == i,
            forall|j: int|
                0 <= j < i ==> (#[trigger] out@[j]).view() == (Target {
                    expr: rewritten(Rule::Child(columns(stl@)), targets(tlist@)[j].expr),
                    ..targets(tlist@)[j]
                }),
        decreases tlist.len() - i,
    {
        let t = &tlist[i];
        assert(targets(tlist@)[i as int] == t.view());
        let expr = rewrite_walker(&t.expr, &Rewrite::Child(stl));
        let entry = TargetEntry {
            expr,
            resno: t.resno,
            resname: crate::text::dup_opt_text(&t.resname),
            resjunk: t.resjunk,
        };
        out.push(entry);
        i += 1;
    }
    assert(targets(out@) =~= targets(tlist@).map_values(
        |t: Target| Target { expr: rewritten(Rule::Child(columns(stl@)), t.expr), ..t },
    ));
    out
}

/// Replaces the chains over what a plan's child provides in the plan's own
/// expressions.
fn substitute_chains_in_plan(plan: Plan, stl: &Vec<SubplanColumn>) -> (r: Plan)
    ensures
        r.view() == finished(plan.view(), columns(stl@)),
{
    broadcast use lemma_plan_view;

    if !has_any_synthetic(stl) {
        return plan;
    }
    let ghost tree = plan.view();
    let targetlist = substitute_chains_in_tlist(&plan.targetlist, stl);
    let qual = rewrite_list(&plan.qual, &Rewrite::Child(stl));
    let run_condition = if plan.kind == PlanKind::WindowAgg {
        rewrite_list(&plan.run_condition, &Rewrite::Child(stl))
    } else {
        plan.run_condition
    };
    let q = Plan {
        ident: plan.ident,
        kind: plan.kind,
        targetlist,
        qual,
        run_condition,
        key_cols: plan.key_cols,
        lefttree: plan.lefttree,
        righttree: plan.righttree,
        children: plan.children,
        scan_name: plan.scan_name,
        scanrelid: plan.scanrelid,
        custom_private: plan.custom_private,
        custom_scan_tlist: plan.custom_scan_tlist,
    };
    assert(q.view() == substituted(tree, columns(stl@)));
    q
}

/// Rewrites a plan below the ancestors whose target lists are `stack`. Returns
/// it with what it provides.
fn rewrite_plan_subtree(
    plan: Plan,
    stack: &mut Vec<Vec<TargetEntry>>,
    rtable: &Vec<RelInfo>,
    needed: &Vec<ChainSig>,
) -> (r: (Plan, Vec<SubplanColumn>))
    requires
        rtable_ok(rtable@),
    ensures
        (r.0.view(), stack_view(final(stack)@), columns(r.1@)) == rewritten_plan(
            plan.view(),
            stack_view(old(stack)@),
            rtable@,
            sig_set(needed@),
        ),
    decreases plan,
{
    broadcast use lemma_plan_view;

    let ghost sigs = sig_set(needed@);
    let ghost tree = plan.view();
    let ghost above = stack_view(stack@);
    if plan.kind == PlanKind::CustomScan {
        let (q, stl) = rewrite_scan(plan, rtable, needed);
        propagate_synthetics_through_ancestors(stack, &stl, needed);
        return (q, stl);
    }
    if !is_append_kind(plan.kind) && plan.lefttree.is_none() {
        let stl: Vec<SubplanColumn> = Vec::new();
        assert(columns(stl@) =~= Seq::<Column>::empty());
        let mine = compute_my_subplan_tlist(&plan.targetlist, &stl);
        return (plan, mine);
    }
    let ghost own = above.push(tree.targetlist);
    let ghost before = stack@;
    stack.push(plan.targetlist);
    assert(stack_view(stack@) =~= own);
    let mut children = plan.children;
    let mut lefttree = plan.lefttree;
    let mut stl: Vec<SubplanColumn> = Vec::new();
    if is_append_kind(plan.kind) {
        let ghost all = plan.children;
        let ghost all_trees = trees(all@);
        let mut done: Vec<Plan> = Vec::new();
        let mut rest: Vec<Plan> = children;
        let mut count: usize = 0;
        assert(trees(done@) =~= Seq::<PlanTree>::empty());
        assert(columns(stl@) =~= Seq::<Column>::empty());
        assert(rest@ =~= all@.subrange(0, all@.len() as int));
        while rest.len() > 0
            invariant
                count + rest@.len() == all.len(),
                rest@ == all@.subrange(count as int, all@.len() as int),
                all == plan.children,
                all_trees == trees(all@),
                rtable_ok(rtable@),
                sigs == sig_set(needed@),
                (trees(done@), stack_view(stack@), columns(stl@)) == rewritten_children(
                    all_trees,
                    count as int,
                    own,
                    rtable@,
                    sigs,
                ),
            decreases rest.len(),
        {
            let ghost rest_before = rest@;
            let ghost done_before = done@;
            let child = rest.remove(0);
            assert(child == all@[count as int]);
            assert(all_trees[count as int] == child.view());
            let (q, provided) = rewrite_plan_subtree(child, stack, rtable, needed);
            done.push(q);
            stl = if count == 0 {
                provided
            } else {
                intersect_subplan_tlists(&stl, &provided)
            };
            count += 1;
            assert(rest@ =~= all@.subrange(count as int, all@.len() as int));
            assert(trees(done@) =~= trees(done_before).push(q.view()));
        }
        children = done;
    } else {
        match lefttree {
            Some(b) => {
                let (q, provided) = rewrite_plan_subtree(*b, stack, rtable, needed);
                lefttree = Some(Box::new(q));
                stl = provided;
            },
            None => {
                lefttree = None;
            },
        }
    }
    let ghost below = stack_view(stack@);
    proof {
        if is_append(tree.kind) {
            lemma_rewritten_children_stack(
                tree.children,
                tree.children.len() as int,
                own,
                rtable@,
                sigs,
            );
        } else {
            lemma_rewritten_plan_stack(*tree.left->0, own, rtable@, sigs);
        }
    }
    assert(below.len() == above.len() + 1);
    let targetlist = match stack.pop() {
        Some(t) => t,
        None => Vec::new(),
    };
    assert(stack_view(stack@) =~= below.drop_last());
    assert(targets(targetlist@) =~= below.last());
    let q = Plan {
        ident: plan.ident,
        kind: plan.kind,
        targetlist,
        qual: plan.qual,
        run_condition: plan.run_condition,
        key_cols: plan.key_cols,
        lefttree,
        righttree: plan.righttree,
        children,
        scan_name: plan.scan_name,
        scanrelid: plan.scanrelid,
        custom_private: plan.custom_private,
        custom_scan_tlist: plan.custom_scan_tlist,
    };
    let r = substitute_chains_in_plan(q, &stl);
    let mine = compute_my_subplan_tlist(&r.targetlist, &stl);
    (r, mine)
}

/// A whole plan after rewriting: the chains above its scans replaced, and its
/// scans told what to load. Nothing changes where extraction is switched off.
pub open spec fn rewritten_tree(p: PlanTree, rtable: Seq<RelInfo>, enabled: bool) -> PlanTree {
    if enabled {
        let q = rewritten_plan(p, Seq::empty(), rtable, plan_sigs(p)).0;
        pruned(q, all_positions(q.targetlist.len()))
    } else {
        p
    }
}

/// Rewrites a finished plan to read extracted columns.
pub fn rewrite_plan_tree(plan: Plan, rtable: &Vec<RelInfo>, enabled: bool) -> (r: Plan)
    requires
        rtable_ok(rtable@),
    ensures
        r.view() == rewritten_tree(plan.view(), rtable@, enabled),
{
    if !enabled {
        return plan;
    }
    let ghost tree = plan.view();
    let mut needed: Vec<ChainSig> = Vec::new();
    collect_chain_signatures_in_plan(&plan, &mut needed);
    assert(sig_set(needed@) =~= plan_sigs(tree)) by {
        assert forall|s: (Seq<Seq<char>>, ColumnKind)| #[trigger]
            sig_set(needed@).contains(s) == plan_sigs(tree).contains(s) by {
            assert(listed(needed@, s.0, s.1) <==> plan_mentions(tree, s.0, s.1));
        }
    }
    let mut stack: Vec<Vec<TargetEntry>> = Vec::new();
    assert(stack_view(stack@) =~= Seq::<Seq<Target>>::empty());
    let (q, _) = rewrite_plan_subtree(plan, &mut stack, rtable, &needed);
    prune_cscans_by_ref_count(q)
}

} // verus!
