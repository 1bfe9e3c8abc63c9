//! What the rewriting of finished plans leaves alone.

use vstd::prelude::*;
use crate::scan::json_extract::{Column, Target};
use crate::scan::json_plan::{
    is_append, plan_sigs, rewritten_children, rewritten_plan, rewritten_tree, scan_serves, PlanKind,
    PlanTree, RelInfo,
};
use crate::scan::json_prune::{all_positions, child_refs, is_touched, kept, pruned};
use crate::scan::json_tlist::{any_synthetic, common_columns, plan_columns, Sigs};

verus! {

/// Whether no scan of a plan serves an extracted column, nor did before.
pub open spec fn serves_nothing(p: PlanTree, rtable: Seq<RelInfo>, needed: Sigs) -> bool
    decreases p,
{
    if p.kind == PlanKind::CustomScan {
        !scan_serves(p, rtable, needed) && !is_touched(p)
    } else {
        &&& match p.left {
            Some(b) => serves_nothing(*b, rtable, needed),
            None => true,
        }
        &&& match p.right {
            Some(b) => serves_nothing(*b, rtable, needed),
            None => true,
        }
        &&& forall|i: int|
            0 <= i < p.children.len() ==> serves_nothing(#[trigger] p.children[i], rtable, needed)
    }
}

proof fn lemma_nothing_passed_on(tlist: Seq<Target>, child: Seq<Column>)
    requires
        !any_synthetic(child),
    ensures
        !any_synthetic(plan_columns(tlist, child)),
{
    let mine = plan_columns(tlist, child);
    if any_synthetic(mine) {
        let i = choose|i: int| 0 <= i < mine.len() && (#[trigger] mine[i]) is Synthetic;
        let v = tlist[i].expr.head->Var_0;
        assert(child[v.varattno - 1] is Synthetic);
    }
}

proof fn lemma_nothing_in_common(a: Seq<Column>, b: Seq<Column>)
    requires
        !any_synthetic(a),
    ensures
        !any_synthetic(common_columns(a, b)),
{
    let c = common_columns(a, b);
    if any_synthetic(c) {
        let i = choose|i: int| 0 <= i < c.len() && (#[trigger] c[i]) is Synthetic;
        assert(a[i] is Synthetic);
    }
}

proof fn lemma_plan_untouched(
    p: PlanTree,
    stack: Seq<Seq<Target>>,
    rtable: Seq<RelInfo>,
    needed: Sigs,
)
    requires
        serves_nothing(p, rtable, needed),
    ensures
        ({
            let (q, above, stl) = rewritten_plan(p, stack, rtable, needed);
            q == p && above == stack && !any_synthetic(stl)
        }),
    decreases p, 0int,
{
    if p.kind != PlanKind::CustomScan {
        let own = stack.push(p.targetlist);
        assert(own.drop_last() =~= stack);
        if is_append(p.kind) {
            let n = p.children.len() as int;
            lemma_children_untouched(p.children, n, own, rtable, needed);
            let (children, below, stl) = rewritten_children(p.children, n, own, rtable, needed);
            assert(children =~= p.children);
            lemma_nothing_passed_on(p.targetlist, stl);
        } else {
            match p.left {
                Some(b) => {
                    lemma_plan_untouched(*b, own, rtable, needed);
                    lemma_nothing_passed_on(
                        p.targetlist,
                        rewritten_plan(*b, own, rtable, needed).2,
                    );
                },
                None => {
                    lemma_nothing_passed_on(p.targetlist, Seq::empty());
                },
            }
        }
    }
}

proof fn lemma_children_untouched(
    children: Seq<PlanTree>,
    n: int,
    stack: Seq<Seq<Target>>,
    rtable: Seq<RelInfo>,
    needed: Sigs,
)
    requires
        0 <= n <= children.len(),
        forall|i: int|
            0 <= i < children.len() ==> serves_nothing(#[trigger] children[i], rtable, needed),
    ensures
        ({
            let (q, above, stl) = rewritten_children(children, n, stack, rtable, needed);
            q == children.subrange(0, n) && above == stack && !any_synthetic(stl)
        }),
    decreases children, n,
{
    if n > 0 {
        lemma_children_untouched(children, n - 1, stack, rtable, needed);
        lemma_plan_untouched(children[n - 1], stack, rtable, needed);
        let (done, above, provided) = rewritten_children(children, n - 1, stack, rtable, needed);
        let (q, below, stl) = rewritten_plan(children[n - 1], above, rtable, needed);
        assert(done.push(q) =~= children.subrange(0, n));
        lemma_nothing_in_common(provided, stl);
    } else {
        assert(children.subrange(0, 0) =~= Seq::<PlanTree>::empty());
    }
}

proof fn lemma_kept_untouched(p: PlanTree, rtable: Seq<RelInfo>, needed: Sigs)
    requires
        serves_nothing(p, rtable, needed),
    ensures
        kept(p) == p,
    decreases p,
{
    if p.kind != PlanKind::CustomScan {
        match p.left {
            Some(b) => lemma_kept_untouched(*b, rtable, needed),
            None => {},
        }
        match p.right {
            Some(b) => lemma_kept_untouched(*b, rtable, needed),
            None => {},
        }
        assert forall|i: int| 0 <= i < p.children.len() implies kept(#[trigger] p.children[i])
            == p.children[i] by {
            lemma_kept_untouched(p.children[i], rtable, needed);
        }
        assert(kept(p).children =~= p.children);
    }
}

proof fn lemma_pruned_untouched(
    p: PlanTree,
    refs: Seq<i16>,
    rtable: Seq<RelInfo>,
    needed: Sigs,
)
    requires
        serves_nothing(p, rtable, needed),
    ensures
        pruned(p, refs) == p,
    decreases p,
{
    if p.kind != PlanKind::CustomScan {
        let below = child_refs(p, refs);
        match p.left {
            Some(b) => lemma_pruned_untouched(*b, below, rtable, needed),
            None => {},
        }
        match p.right {
            Some(b) => lemma_kept_untouched(*b, rtable, needed),
            None => {},
        }
        assert forall|i: int| 0 <= i < p.children.len() implies pruned(
            #[trigger] p.children[i],
            below,
        ) == p.children[i] by {
            lemma_pruned_untouched(p.children[i], below, rtable, needed);
        }
        assert(pruned(p, refs).children =~= p.children);
    }
}

/// A plan without a scan that serves an extracted column is left as it is.
pub proof fn lemma_other_plans_untouched(p: PlanTree, rtable: Seq<RelInfo>, enabled: bool)
    requires
        serves_nothing(p, rtable, plan_sigs(p)),
    ensures
        rewritten_tree(p, rtable, enabled) == p,
{
    if enabled {
        lemma_plan_untouched(p, Seq::empty(), rtable, plan_sigs(p));
        lemma_pruned_untouched(p, all_positions(p.targetlist.len()), rtable, plan_sigs(p));
    }
}

} // verus!
