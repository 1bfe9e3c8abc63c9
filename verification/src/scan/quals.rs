//! The WHERE conditions of a query, as a list whose members all have to hold.

use vstd::prelude::*;
use crate::pg_types::BOOLOID;
use crate::scan::node::{dup_nodes, exprs, group_node, is_null, BoolOp, Expr, Head, Node};

verus! {

/// A condition as a list: the arguments of an AND, nothing for a constant TRUE.
pub open spec fn implicit_ands(e: Expr) -> Seq<Expr> {
    match e.head {
        Head::Null => Seq::empty(),
        Head::List => e.args,
        Head::BoolExpr(op) => if op == BoolOp::And {
            e.args
        } else {
            seq![e]
        },
        Head::Const(c) => if c.consttype == BOOLOID && !c.constisnull && c.word != 0 {
            Seq::empty()
        } else {
            seq![e]
        },
        _ => seq![e],
    }
}

/// A condition as a list.
pub fn make_ands_implicit(node: &Node) -> (r: Vec<Node>)
    ensures
        exprs(r@) == implicit_ands(node.view()),
{
    broadcast use group_node;

    let whole = match &node.head {
        Head::Null => {
            let out: Vec<Node> = Vec::new();
            assert(exprs(out@) =~= Seq::<Expr>::empty());
            return out;
        },
        Head::List => false,
        Head::BoolExpr(op) => *op != BoolOp::And,
        Head::Const(c) => {
            if c.consttype == BOOLOID && !c.constisnull && c.word != 0 {
                let out: Vec<Node> = Vec::new();
                assert(exprs(out@) =~= Seq::<Expr>::empty());
                return out;
            }
            true
        },
        _ => true,
    };
    if whole {
        let mut out: Vec<Node> = Vec::new();
        let n = node.dup();
        out.push(n);
        assert(exprs(out@) =~= seq![node.view()]);
        out
    } else {
        dup_nodes(&node.args)
    }
}

/// The conditions of a list that are there.
pub open spec fn present(s: Seq<Expr>) -> Seq<Expr> {
    s.filter(|e: Expr| !is_null(e))
}

/// Conditions of the relations of a query.
pub open spec fn rel_exprs(rels: Seq<Vec<Node>>) -> Seq<Seq<Expr>> {
    rels.map_values(|v: Vec<Node>| exprs(v@))
}

/// The conditions of the first relation that has any.
pub open spec fn first_conditions(rels: Seq<Seq<Expr>>) -> Seq<Expr>
    decreases rels.len(),
{
    if rels.len() == 0 {
        Seq::empty()
    } else if present(rels[0]).len() > 0 {
        present(rels[0])
    } else {
        first_conditions(rels.drop_first())
    }
}

fn present_nodes(v: &Vec<Node>) -> (r: Vec<Node>)
    ensures
        exprs(r@) == present(exprs(v@)),
{
    broadcast use group_node;

    let ghost es = exprs(v@);
    let ghost f = |e: Expr| !is_null(e);
    let mut out: Vec<Node> = Vec::new();
    let mut i: usize = 0;
    assert(exprs(out@) =~= present(es.subrange(0, 0))) by {
        reveal(Seq::filter);
    }
    while i < v.len()
        invariant
            i <= v.len(),
            es == exprs(v@),
            exprs(out@) == present(es.subrange(0, i as int)),
        decreases v.len() - i,
    {
        let ghost before = out@;
        proof {
            assert(es.subrange(0, i + 1).drop_last() =~= es.subrange(0, i as int));
            assert(es[i as int] == v@[i as int].view());
            reveal(Seq::filter);
        }
        if !v[i].is_null() {
            let n = v[i].dup();
            out.push(n);
            assert(exprs(out@) =~= exprs(before).push(v@[i as int].view()));
        }
        i += 1;
        assert(exprs(out@) == present(es.subrange(0, i as int)));
    }
    assert(es.subrange(0, i as int) =~= es);
    out
}

/// The conditions of the first relation that has any.
pub fn extract_quals_from_baserestrictinfo(rels: &Vec<Vec<Node>>) -> (r: Vec<Node>)
    ensures
        exprs(r@) == first_conditions(rel_exprs(rels@)),
{
    let ghost all = rel_exprs(rels@);
    let mut i: usize = 0;
    assert(all.subrange(0, all.len() as int) =~= all);
    while i < rels.len()
        invariant
            i <= rels.len(),
            all == rel_exprs(rels@),
            first_conditions(all) == first_conditions(all.subrange(i as int, all.len() as int)),
        decreases rels.len() - i,
    {
        let found = present_nodes(&rels[i]);
        let ghost rest = all.subrange(i as int, all.len() as int);
        assert(rest[0] == exprs(rels@[i as int]@));
        assert(rest.drop_first() =~= all.subrange(i + 1, all.len() as int));
        if found.len() > 0 {
            assert(exprs(found@).len() > 0);
            return found;
        }
        assert(exprs(found@).len() == 0);
        i += 1;
    }
    let out: Vec<Node> = Vec::new();
    assert(exprs(out@) =~= Seq::<Expr>::empty());
    assert(all.subrange(i as int, all.len() as int).len() == 0);
    out
}

/// The WHERE conditions of a query: those of its join tree where it has any,
/// else those of the first relation that has any.
pub open spec fn query_conditions(jointree: Expr, rels: Seq<Seq<Expr>>) -> Seq<Expr> {
    if !is_null(jointree) {
        implicit_ands(jointree)
    } else {
        first_conditions(rels)
    }
}

/// The WHERE conditions of a query.
pub fn extract_query_quals(jointree: &Node, rels: &Vec<Vec<Node>>) -> (r: Vec<Node>)
    ensures
        exprs(r@) == query_conditions(jointree.view(), rel_exprs(rels@)),
{
    if !jointree.is_null() {
        make_ands_implicit(jointree)
    } else {
        extract_quals_from_baserestrictinfo(rels)
    }
}

/// The conditions that an aggregate scan checks: those of the join tree, or
/// where these are none, those of the first relation that has any.
pub open spec fn scan_conditions(jointree: Expr, rels: Seq<Seq<Expr>>) -> Seq<Expr> {
    if implicit_ands(jointree).len() > 0 {
        implicit_ands(jointree)
    } else {
        first_conditions(rels)
    }
}

/// The conditions that an aggregate scan checks.
pub fn extract_scan_quals(jointree: &Node, rels: &Vec<Vec<Node>>) -> (r: Vec<Node>)
    ensures
        exprs(r@) == scan_conditions(jointree.view(), rel_exprs(rels@)),
{
    let quals = make_ands_implicit(jointree);
    assert(exprs(quals@).len() == quals@.len());
    if quals.len() > 0 {
        quals
    } else {
        extract_quals_from_baserestrictinfo(rels)
    }
}

/// Whether a query has a WHERE clause.
pub open spec fn query_has_where(jointree: Expr, rels: Seq<Seq<Expr>>) -> bool {
    !is_null(jointree) || exists|i: int| 0 <= i < rels.len() && (#[trigger] rels[i]).len() > 0
}

/// Whether a query has a WHERE clause.
pub fn has_where_clause(jointree: &Node, rels: &Vec<Vec<Node>>) -> (r: bool)
    ensures
        r == query_has_where(jointree.view(), rel_exprs(rels@)),
{
    if !jointree.is_null() {
        return true;
    }
    let mut i: usize = 0;
    while i < rels.len()
        invariant
            i <= rels.len(),
            forall|j: int| 0 <= j < i ==> (#[trigger] rel_exprs(rels@)[j]).len() == 0,
        decreases rels.len() - i,
    {
        assert(rel_exprs(rels@)[i as int].len() == rels@[i as int]@.len());
        if rels[i].len() > 0 {
            return true;
        }
        i += 1;
    }
    false
}

} // verus!
