//! Time ranges of a query, and whether metadata alone can answer it.

use vstd::prelude::*;
use crate::pg_types::{
    is_float_oid, is_float_type, is_integer_oid, is_integer_type, is_temporal_oid, is_temporal_type,
    DATEOID,
};
use crate::scan::catalog::Relation;
use crate::scan::json_extract::unwrap_relabel;
use crate::scan::node::{exprs, group_node, unrelabel, BoolOp, Const, Expr, Head, Node, OpName, Var};
use crate::text::{holds_text, text_is, texts};

verus! {

/// Whether a segment's metadata holds the extremes of a column of this type.
pub open spec fn minmax_meta_type(t: u32) -> bool {
    is_integer_oid(t) || is_float_oid(t) || is_temporal_oid(t)
}

/// Whether a segment's metadata holds the extremes of a column of this type.
pub fn is_minmax_meta_type(col_type_oid: u32) -> (r: bool)
    ensures
        r == minmax_meta_type(col_type_oid),
{
    is_integer_type(col_type_oid) || is_float_type(col_type_oid) || is_temporal_type(col_type_oid)
}

/// Half-open range of times in microseconds: from `lo`, up to but without `hi`.
#[derive(Clone, Copy, Debug, PartialEq, Eq, Structural)]
pub struct TimeBounds {
    pub lo: Option<i64>,
    pub hi: Option<i64>,
}

impl Default for TimeBounds {
    fn default() -> (r: TimeBounds)
        ensures
            r == unbounded(),
    {
        TimeBounds { lo: None, hi: None }
    }
}

pub open spec fn unbounded() -> TimeBounds {
    TimeBounds { lo: None, hi: None }
}

impl TimeBounds {
    /// Whether a time lies in the range.
    pub open spec fn holds(self, t: int) -> bool {
        &&& self.lo matches Some(l) ==> l <= t
        &&& self.hi matches Some(h) ==> t < h
    }

    pub open spec fn with_lo(self, v: i64) -> TimeBounds {
        TimeBounds {
            lo: Some(
                match self.lo {
                    Some(l) => if l >= v {
                        l
                    } else {
                        v
                    },
                    None => v,
                },
            ),
            hi: self.hi,
        }
    }

    pub open spec fn with_hi(self, v: i64) -> TimeBounds {
        TimeBounds {
            lo: self.lo,
            hi: Some(
                match self.hi {
                    Some(h) => if h <= v {
                        h
                    } else {
                        v
                    },
                    None => v,
                },
            ),
        }
    }

    /// Leaves out the times before `v`.
    pub fn narrow_lo(&mut self, v: i64)
        ensures
            *final(self) == old(self).with_lo(v),
            forall|t: int| #[trigger] final(self).holds(t) <==> old(self).holds(t) && v <= t,
    {
        self.lo =
        Some(
            match self.lo {
                Some(l) => if l >= v {
                    l
                } else {
                    v
                },
                None => v,
            },
        );
    }

    /// Leaves out the times from `v` on.
    pub fn narrow_hi(&mut self, v: i64)
        ensures
            *final(self) == old(self).with_hi(v),
            forall|t: int| #[trigger] final(self).holds(t) <==> old(self).holds(t) && t < v,
    {
        self.hi =
        Some(
            match self.hi {
                Some(h) => if h <= v {
                    h
                } else {
                    v
                },
                None => v,
            },
        );
    }

    /// Whether anything is left out.
    pub fn any(&self) -> (r: bool)
        ensures
            r == (self.lo is Some || self.hi is Some),
    {
        self.lo.is_some() || self.hi.is_some()
    }
}

/// What one comparison says.
pub enum Leaf {
    /// A condition on a column that segments are split by.
    Segment,
    /// The time is at least this.
    From(i64),
    /// The time is less than this.
    Before(i64),
}

/// Microseconds in a day.
pub const USEC_PER_DAY: i64 = 86_400_000_000;

/// A time constant in microseconds; a date counts days.
pub open spec fn time_value(c: Const) -> i64 {
    if c.consttype == DATEOID {
        (c.word as i32 as i64).wrapping_mul(USEC_PER_DAY)
    } else {
        c.word
    }
}

/// The operator with its operands exchanged.
pub open spec fn commuted(op: OpName) -> OpName {
    match op {
        OpName::Lt => OpName::Gt,
        OpName::Le => OpName::Ge,
        OpName::Gt => OpName::Lt,
        OpName::Ge => OpName::Le,
        _ => op,
    }
}

/// The column and the constant of a comparison, and the operator as it reads
/// with the column on the left.
pub open spec fn comparison(e: Expr) -> Option<(Var, Const, OpName)> {
    match e.head {
        Head::OpExpr(op) => if e.args.len() == 2 {
            match (unrelabel(e.args[0]).head, unrelabel(e.args[1]).head) {
                (Head::Var(v), Head::Const(c)) => Some((v, c, op.name)),
                (Head::Const(c), Head::Var(v)) => Some((v, c, commuted(op.name))),
                _ => None,
            }
        } else {
            None
        },
        _ => None,
    }
}

/// The microsecond after `v`; the last one stays as it is.
pub open spec fn next_time(v: i64) -> i64 {
    if v < i64::MAX {
        (v + 1) as i64
    } else {
        v
    }
}

/// A range condition on the time column.
pub open spec fn time_leaf(c: Const, op: OpName) -> Option<Leaf> {
    if c.constisnull || !is_temporal_oid(c.consttype) {
        None
    } else {
        let v = time_value(c);
        match op {
            OpName::Ge => Some(Leaf::From(v)),
            OpName::Gt => Some(Leaf::From(next_time(v))),
            OpName::Lt => Some(Leaf::Before(v)),
            OpName::Le => Some(Leaf::Before(next_time(v))),
            _ => None,
        }
    }
}

/// What a comparison says of the table `rel`: an equality on a column that
/// segments are split by, or a range of the time column. None for anything
/// else, for which a segment's metadata could count rows that do not qualify.
pub open spec fn meta_leaf(
    e: Expr,
    rel: Relation,
    time_column: Seq<char>,
    segment_by: Seq<Seq<char>>,
) -> Option<Leaf> {
    match comparison(e) {
        Some((v, c, op)) => match rel.name_of(v.varattno) {
            Some(name) => if segment_by.contains(name) {
                if op == OpName::Eq {
                    Some(Leaf::Segment)
                } else {
                    None
                }
            } else if name == time_column {
                time_leaf(c, op)
            } else {
                None
            },
            None => None,
        },
        None => None,
    }
}

/// `b` narrowed by what a comparison says.
pub open spec fn narrowed(b: TimeBounds, l: Leaf) -> TimeBounds {
    match l {
        Leaf::Segment => b,
        Leaf::From(v) => b.with_lo(v),
        Leaf::Before(v) => b.with_hi(v),
    }
}

/// `b` narrowed by a condition: a comparison, or an AND of conditions.
pub open spec fn meta_bounds(
    e: Expr,
    rel: Relation,
    time_column: Seq<char>,
    segment_by: Seq<Seq<char>>,
    b: TimeBounds,
) -> Option<TimeBounds>
    decreases e, 0int,
{
    match e.head {
        Head::BoolExpr(op) => if op == BoolOp::And && e.args.len() > 0 {
            meta_bounds_list(e.args, rel, time_column, segment_by, b, e.args.len() as int)
        } else {
            None
        },
        _ => match meta_leaf(e, rel, time_column, segment_by) {
            Some(l) => Some(narrowed(b, l)),
            None => None,
        },
    }
}

/// `b` narrowed by the first `n` conditions of a list.
pub open spec fn meta_bounds_list(
    s: Seq<Expr>,
    rel: Relation,
    time_column: Seq<char>,
    segment_by: Seq<Seq<char>>,
    b: TimeBounds,
    n: int,
) -> Option<TimeBounds>
    decreases s, n,
{
    if n <= 0 || n > s.len() {
        Some(b)
    } else {
        match meta_bounds_list(s, rel, time_column, segment_by, b, n - 1) {
            Some(c) => meta_bounds(s[n - 1], rel, time_column, segment_by, c),
            None => None,
        }
    }
}

fn classify_leaf(node: &Node, rel: &Relation, time_column: &str, segment_by: &Vec<String>) -> (r:
    Option<Leaf>)
    ensures
        r == meta_leaf(node.view(), *rel, time_column@, texts(segment_by@)),
{
    broadcast use group_node;

    let op_name = match &node.head {
        Head::OpExpr(op) => op.name,
        _ => {
            return None;
        },
    };
    if node.args.len() != 2 {
        return None;
    }
    let a0 = match unwrap_relabel(&node.args[0]) {
        Some(n) => n,
        None => {
            return None;
        },
    };
    let a1 = match unwrap_relabel(&node.args[1]) {
        Some(n) => n,
        None => {
            return None;
        },
    };
    let (v, c, op) = match (&a0.head, &a1.head) {
        (Head::Var(v), Head::Const(c)) => (*v, c, op_name),
        (Head::Const(c), Head::Var(v)) => (
            *v,
            c,
            match op_name {
                OpName::Lt => OpName::Gt,
                OpName::Le => OpName::Ge,
                OpName::Gt => OpName::Lt,
                OpName::Ge => OpName::Le,
                other => other,
            },
        ),
        _ => {
            return None;
        },
    };
    assert(comparison(node.view()) == Some((v, *c, op)));
    let name = match rel.column_name(v.varattno) {
        Some(n) => n,
        None => {
            return None;
        },
    };
    if holds_text(segment_by, name.as_str()) {
        if op == OpName::Eq {
            return Some(Leaf::Segment);
        }
        return None;
    }
    if !text_is(name.as_str(), time_column) || c.constisnull || !is_temporal_type(c.consttype) {
        return None;
    }
    let t: i64 = if c.consttype == DATEOID {
        let days: i32 = #[verifier::truncate]
        (c.word as i32);
        (days as i64).wrapping_mul(USEC_PER_DAY)
    } else {
        c.word
    };
    let next: i64 = if t < i64::MAX {
        t + 1
    } else {
        i64::MAX
    };
    match op {
        OpName::Ge => Some(Leaf::From(t)),
        OpName::Gt => Some(Leaf::From(next)),
        OpName::Lt => Some(Leaf::Before(t)),
        OpName::Le => Some(Leaf::Before(next)),
        _ => None,
    }
}

proof fn lemma_meta_list_none(
    s: Seq<Expr>,
    rel: Relation,
    tc: Seq<char>,
    sb: Seq<Seq<char>>,
    b: TimeBounds,
    k: int,
    n: int,
)
    requires
        0 <= k <= n <= s.len(),
        meta_bounds_list(s, rel, tc, sb, b, k) is None,
    ensures
        meta_bounds_list(s, rel, tc, sb, b, n) is None,
    decreases n,
{
    if k < n {
        lemma_meta_list_none(s, rel, tc, sb, b, k, n - 1);
    }
}

/// Narrows `bounds` by a condition; none where metadata cannot answer it.
pub fn classify_meta_qual_node(
    node: &Node,
    rel: &Relation,
    time_column: &str,
    segment_by: &Vec<String>,
    bounds: TimeBounds,
) -> (r: Option<TimeBounds>)
    ensures
        r == meta_bounds(node.view(), *rel, time_column@, texts(segment_by@), bounds),
    decreases node,
{
    broadcast use group_node;

    let ghost e = node.view();
    let ghost tc = time_column@;
    let ghost sb = texts(segment_by@);
    match &node.head {
        Head::BoolExpr(op) => {
            if *op != BoolOp::And || node.args.len() == 0 {
                return None;
            }
            let mut b = bounds;
            let mut i: usize = 0;
            while i < node.args.len()
                invariant
                    i <= node.args.len(),
                    e == node.view(),
                    e.args == exprs(node.args@),
                    e.head == Head::BoolExpr(BoolOp::And),
                    tc == time_column@,
                    sb == texts(segment_by@),
                    meta_bounds_list(e.args, *rel, tc, sb, bounds, i as int) == Some(b),
                decreases node.args.len() - i,
            {
                assert(e.args[i as int] == node.args@[i as int].view());
                match classify_meta_qual_node(&node.args[i], rel, time_column, segment_by, b) {
                    Some(c) => {
                        b = c;
                    },
                    None => {
                        proof {
                            lemma_meta_list_none(
                                e.args,
                                *rel,
                                tc,
                                sb,
                                bounds,
                                i + 1,
                                e.args.len() as int,
                            );
                        }
                        return None;
                    },
                }
                i += 1;
            }
            Some(b)
        },
        _ => {
            match classify_leaf(node, rel, time_column, segment_by) {
                Some(Leaf::Segment) => Some(bounds),
                Some(Leaf::From(v)) => {
                    let mut b = bounds;
                    b.narrow_lo(v);
                    Some(b)
                },
                Some(Leaf::Before(v)) => {
                    let mut b = bounds;
                    b.narrow_hi(v);
                    Some(b)
                },
                None => None,
            }
        },
    }
}

/// The range of times that the conditions of a query allow; none where metadata
/// cannot answer one of them.
pub fn classify_meta_quals(
    quals: &Vec<Node>,
    rel: &Relation,
    time_column: &str,
    segment_by: &Vec<String>,
) -> (r: Option<TimeBounds>)
    ensures
        r == meta_bounds_list(
            exprs(quals@),
            *rel,
            time_column@,
            texts(segment_by@),
            unbounded(),
            quals@.len() as int,
        ),
{
    broadcast use group_node;

    let ghost es = exprs(quals@);
    let ghost tc = time_column@;
    let ghost sb = texts(segment_by@);
    let mut b = TimeBounds { lo: None, hi: None };
    let mut i: usize = 0;
    while i < quals.len()
        invariant
            i <= quals.len(),
            es == exprs(quals@),
            tc == time_column@,
            sb == texts(segment_by@),
            meta_bounds_list(es, *rel, tc, sb, unbounded(), i as int) == Some(b),
        decreases quals.len() - i,
    {
        assert(es[i as int] == quals@[i as int].view());
        match classify_meta_qual_node(&quals[i], rel, time_column, segment_by, b) {
            Some(c) => {
                b = c;
            },
            None => {
                proof {
                    lemma_meta_list_none(es, *rel, tc, sb, unbounded(), i + 1, es.len() as int);
                }
                return None;
            },
        }
        i += 1;
    }
    Some(b)
}

/// Whether a range of times lies within the bounds.
pub open spec fn contained(b: TimeBounds, range: (i64, i64)) -> bool {
    &&& b.lo matches Some(l) ==> l <= range.0
    &&& b.hi matches Some(h) ==> range.1 <= h
}

pub open spec fn all_contained(b: TimeBounds, ranges: Seq<(i64, i64)>) -> bool {
    forall|i: int| 0 <= i < ranges.len() ==> contained(b, #[trigger] ranges[i])
}

/// Whether every partition's range of times lies within the bounds. `ranges` is
/// what the catalog knows of the `partitions` partitions, none where it could
/// not be asked; a gap counts as no.
pub fn partitions_contain_time_range(
    bounds: &TimeBounds,
    partitions: usize,
    ranges: &Option<Vec<(i64, i64)>>,
) -> (r: bool)
    ensures
        r == ((bounds.lo is None && bounds.hi is None) || (*ranges matches Some(v) && v@.len()
            == partitions && all_contained(*bounds, v@))),
{
    if !bounds.any() {
        return true;
    }
    let v = match ranges {
        Some(v) => v,
        None => {
            return false;
        },
    };
    if v.len() != partitions {
        return false;
    }
    let mut i: usize = 0;
    while i < v.len()
        invariant
            i <= v.len(),
            *ranges == Some(*v),
            bounds.lo is Some || bounds.hi is Some,
            forall|j: int| 0 <= j < i ==> contained(*bounds, #[trigger] v@[j]),
        decreases v.len() - i,
    {
        let (start, end) = v[i];
        let lo_ok = match bounds.lo {
            Some(l) => l <= start,
            None => true,
        };
        let hi_ok = match bounds.hi {
            Some(h) => end <= h,
            None => true,
        };
        if !lo_ok || !hi_ok {
            assert(!contained(*bounds, v@[i as int]));
            return false;
        }
        i += 1;
    }
    true
}

/// Every time of a contained partition qualifies: a segment's metadata counts
/// no row that the query leaves out.
pub proof fn lemma_contained_rows_qualify(b: TimeBounds, range: (i64, i64), t: int)
    requires
        contained(b, range),
        range.0 <= t < range.1,
    ensures
        b.holds(t),
{
}

/// Whether time `t` meets a comparison of the time column.
pub open spec fn meets(t: int, op: OpName, v: i64) -> bool {
    match op {
        OpName::Lt => t < v,
        OpName::Le => t <= v,
        OpName::Gt => t > v,
        OpName::Ge => t >= v,
        _ => false,
    }
}

/// A range condition narrows the bounds to exactly the times that meet it,
/// unless its constant is the last time of all.
pub proof fn lemma_time_leaf_exact(b: TimeBounds, c: Const, op: OpName, t: int)
    requires
        time_leaf(c, op) is Some,
        time_value(c) < i64::MAX,
    ensures
        narrowed(b, time_leaf(c, op)->0).holds(t) <==> b.holds(t) && meets(t, op, time_value(c)),
{
}

} // verus!
