//! Which rows a scan reads, in what order, with how many workers, and how many
//! groups they are taken to fall into.

use vstd::prelude::*;
use vstd::string::*;
use crate::scan::agg_types::{Group, GroupExpr};
use crate::scan::catalog::Relation;
use crate::scan::group_estimate::{
    group_count, group_counts, group_name, grouping_of, combinations, unit_values, GroupedRows,
    Grouping,
};
use crate::scan::hook::{
    companion_oids, compressed_children, largest_count, members_oids, merged_count, order_by_attno,
    parent_of, row_scan_topn, scan_workers, total, AppendRel, InputKind, InputPath, Partition,
    PathKey, RelKind, RelQuery, SortDirection, TopnInfo,
};
use crate::scan::json_extract::AggChainCtx;
use crate::scan::node::{exprs, Expr, Head};
use crate::search::lemma_first_where;

verus! {

// ---------------------------------------------------------------------------
// Partitions
// ---------------------------------------------------------------------------

/// How many rows stand behind metadata tables.
pub open spec fn rows_behind(oids: Seq<u32>, held: spec_fn(u32) -> int) -> int
    decreases oids.len(),
{
    if oids.len() == 0 {
        0
    } else {
        rows_behind(oids.drop_last(), held) + held(oids.last())
    }
}

proof fn lemma_rows_behind(a: Seq<u32>, b: Seq<u32>, held: spec_fn(u32) -> int)
    ensures
        rows_behind(a + b, held) == rows_behind(a, held) + rows_behind(b, held),
    decreases b.len(),
{
    if b.len() == 0 {
        assert(a + b =~= a);
    } else {
        assert((a + b).drop_last() =~= a + b.drop_last());
        lemma_rows_behind(a, b.drop_last(), held);
    }
}

/// How many rows a partition holds: those behind its metadata table, or else
/// those of its heap.
pub open spec fn partition_rows(p: Partition, held: spec_fn(u32) -> int, heap: int) -> int {
    if p.companion != 0 {
        held(p.companion)
    } else {
        heap
    }
}

/// How many rows the partitions of a table hold, among the first `n`.
pub open spec fn parent_rows(
    list: Seq<Partition>,
    parent: u32,
    held: spec_fn(u32) -> int,
    heap: spec_fn(int) -> int,
    n: int,
) -> int
    decreases n,
{
    if n <= 0 {
        0
    } else {
        parent_rows(list, parent, held, heap, n - 1) + if list[n - 1].parent_relid == parent {
            partition_rows(list[n - 1], held, heap(n - 1))
        } else {
            0
        }
    }
}

proof fn lemma_children_rows(
    list: Seq<Partition>,
    parent: u32,
    held: spec_fn(u32) -> int,
    heap: spec_fn(int) -> int,
    n: int,
)
    requires
        0 <= n <= list.len(),
        forall|i: int|
            0 <= i < list.len() && (#[trigger] list[i]).companion == 0 && list[i].known_empty
                ==> heap(i) == 0,
    ensures
        match compressed_children(list, parent, n) {
            Some(oids) => rows_behind(oids, held) == parent_rows(list, parent, held, heap, n)
                && forall|i: int|
                0 <= i < n && (#[trigger] list[i]).parent_relid == parent ==> list[i].companion != 0
                    || list[i].known_empty,
            None => exists|i: int|
                0 <= i < n && (#[trigger] list[i]).parent_relid == parent && list[i].companion == 0
                    && !list[i].known_empty,
        },
    decreases n,
{
    if n > 0 {
        lemma_children_rows(list, parent, held, heap, n - 1);
        let c = list[n - 1];
        match compressed_children(list, parent, n - 1) {
            Some(before) => {
                assert(before.push(c.companion).drop_last() =~= before);
            },
            None => {},
        }
    }
}

/// A table that is scanned as one is read in full, and each of its rows once: as
/// many rows stand behind the metadata tables as its partitions hold. It cannot
/// be scanned as one exactly where a partition that is not compressed may hold
/// rows.
pub proof fn lemma_children_hold_all_rows(
    list: Seq<Partition>,
    parent: u32,
    held: spec_fn(u32) -> int,
    heap: spec_fn(int) -> int,
)
    requires
        forall|i: int|
            0 <= i < list.len() && (#[trigger] list[i]).companion == 0 && list[i].known_empty
                ==> heap(i) == 0,
    ensures
        match compressed_children(list, parent, list.len() as int) {
            Some(oids) => rows_behind(oids, held) == parent_rows(
                list,
                parent,
                held,
                heap,
                list.len() as int,
            ),
            None => exists|i: int|
                0 <= i < list.len() && (#[trigger] list[i]).parent_relid == parent
                    && list[i].companion == 0 && !list[i].known_empty,
        },
        (exists|i: int|
            0 <= i < list.len() && (#[trigger] list[i]).parent_relid == parent && list[i].companion
                == 0 && !list[i].known_empty) ==> compressed_children(
            list,
            parent,
            list.len() as int,
        ) is None,
{
    lemma_children_rows(list, parent, held, heap, list.len() as int);
}

/// The path that a member of an append comes from: itself, or what it projects.
pub open spec fn projected(m: InputPath) -> Option<InputPath> {
    if m.kind == InputKind::Projection {
        if m.subpaths@.len() > 0 {
            Some(m.subpaths@[0])
        } else {
            None
        }
    } else {
        Some(m)
    }
}

/// How many rows a member of an append puts out.
pub open spec fn member_rows(
    m: InputPath,
    held: spec_fn(u32) -> int,
    heap: spec_fn(InputPath) -> int,
) -> int {
    match projected(m) {
        Some(s) => if s.kind == InputKind::RowScan && s.oids@.len() > 0 {
            rows_behind(s.oids@, held)
        } else if s.companion != 0 {
            held(s.companion)
        } else if s.has_data {
            heap(s)
        } else {
            0
        },
        None => 0,
    }
}

/// Whether a member of an append reads rows that are not compressed.
pub open spec fn reads_heap(m: InputPath) -> bool {
    projected(m) matches Some(s) && s.companion == 0 && s.has_data && !(s.kind == InputKind::RowScan
        && s.oids@.len() > 0)
}

pub open spec fn append_rows(
    s: Seq<InputPath>,
    held: spec_fn(u32) -> int,
    heap: spec_fn(InputPath) -> int,
    n: int,
) -> int
    decreases n,
{
    if n <= 0 {
        0
    } else {
        append_rows(s, held, heap, n - 1) + member_rows(s[n - 1], held, heap)
    }
}

proof fn lemma_members_rows(
    s: Seq<InputPath>,
    held: spec_fn(u32) -> int,
    heap: spec_fn(InputPath) -> int,
    n: int,
)
    requires
        0 <= n <= s.len(),
    ensures
        match members_oids(s, n) {
            Some(oids) => rows_behind(oids, held) == append_rows(s, held, heap, n) && forall|i: int|
                0 <= i < n ==> !reads_heap(#[trigger] s[i]),
            None => exists|i: int| 0 <= i < n && reads_heap(#[trigger] s[i]),
        },
    decreases n,
{
    if n > 0 {
        lemma_members_rows(s, held, heap, n - 1);
        match (members_oids(s, n - 1), crate::scan::hook::member_oids(s[n - 1])) {
            (Some(before), Some(more)) => {
                lemma_rows_behind(before, more, held);
                assert(rows_behind(Seq::<u32>::empty(), held) == 0);
                if more.len() == 1 {
                    assert(more.drop_last() =~= Seq::<u32>::empty());
                }
                assert(rows_behind(more, held) == member_rows(s[n - 1], held, heap));
            },
            _ => {
                assert(members_oids(s, n - 1) is Some ==> reads_heap(s[n - 1]));
            },
        }
    }
}

/// An aggregate over an append reads the rows of all members, each once, and is
/// not offered where a member reads rows that are not compressed.
pub proof fn lemma_append_is_read_in_full(
    p: InputPath,
    held: spec_fn(u32) -> int,
    heap: spec_fn(InputPath) -> int,
)
    requires
        p.kind == InputKind::Append,
    ensures
        companion_oids(p) matches Some(oids) ==> oids.len() > 0 && rows_behind(oids, held)
            == append_rows(p.subpaths@, held, heap, p.subpaths@.len() as int),
        (exists|i: int| 0 <= i < p.subpaths@.len() && reads_heap(#[trigger] p.subpaths@[i]))
            ==> companion_oids(p) is None,
        (exists|i: int|
            0 <= i < p.subpaths@.len() && (projected(#[trigger] p.subpaths@[i]) matches Some(s)
                && s.companion != 0)) && !(exists|i: int|
            0 <= i < p.subpaths@.len() && reads_heap(#[trigger] p.subpaths@[i]))
            ==> companion_oids(p) is Some,
{
    let n = p.subpaths@.len() as int;
    lemma_members_rows(p.subpaths@, held, heap, n);
    lemma_members_rows(p.subpaths@, |o: u32| 1, heap, n);
    if (exists|i: int|
        0 <= i < n && (projected(#[trigger] p.subpaths@[i]) matches Some(s) && s.companion != 0))
        && !(exists|i: int| 0 <= i < n && reads_heap(#[trigger] p.subpaths@[i])) {
        let i = choose|i: int|
            0 <= i < n && (projected(#[trigger] p.subpaths@[i]) matches Some(s) && s.companion != 0);
        lemma_some_member(p.subpaths@, i, n);
    }
}

proof fn lemma_some_member(s: Seq<InputPath>, i: int, n: int)
    requires
        0 <= i < n <= s.len(),
        projected(s[i]) matches Some(q) && q.companion != 0,
    ensures
        members_oids(s, n) matches Some(oids) ==> oids.len() > 0,
    decreases n,
{
    if i < n - 1 {
        lemma_some_member(s, i, n - 1);
    }
}

/// What wraps a path reads what the path reads; a row scan reads its own metadata
/// tables; nothing is known of any other path.
pub proof fn lemma_path_reads(p: InputPath)
    ensures
        p.kind == InputKind::Projection || p.kind == InputKind::Gather || p.kind
            == InputKind::GatherMerge ==> companion_oids(p) == if p.subpaths@.len() > 0 {
            companion_oids(p.subpaths@[0])
        } else {
            None
        },
        p.kind == InputKind::RowScan ==> companion_oids(p) == if p.oids@.len() > 0 {
            Some(p.oids@)
        } else {
            None
        },
        p.kind == InputKind::Other ==> companion_oids(p) is None,
{
}

/// A relation's parent is the one that it is listed under, where it is listed
/// once; one that is not listed has none.
pub proof fn lemma_parent_found(list: Seq<AppendRel>, child: u32)
    ensures
        parent_of(list, child) is None <==> forall|i: int|
            0 <= i < list.len() ==> (#[trigger] list[i]).child_relid != child,
        forall|i: int|
            0 <= i < list.len() && (#[trigger] list[i]).child_relid == child && (forall|j: int|
                0 <= j < i ==> (#[trigger] list[j]).child_relid != child) ==> parent_of(list, child)
                == Some(list[i].parent_relid),
{
    lemma_first_where(list, |a: AppendRel| a.child_relid == child);
}

// ---------------------------------------------------------------------------
// Order
// ---------------------------------------------------------------------------

/// Whether the `i`-th expression of the first sort key is the column `a` of a
/// relation or of its parent.
pub open spec fn sorts_by(keys: Seq<PathKey>, relid: u32, parent: Option<u32>, i: int, a: int) -> bool {
    keys.len() > 0 && 0 <= i < exprs(keys[0].members@).len() && (exprs(
        keys[0].members@,
    )[i].head matches Head::Var(v) && (v.varno == relid || (parent matches Some(p) && v.varno == p))
        && v.varattno == a)
}

/// A row scan sorts by a column that stands for the query's first sort key, of
/// the relation or of the table that it is a part of, and keeps as many rows as
/// the query needs. Without such a column it keeps all rows.
pub proof fn lemma_scan_limit(t: TopnInfo, keys: Seq<PathKey>, relid: u32, parent: Option<u32>)
    ensures
        ({
            let s = row_scan_topn(t, order_by_attno(keys, relid, parent));
            &&& s.limit > 0 ==> s.limit == t.limit && s.ascending == t.ascending && s.nulls_first
                == t.nulls_first && s.multi_col == t.multi_col && exists|i: int|
                #[trigger] sorts_by(keys, relid, parent, i, s.sort_col_attno as int)
            &&& s.limit <= 0 ==> s.limit == 0 && (t.limit <= 0 || forall|i: int, a: int|
                !#[trigger] sorts_by(keys, relid, parent, i, a))
        }),
{
    if keys.len() > 0 {
        let m = exprs(keys[0].members@);
        let p = |e: Expr| crate::scan::hook::is_column_of_family(e, relid, parent);
        lemma_first_where(m, p);
        assert(order_by_attno(keys, relid, parent) == match crate::search::first_where(m, p) {
            Some(i) => Some(m[i].head->Var_0.varattno),
            None => None,
        });
        match crate::search::first_where(m, p) {
            Some(i) => {
                assert(p(m[i]));
                let s = row_scan_topn(t, order_by_attno(keys, relid, parent));
                assert(t.limit > 0 ==> s.sort_col_attno == m[i].head->Var_0.varattno);
                assert(t.limit > 0 ==> sorts_by(keys, relid, parent, i, s.sort_col_attno as int));
            },
            None => {
                assert forall|i: int, a: int| !#[trigger] sorts_by(keys, relid, parent, i, a) by {
                    if 0 <= i < m.len() {
                        assert(!p(m[i]));
                    }
                }
            },
        }
    }
}

/// Rows that come out by time are in the order that the query asks for first,
/// where the scan says so: whatever the rows hold, as long as the expressions of
/// one sort key are equal in each row.
pub proof fn lemma_time_order_is_asked_for(
    q: RelQuery,
    value: spec_fn(int, Expr) -> int,
    first: int,
    second: int,
)
    requires
        q.time_sorted(),
        q.time_attno is Some,
        forall|row: int, a: Expr, b: Expr|
            exprs(q.pathkeys@[0].members@).contains(a) && exprs(q.pathkeys@[0].members@).contains(b)
                ==> #[trigger] value(row, a) == #[trigger] value(row, b),
        forall|e: Expr|
            (e.head matches Head::Var(v) && v.varno == q.relid && Some(v.varattno) == q.time_attno)
                ==> #[trigger] value(first, e) <= value(second, e),
    ensures
        q.pathkeys@.len() > 0,
        q.pathkeys@[0].direction == SortDirection::Ascending,
        !q.segmented,
        forall|e: Expr|
            exprs(q.pathkeys@[0].members@).contains(e) ==> #[trigger] value(first, e) <= value(
                second,
                e,
            ),
{
    let m = exprs(q.pathkeys@[0].members@);
    let a = q.time_attno->0;
    let i = choose|i: int|
        0 <= i < q.pathkeys@[0].members@.len() && crate::scan::hook::is_column_of(
            #[trigger] m[i],
            q.relid,
            a,
        );
    assert(m.contains(m[i]));
    assert(value(first, m[i]) <= value(second, m[i]));
}

/// A table is scanned as one where it is scanned with its children and all of
/// these can be read; any other relation is scanned by itself, where it is
/// compressed.
pub proof fn lemma_how_relations_are_scanned(q: RelQuery)
    ensures
        q.as_one() <==> q.is_relation && q.kind == RelKind::Base && q.inh && q.children is Some,
        q.single() <==> q.is_relation && !q.as_one() && q.companion != 0 && (q.kind == RelKind::Base
            || q.kind == RelKind::Member),
        !(q.as_one() && q.single()),
        q.sort_attno() == order_by_attno(
            q.pathkeys@,
            q.relid,
            parent_of(q.append_rels@, q.relid),
        ),
{
}

// ---------------------------------------------------------------------------
// Workers
// ---------------------------------------------------------------------------

/// A scan has as many workers as it may: with one more, a cap would be passed, or
/// a worker would have fewer than eight segments.
pub proof fn lemma_workers_are_used(cap: i32, pg_cap: i32, segments: int)
    requires
        0 <= segments <= i32::MAX,
    ensures
        ({
            let n = scan_workers(cap, pg_cap, segments);
            n >= cap || n >= pg_cap || (n + 1) * 8 > segments
        }),
{
}

/// Every segment counts for the workers: one more in a partition is one more.
pub proof fn lemma_segments_counted(s: Seq<u64>, i: int, v: u64, n: int)
    requires
        0 <= i < n <= s.len(),
    ensures
        total(s.update(i, v), n) == total(s, n) - s[i] + v,
        n == 1 ==> total(s, n) == s[0],
    decreases n,
{
    if i < n - 1 {
        lemma_segments_counted(s, i, v, n - 1);
    } else {
        lemma_total_same(s, s.update(i, v), n - 1);
    }
    assert(total(s, 0) == 0);
}

proof fn lemma_total_same(a: Seq<u64>, b: Seq<u64>, n: int)
    requires
        0 <= n <= a.len() == b.len(),
        forall|k: int| 0 <= k < n ==> a[k] == b[k],
    ensures
        total(a, n) == total(b, n),
    decreases n,
{
    if n > 0 {
        lemma_total_same(a, b, n - 1);
    }
}

// ---------------------------------------------------------------------------
// Groups
// ---------------------------------------------------------------------------

proof fn lemma_largest(s: Seq<(String, i64)>, col: Seq<char>, n: int)
    requires
        0 <= n <= s.len(),
    ensures
        largest_count(s, col, n) >= 0,
        forall|i: int|
            0 <= i < n && (#[trigger] s[i]).0@ == col ==> s[i].1 <= largest_count(s, col, n),
        largest_count(s, col, n) == 0 || exists|i: int|
            0 <= i < n && (#[trigger] s[i]).0@ == col && s[i].1 == largest_count(s, col, n),
    decreases n,
{
    if n > 0 {
        lemma_largest(s, col, n - 1);
    }
}

/// A column has as many distinct values as the partition with the most, but no
/// more than there are rows. Nothing is known of it where no partition says.
pub proof fn lemma_distinct_over_partitions(s: Seq<(String, i64)>, col: Seq<char>, rows: i64)
    requires
        rows >= 0,
    ensures
        match merged_count(s, col, rows) {
            Some(n) => {
                &&& 0 <= n <= rows
                &&& forall|i: int|
                    0 <= i < s.len() && (#[trigger] s[i]).0@ == col ==> s[i].1 <= n || n == rows
                &&& n == 0 || exists|i: int|
                    0 <= i < s.len() && (#[trigger] s[i]).0@ == col && s[i].1 >= n && (n < rows
                        ==> s[i].1 == n)
            },
            None => forall|i: int| 0 <= i < s.len() ==> (#[trigger] s[i]).0@ != col,
        },
{
    lemma_largest(s, col, s.len() as int);
}

/// How many values a part of a time takes, by the part's name.
pub proof fn lemma_values_of_units()
    ensures
        unit_values("hour".spec_bytes()) == Some(24int),
        unit_values("hours".spec_bytes()) == Some(24int),
        unit_values("minute".spec_bytes()) == Some(60int),
        unit_values("minutes".spec_bytes()) == Some(60int),
        unit_values("second".spec_bytes()) == Some(60int),
        unit_values("seconds".spec_bytes()) == Some(60int),
        unit_values("millisecond".spec_bytes()) == Some(60 * 1000int),
        unit_values("milliseconds".spec_bytes()) == Some(60 * 1000int),
        unit_values("microsecond".spec_bytes()) == Some(60 * 1000 * 1000int),
        unit_values("microseconds".spec_bytes()) == Some(60 * 1000 * 1000int),
        unit_values("dow".spec_bytes()) == Some(7int),
{
    lemma_unit_names_differ();
}

proof fn lemma_unit_names_differ()
    ensures
        "hour".spec_bytes().len() == 4,
        "hours".spec_bytes().len() == 5,
        "minute".spec_bytes().len() == 6,
        "minutes".spec_bytes().len() == 7,
        "second".spec_bytes().len() == 6,
        "seconds".spec_bytes().len() == 7,
        "millisecond".spec_bytes().len() == 11,
        "milliseconds".spec_bytes().len() == 12,
        "microsecond".spec_bytes().len() == 11,
        "microseconds".spec_bytes().len() == 12,
        "dow".spec_bytes().len() == 3,
        "millisecond".spec_bytes() != "microsecond".spec_bytes(),
        "milliseconds".spec_bytes() != "microseconds".spec_bytes(),
        "minute".spec_bytes() != "second".spec_bytes(),
        "minutes".spec_bytes() != "seconds".spec_bytes(),
{
    reveal_strlit("hour");
    reveal_strlit("hours");
    reveal_strlit("minute");
    reveal_strlit("minutes");
    reveal_strlit("second");
    reveal_strlit("seconds");
    reveal_strlit("millisecond");
    reveal_strlit("milliseconds");
    reveal_strlit("microsecond");
    reveal_strlit("microseconds");
    reveal_strlit("dow");
    is_ascii_spec_bytes("hour");
    is_ascii_spec_bytes("hours");
    is_ascii_spec_bytes("minute");
    is_ascii_spec_bytes("minutes");
    is_ascii_spec_bytes("second");
    is_ascii_spec_bytes("seconds");
    is_ascii_spec_bytes("millisecond");
    is_ascii_spec_bytes("milliseconds");
    is_ascii_spec_bytes("microsecond");
    is_ascii_spec_bytes("microseconds");
    is_ascii_spec_bytes("dow");
    assert("millisecond".spec_bytes()[2] != "microsecond".spec_bytes()[2]);
    assert("milliseconds".spec_bytes()[2] != "microseconds".spec_bytes()[2]);
    assert("minute".spec_bytes()[0] != "second".spec_bytes()[0]);
    assert("minutes".spec_bytes()[0] != "seconds".spec_bytes()[0]);
}

/// How many values a grouping takes, where that can be told: those of its column,
/// shifted or not, and those of a part of a time, which takes no more values than
/// there are rows.
pub open spec fn values_taken(g: Group, distinct: Option<i64>, rows: i64) -> Option<int> {
    match g.expr {
        GroupExpr::Column => opt_int(distinct),
        GroupExpr::AddConst { .. } => opt_int(distinct),
        GroupExpr::Extract { unit, .. } => match unit_values(unit) {
            Some(n) => Some(n),
            None => Some(rows as int),
        },
        GroupExpr::RegexpReplace { .. } => None,
        GroupExpr::DateTrunc { .. } => None,
        GroupExpr::CaseWhen(_) => None,
    }
}

pub open spec fn opt_int(n: Option<i64>) -> Option<int> {
    match n {
        Some(v) => Some(v as int),
        None => None,
    }
}

proof fn lemma_combinations_prefix(
    a: Seq<Group>,
    b: Seq<Group>,
    x: Seq<Option<i64>>,
    y: Seq<Option<i64>>,
    rows: i64,
    n: int,
)
    requires
        0 <= n <= a.len(),
        n <= b.len(),
        n <= x.len(),
        n <= y.len(),
        forall|i: int| 0 <= i < n ==> a[i] == b[i] && x[i] == y[i],
    ensures
        combinations(a, x, rows, n) == combinations(b, y, rows, n),
    decreases n,
{
    if n > 0 {
        lemma_combinations_prefix(a, b, x, y, rows, n - 1);
    }
}

proof fn lemma_combinations_sign(a: Seq<Group>, x: Seq<Option<i64>>, rows: i64, n: int)
    requires
        0 <= n <= a.len() == x.len(),
        rows >= 0,
        forall|i: int| 0 <= i < x.len() ==> (#[trigger] x[i] matches Some(v) ==> v >= 0),
    ensures
        combinations(a, x, rows, n) matches Some(p) ==> p >= 0,
    decreases n,
{
    if n > 0 {
        lemma_combinations_sign(a, x, rows, n - 1);
        if let Some(p) = combinations(a, x, rows, n - 1) {
            if let Some(v) = crate::scan::group_estimate::group_values(a[n - 1], x[n - 1], rows) {
                assert(p * v >= 0) by (nonlinear_arith)
                    requires
                        p >= 0,
                        v >= 0,
                ;
            }
        }
    }
}

/// One more grouping multiplies the number of groups by the values that it takes,
/// up to one group for each row; without groupings there is one group. The number
/// cannot be told where that of one grouping cannot.
pub proof fn lemma_groups_multiply(
    groups: Seq<Group>,
    distinct: Seq<Option<i64>>,
    g: Group,
    d: Option<i64>,
    rows: i64,
)
    requires
        rows >= 1,
        groups.len() == distinct.len(),
        d matches Some(v) ==> v >= 0,
        forall|i: int|
            0 <= i < distinct.len() ==> (#[trigger] distinct[i] matches Some(v) ==> v >= 0),
    ensures
        group_count(Seq::empty(), Seq::empty(), true, rows) == Some(1i64),
        group_count(groups.push(g), distinct.push(d), false, rows) is None,
        match (group_count(groups, distinct, true, rows), values_taken(g, d, rows)) {
            (Some(n), Some(v)) => group_count(groups.push(g), distinct.push(d), true, rows) matches Some(
                m,
            ) && m == if n * v <= rows {
                n * v
            } else {
                rows as int
            },
            _ => group_count(groups.push(g), distinct.push(d), true, rows) is None,
        },
{
    let k = groups.len() as int;
    let (a, x) = (groups.push(g), distinct.push(d));
    lemma_combinations_prefix(groups, a, distinct, x, rows, k);
    lemma_combinations_sign(groups, distinct, rows, k);
    assert(a[k] == g && x[k] == d);
    assert(combinations(a, x, rows, k + 1) == match (
        combinations(a, x, rows, k),
        crate::scan::group_estimate::group_values(g, d, rows),
    ) {
        (Some(p), Some(v)) => Some(p * v),
        _ => None,
    });
    if let (Some(p), Some(v)) = (combinations(groups, distinct, rows, k), values_taken(g, d, rows)) {
        if p > rows {
            if v == 0 {
                assert(p * v == 0 && rows * v == 0) by (nonlinear_arith)
                    requires
                        v == 0,
                ;
            } else {
                assert(p * v >= p && rows * v >= rows) by (nonlinear_arith)
                    requires
                        v >= 1,
                        p >= 0,
                        rows >= 0,
                ;
            }
        }
        assert(p * v >= 0) by (nonlinear_arith)
            requires
                p >= 0,
                v >= 0,
        ;
    }
}

/// A grouping is by the column of the relation with that number, or, behind the
/// columns of the relation, by the extracted column.
pub proof fn lemma_group_names(rel: Relation, ctx: Option<AggChainCtx>, col: i32)
    requires
        0 <= col < i16::MAX,
    ensures
        col < rel.columns@.len() && rel.columns@[col as int].name is Some ==> group_name(
            col,
            rel,
            ctx,
        ) == Some(rel.columns@[col as int].name->0@),
        col >= rel.columns@.len() && ctx is Some && ctx->0.physical_count <= col
            < ctx->0.physical_count + ctx->0.specs@.len() ==> group_name(col, rel, ctx) == Some(
            ctx->0.specs@[col - ctx->0.physical_count].target_name@,
        ),
{
}

/// A grouping is left to PostgreSQL in two cases alone: without a WHERE clause,
/// where a plain column has more than half as many distinct values as there are
/// rows; and with one that leaves few rows, without workers, where a plain text
/// column has more than 100000. Otherwise the number of groups is that of the
/// combinations.
pub proof fn lemma_grouping_left(
    groups: Seq<Group>,
    relid: u32,
    rel: Relation,
    ctx: Option<AggChainCtx>,
    rows: GroupedRows,
)
    requires
        groups.len() > 0,
        relid != 0,
        rows.total > 0,
    ensures
        ({
            let counts = group_counts(groups, rel, ctx, rows);
            let r = grouping_of(groups, relid, rel, ctx, rows);
            &&& r is LeftToServer <==> exists|i: int|
                0 <= i < groups.len() && (#[trigger] groups[i]).expr is Column && (
                counts[i] matches Some(n) && if rows.has_where {
                    rows.few && rows.workers <= 1 && n > 100_000 && (groups[i].type_oid == 25
                        || groups[i].type_oid == 1043 || groups[i].type_oid == 1042
                        || groups[i].type_oid == 19)
                } else {
                    n > rows.total / 2
                })
            &&& r matches Grouping::Estimated(n) ==> group_count(
                groups,
                counts,
                rows.counts@.len() > 0,
                rows.total,
            ) == Some(n)
            &&& r is Unknown ==> group_count(groups, counts, rows.counts@.len() > 0, rows.total) is None
            &&& forall|i: int|
                0 <= i < groups.len() ==> (group_name(
                    (#[trigger] groups[i]).col_idx,
                    rel,
                    ctx,
                ) matches Some(name) ==> counts[i] == merged_count(rows.counts@, name, rows.total))
        }),
{
    let counts = group_counts(groups, rel, ctx, rows);
    if rows.has_where {
        assert(forall|i: int|
            0 <= i < groups.len() ==> (crate::scan::hook::is_text_group(#[trigger] groups[i]) <==> (
            groups[i].expr is Column && (groups[i].type_oid == 25 || groups[i].type_oid == 1043
                || groups[i].type_oid == 1042 || groups[i].type_oid == 19))));
    }
}

} // verus!
