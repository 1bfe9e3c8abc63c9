//! Decisions of the planner and executor hooks: what a session remembers of the
//! catalog, which relations are scanned by the extension, and which statements
//! are refused.

use vstd::prelude::*;
use vstd::string::*;
use std::collections::HashMap;
use crate::decimal::{append_numeral, numeral};
use crate::pg_types::{is_string_oid, is_string_type, INVALID_OID, NAMEOID};
use crate::scan::agg_types::{groups_view, Group, GroupByColSpec, GroupByExpr};
use crate::scan::having::{const_word, MAX_TOPN};
use crate::scan::node::{exprs, group_node, is_null, Expr, Head, Node};
use crate::scan::path::ScanTopn;
use crate::search::{first_where, lemma_first_is, lemma_first_none};
use crate::text::{joined, strip_text_suffix, text_is, without_suffix};

verus! {

// ---------------------------------------------------------------------------
// What a session remembers
// ---------------------------------------------------------------------------

/// Catalog lookups of a session, by OID.
pub struct HookState {
    /// Partition to its metadata table; `INVALID_OID` where it is not compressed.
    pub companions: HashMap<u32, u32>,
    /// Table to the number of its time column; 0 where it has none.
    pub time_columns: HashMap<u32, i16>,
    /// Table to its time column and the columns that segments are split by; an
    /// empty name where it is not partitioned by time.
    pub meta_cols: HashMap<u32, (String, Vec<String>)>,
    /// Whether statements that change compressed partitions are let through.
    pub dml_bypass: bool,
}

impl HookState {
    pub fn new() -> (r: HookState)
        ensures
            r.companions@ == Map::<u32, u32>::empty(),
            r.time_columns@ == Map::<u32, i16>::empty(),
            r.meta_cols@ == Map::<u32, (String, Vec<String>)>::empty(),
            !r.dml_bypass,
    {
        HookState {
            companions: HashMap::new(),
            time_columns: HashMap::new(),
            meta_cols: HashMap::new(),
            dml_bypass: false,
        }
    }

    /// Metadata table of a partition, where the session knows it.
    pub fn cached_companion(&self, rel_oid: u32) -> (r: Option<u32>)
        ensures
            r == if self.companions@.contains_key(rel_oid) {
                Some(self.companions@[rel_oid])
            } else {
                None
            },
    {
        broadcast use vstd::std_specs::hash::group_hash_axioms;

        match self.companions.get(&rel_oid) {
            Some(oid) => Some(*oid),
            None => None,
        }
    }

    /// Remembers the metadata table of a partition.
    pub fn remember_companion(&mut self, rel_oid: u32, companion: u32)
        ensures
            final(self).companions@ == old(self).companions@.insert(rel_oid, companion),
            final(self).time_columns == old(self).time_columns,
            final(self).meta_cols == old(self).meta_cols,
            final(self).dml_bypass == old(self).dml_bypass,
    {
        broadcast use vstd::std_specs::hash::group_hash_axioms;

        self.companions.insert(rel_oid, companion);
    }

    /// What the session knows of a table's time column: none where it does not
    /// know, else its number, if the table has one.
    pub fn cached_time_column(&self, parent_oid: u32) -> (r: Option<Option<i16>>)
        ensures
            r == if self.time_columns@.contains_key(parent_oid) {
                Some(
                    if self.time_columns@[parent_oid] > 0 {
                        Some(self.time_columns@[parent_oid])
                    } else {
                        None
                    },
                )
            } else {
                None
            },
    {
        broadcast use vstd::std_specs::hash::group_hash_axioms;

        match self.time_columns.get(&parent_oid) {
            Some(attno) => if *attno > 0 {
                Some(Some(*attno))
            } else {
                Some(None)
            },
            None => None,
        }
    }

    /// Remembers the number of a table's time column, and gives it back, if it
    /// has one.
    pub fn remember_time_column(&mut self, parent_oid: u32, attno: i16) -> (r: Option<i16>)
        ensures
            final(self).time_columns@ == old(self).time_columns@.insert(parent_oid, attno),
            r == if attno > 0 {
                Some(attno)
            } else {
                None
            },
            final(self).companions == old(self).companions,
            final(self).meta_cols == old(self).meta_cols,
            final(self).dml_bypass == old(self).dml_bypass,
    {
        broadcast use vstd::std_specs::hash::group_hash_axioms;

        self.time_columns.insert(parent_oid, attno);
        if attno > 0 {
            Some(attno)
        } else {
            None
        }
    }

    /// What the session knows of a table's columns: none where it does not know,
    /// else the time column and the columns that segments are split by, if the
    /// table is partitioned by time.
    pub fn cached_meta_cols(&self, parent_oid: u32) -> (r: Option<Option<&(String, Vec<String>)>>)
        ensures
            match r {
                None => !self.meta_cols@.contains_key(parent_oid),
                Some(None) => self.meta_cols@.contains_key(parent_oid)
                    && self.meta_cols@[parent_oid].0@.len() == 0,
                Some(Some(v)) => self.meta_cols@.contains_key(parent_oid)
                    && self.meta_cols@[parent_oid] == *v && v.0@.len() > 0,
            },
    {
        broadcast use vstd::std_specs::hash::group_hash_axioms;

        match self.meta_cols.get(&parent_oid) {
            Some(v) => if v.0.as_str().is_empty() {
                Some(None)
            } else {
                Some(Some(v))
            },
            None => None,
        }
    }

    /// Remembers a table's columns; none for a table that is not partitioned by
    /// time.
    pub fn remember_meta_cols(&mut self, parent_oid: u32, cols: Option<(String, Vec<String>)>)
        ensures
            final(self).meta_cols@.dom() == old(self).meta_cols@.dom().insert(parent_oid),
            cols matches Some(c) ==> final(self).meta_cols@[parent_oid] == c,
            cols is None ==> final(self).meta_cols@[parent_oid].0@.len() == 0,
            forall|k: u32|
                k != parent_oid && old(self).meta_cols@.contains_key(k)
                    ==> #[trigger] final(self).meta_cols@[k] == old(self).meta_cols@[k],
            final(self).companions == old(self).companions,
            final(self).time_columns == old(self).time_columns,
            final(self).dml_bypass == old(self).dml_bypass,
    {
        broadcast use vstd::std_specs::hash::group_hash_axioms;

        let v = match cols {
            Some(c) => c,
            None => (String::new(), Vec::new()),
        };
        self.meta_cols.insert(parent_oid, v);
    }
}

/// Forgets all catalog lookups.
pub fn invalidate_compressed_cache(state: &mut HookState)
    ensures
        final(state).companions@ == Map::<u32, u32>::empty(),
        final(state).time_columns@ == Map::<u32, i16>::empty(),
        final(state).meta_cols@ == Map::<u32, (String, Vec<String>)>::empty(),
        final(state).dml_bypass == old(state).dml_bypass,
{
    broadcast use vstd::std_specs::hash::group_hash_axioms;

    state.companions.clear();
    state.time_columns.clear();
    state.meta_cols.clear();
}

/// Sets whether statements that change compressed partitions are let through.
pub fn set_dml_bypass(state: &mut HookState, bypass: bool)
    ensures
        final(state).dml_bypass == bypass,
        final(state).companions == old(state).companions,
        final(state).time_columns == old(state).time_columns,
        final(state).meta_cols == old(state).meta_cols,
{
    state.dml_bypass = bypass;
}

/// Whether segments of a table are split by columns: then their time ranges
/// overlap, and a scan's output is not sorted by time.
pub fn has_segment_by(meta_cols: &Option<(String, Vec<String>)>) -> (r: bool)
    ensures
        r == (*meta_cols matches Some(m) && m.1@.len() > 0),
{
    match meta_cols {
        Some(m) => m.1.len() > 0,
        None => false,
    }
}

// ---------------------------------------------------------------------------
// Relations of a query
// ---------------------------------------------------------------------------

/// A child of a partitioned table in a query.
#[derive(Clone, Copy, Debug, PartialEq, Eq, Structural)]
pub struct AppendRel {
    pub parent_relid: u32,
    pub child_relid: u32,
}

/// The parent of relation `child`.
pub open spec fn parent_of(list: Seq<AppendRel>, child: u32) -> Option<u32> {
    match first_where(list, |a: AppendRel| a.child_relid == child) {
        Some(i) => Some(list[i].parent_relid),
        None => None,
    }
}

/// The parent of relation `rel_relid`; none where it is no child.
pub fn parent_relid_from_appendrel(list: &Vec<AppendRel>, rel_relid: u32) -> (r: Option<u32>)
    ensures
        r == parent_of(list@, rel_relid),
{
    let ghost p = |a: AppendRel| a.child_relid == rel_relid;
    let mut i: usize = 0;
    while i < list.len()
        invariant
            i <= list.len(),
            p == (|a: AppendRel| a.child_relid == rel_relid),
            forall|j: int| 0 <= j < i ==> !p(#[trigger] list@[j]),
        decreases list.len() - i,
    {
        if list[i].child_relid == rel_relid {
            proof {
                lemma_first_is(list@, p, i as int);
            }
            return Some(list[i].parent_relid);
        }
        i += 1;
    }
    proof {
        lemma_first_none(list@, p);
    }
    None
}

/// OID of the parent of relation `child_rti`; `relids` gives OIDs by
/// range-table index.
pub fn find_parent_oid(list: &Vec<AppendRel>, relids: &Vec<u32>, child_rti: u32) -> (r: Option<u32>)
    ensures
        r == match parent_of(list@, child_rti) {
            Some(p) => if p < relids@.len() {
                Some(relids@[p as int])
            } else {
                None
            },
            None => None,
        },
{
    match parent_relid_from_appendrel(list, child_rti) {
        Some(p) => if (p as usize) < relids.len() {
            Some(relids[p as usize])
        } else {
            None
        },
        None => None,
    }
}

/// An entry of a range table.
#[derive(Clone, Copy, Debug, PartialEq, Eq, Structural)]
pub struct RangeEntry {
    pub relid: u32,
    /// A table, not a subquery or function.
    pub is_relation: bool,
    /// Scanned with its children.
    pub inh: bool,
}

pub open spec fn is_inh_parent(e: RangeEntry) -> bool {
    e.is_relation && e.inh
}

/// OID of the first table of a query that is scanned with its children.
pub fn find_inh_parent_oid(entries: &Vec<RangeEntry>) -> (r: Option<u32>)
    ensures
        r == match first_where(entries@, |e: RangeEntry| is_inh_parent(e)) {
            Some(i) => Some(entries@[i].relid),
            None => None,
        },
{
    let ghost p = |e: RangeEntry| is_inh_parent(e);
    let mut i: usize = 0;
    while i < entries.len()
        invariant
            i <= entries.len(),
            p == (|e: RangeEntry| is_inh_parent(e)),
            forall|j: int| 0 <= j < i ==> !p(#[trigger] entries@[j]),
        decreases entries.len() - i,
    {
        if entries[i].is_relation && entries[i].inh {
            proof {
                lemma_first_is(entries@, p, i as int);
            }
            return Some(entries[i].relid);
        }
        i += 1;
    }
    proof {
        lemma_first_none(entries@, p);
    }
    None
}

/// Direction of a sort key.
#[derive(Clone, Copy, Debug, PartialEq, Eq, Structural)]
pub enum SortDirection {
    Ascending,
    Descending,
    Other,
}

/// A sort key of a query: the expressions that are known to be equal to it.
pub struct PathKey {
    pub direction: SortDirection,
    pub nulls_first: bool,
    pub members: Vec<Node>,
}

/// Whether `e` is column `attno` of relation `relid`.
pub open spec fn is_column_of(e: Expr, relid: u32, attno: i16) -> bool {
    e.head matches Head::Var(v) && v.varno == relid && v.varattno == attno
}

/// Whether a query's first sort key is the time column of relation `relid`,
/// ascending. Descending is not offered, since segments are read in storage
/// order.
pub fn check_time_pathkey(keys: &Vec<PathKey>, relid: u32, time_col_attno: i16) -> (r: bool)
    ensures
        r == (keys@.len() > 0 && keys@[0].direction == SortDirection::Ascending && exists|i: int|
            0 <= i < keys@[0].members@.len() && is_column_of(
                #[trigger] exprs(keys@[0].members@)[i],
                relid,
                time_col_attno,
            )),
{
    broadcast use group_node;

    if keys.len() == 0 || keys[0].direction != SortDirection::Ascending {
        return false;
    }
    let members = &keys[0].members;
    let mut i: usize = 0;
    while i < members.len()
        invariant
            i <= members.len(),
            keys@.len() > 0,
            *members == keys@[0].members,
            keys@[0].direction == SortDirection::Ascending,
            forall|j: int|
                0 <= j < i ==> !is_column_of(
                    #[trigger] exprs(members@)[j],
                    relid,
                    time_col_attno,
                ),
        decreases members.len() - i,
    {
        assert(exprs(members@)[i as int] == members@[i as int].view());
        if let Head::Var(v) = &members[i].head {
            if v.varno as i64 == relid as i64 && v.varattno == time_col_attno {
                assert(is_column_of(exprs(members@)[i as int], relid, time_col_attno));
                return true;
            }
        }
        i += 1;
    }
    false
}

/// Whether `e` is a column of relation `relid` or of its parent.
pub open spec fn is_column_of_family(e: Expr, relid: u32, parent: Option<u32>) -> bool {
    e.head matches Head::Var(v) && (v.varno == relid || (parent matches Some(p) && v.varno == p))
}

/// The column of relation `relid` that a query is sorted by first.
pub open spec fn order_by_attno(keys: Seq<PathKey>, relid: u32, parent: Option<u32>) -> Option<i16> {
    if keys.len() > 0 {
        match first_where(
            exprs(keys[0].members@),
            |e: Expr| is_column_of_family(e, relid, parent),
        ) {
            Some(i) => Some(exprs(keys[0].members@)[i].head->Var_0.varattno),
            None => None,
        }
    } else {
        None
    }
}

/// The column of relation `relid` that a query is sorted by first; none where
/// that is no plain column of it. A child answers to its parent's columns too.
pub fn extract_order_by_attno(keys: &Vec<PathKey>, list: &Vec<AppendRel>, relid: u32) -> (r: Option<
    i16,
>)
    ensures
        r == order_by_attno(keys@, relid, parent_of(list@, relid)),
{
    broadcast use group_node;

    if keys.len() == 0 {
        return None;
    }
    let parent = parent_relid_from_appendrel(list, relid);
    let members = &keys[0].members;
    let ghost es = exprs(members@);
    let ghost p = |e: Expr| is_column_of_family(e, relid, parent);
    let mut i: usize = 0;
    while i < members.len()
        invariant
            i <= members.len(),
            keys@.len() > 0,
            *members == keys@[0].members,
            es == exprs(members@),
            parent == parent_of(list@, relid),
            p == (|e: Expr| is_column_of_family(e, relid, parent)),
            forall|j: int| 0 <= j < i ==> !p(#[trigger] es[j]),
        decreases members.len() - i,
    {
        assert(es[i as int] == members@[i as int].view());
        if let Head::Var(v) = &members[i].head {
            let own = v.varno as i64 == relid as i64;
            let of_parent = match parent {
                Some(q) => v.varno as i64 == q as i64,
                None => false,
            };
            if own || of_parent {
                proof {
                    lemma_first_is(es, p, i as int);
                }
                return Some(v.varattno);
            }
        }
        i += 1;
    }
    proof {
        lemma_first_none(es, p);
    }
    None
}

/// LIMIT of a query: the rows needed, or 0, and how they are sorted.
#[derive(Clone, Copy, Debug, PartialEq, Eq, Structural)]
pub struct TopnInfo {
    pub limit: i64,
    pub ascending: bool,
    pub multi_col: bool,
    pub nulls_first: bool,
}

pub open spec fn no_topn() -> TopnInfo {
    TopnInfo { limit: 0, ascending: true, multi_col: false, nulls_first: false }
}

/// Rows that a query with this LIMIT and OFFSET needs; none where that is
/// unlimited, not constant, or too large to be worth it.
pub open spec fn rows_needed(limit: Expr, offset: Expr) -> Option<int> {
    let n = const_word(limit);
    if n <= 0 {
        None
    } else if is_null(offset) {
        if n > MAX_TOPN {
            None
        } else {
            Some(n)
        }
    } else if offset.head is Const {
        if n + const_word(offset) > MAX_TOPN {
            None
        } else {
            Some(n + const_word(offset))
        }
    } else {
        None
    }
}

/// The limit that the scans of a query can apply: not for aggregates, and only
/// where the first sort key has a direction.
pub open spec fn topn_info(
    is_agg: bool,
    limit: Expr,
    offset: Expr,
    keys: Seq<PathKey>,
) -> TopnInfo {
    match rows_needed(limit, offset) {
        Some(n) => if !is_agg && keys.len() > 0 && keys[0].direction != SortDirection::Other {
            TopnInfo {
                limit: n as i64,
                ascending: keys[0].direction == SortDirection::Ascending,
                multi_col: keys.len() > 1,
                nulls_first: keys[0].nulls_first,
            }
        } else {
            no_topn()
        },
        None => no_topn(),
    }
}

/// A scan's limit is never above `MAX_TOPN`.
pub proof fn lemma_scan_limit_bounded(
    is_agg: bool,
    limit: Expr,
    offset: Expr,
    keys: Seq<PathKey>,
)
    ensures
        topn_info(is_agg, limit, offset, keys).limit <= MAX_TOPN,
{
}

/// The limit that the scans of a query can apply.
pub fn extract_topn_info(is_agg: bool, limit: &Node, offset: &Node, keys: &Vec<PathKey>) -> (r:
    TopnInfo)
    ensures
        r == topn_info(is_agg, limit.view(), offset.view(), keys@),
{
    broadcast use group_node;

    let none = TopnInfo { limit: 0, ascending: true, multi_col: false, nulls_first: false };
    if is_agg {
        return none;
    }
    let n: i64 = match &limit.head {
        Head::Const(c) => if c.constisnull {
            0
        } else {
            c.word
        },
        _ => 0,
    };
    if n <= 0 {
        return none;
    }
    let skip: i64 = match &offset.head {
        Head::Null => 0,
        Head::Const(c) => if c.constisnull {
            0
        } else {
            c.word
        },
        _ => {
            return none;
        },
    };
    let total: i128 = n as i128 + skip as i128;
    if total > MAX_TOPN as i128 || keys.len() == 0 || keys[0].direction == SortDirection::Other {
        return none;
    }
    TopnInfo {
        limit: total as i64,
        ascending: keys[0].direction == SortDirection::Ascending,
        multi_col: keys.len() > 1,
        nulls_first: keys[0].nulls_first,
    }
}

// ---------------------------------------------------------------------------
// Compressed partitions
// ---------------------------------------------------------------------------

/// A partition of a table: its metadata table (`INVALID_OID` where it is not
/// compressed), and whether its own heap is known to be empty.
#[derive(Clone, Copy, Debug, PartialEq, Eq, Structural)]
pub struct Partition {
    pub parent_relid: u32,
    pub companion: u32,
    pub known_empty: bool,
}

/// The metadata tables of the partitions of `parent` among the first `n`; none
/// where one that is not compressed may hold rows.
pub open spec fn compressed_children(list: Seq<Partition>, parent: u32, n: int) -> Option<Seq<u32>>
    decreases n,
{
    if n <= 0 {
        Some(Seq::empty())
    } else {
        match compressed_children(list, parent, n - 1) {
            Some(before) => {
                let c = list[n - 1];
                if c.parent_relid != parent {
                    Some(before)
                } else if c.companion != INVALID_OID {
                    Some(before.push(c.companion))
                } else if c.known_empty {
                    Some(before)
                } else {
                    None
                }
            },
            None => None,
        }
    }
}

proof fn lemma_children_none(list: Seq<Partition>, parent: u32, k: int, n: int)
    requires
        k <= n,
        compressed_children(list, parent, k) is None,
    ensures
        compressed_children(list, parent, n) is None,
    decreases n,
{
    if k < n {
        lemma_children_none(list, parent, k, n - 1);
    }
}

/// The metadata tables of a table's partitions; none where no partition is
/// compressed, or one that is not may hold rows.
pub fn collect_compressed_children(list: &Vec<Partition>, parent_rti: u32) -> (r: Option<Vec<u32>>)
    ensures
        match r {
            Some(v) => compressed_children(list@, parent_rti, list@.len() as int) == Some(v@)
                && v@.len() > 0,
            None => compressed_children(list@, parent_rti, list@.len() as int) matches Some(s)
                ==> s.len() == 0,
        },
{
    let mut out: Vec<u32> = Vec::new();
    let mut i: usize = 0;
    while i < list.len()
        invariant
            i <= list.len(),
            compressed_children(list@, parent_rti, i as int) == Some(out@),
        decreases list.len() - i,
    {
        let c = list[i];
        if c.parent_relid == parent_rti {
            if c.companion != INVALID_OID {
                out.push(c.companion);
            } else if !c.known_empty {
                proof {
                    lemma_children_none(list@, parent_rti, i + 1, list@.len() as int);
                }
                return None;
            }
        }
        i += 1;
    }
    if out.len() == 0 {
        None
    } else {
        Some(out)
    }
}

/// What kind of path the planner chose.
#[derive(Clone, Copy, Debug, PartialEq, Eq, Structural)]
pub enum InputKind {
    /// A projection, or a gathering of workers' rows.
    Projection,
    Gather,
    GatherMerge,
    Append,
    /// A row scan of the extension.
    RowScan,
    Other,
}

/// A path below an aggregate.
pub struct InputPath {
    pub kind: InputKind,
    /// The wrapped path, or the members of an append; none where it is missing.
    pub subpaths: Vec<InputPath>,
    /// Metadata tables that a row scan reads.
    pub oids: Vec<u32>,
    /// Metadata table of the scanned relation, `INVALID_OID` where it has none.
    pub companion: u32,
    /// Whether the scanned relation's own heap holds blocks.
    pub has_data: bool,
}

pub open spec fn is_wrapper(k: InputKind) -> bool {
    k == InputKind::Projection || k == InputKind::Gather || k == InputKind::GatherMerge
}

/// The path under projections and gathers; none where one wraps nothing.
pub open spec fn unwrapped(p: InputPath) -> Option<InputPath>
    decreases p,
{
    if is_wrapper(p.kind) {
        if p.subpaths@.len() > 0 {
            unwrapped(p.subpaths@[0])
        } else {
            None
        }
    } else {
        Some(p)
    }
}

/// The metadata tables that one member of an append reads; none where it reads
/// rows that are not compressed. A member that holds nothing reads none.
pub open spec fn member_oids(m: InputPath) -> Option<Seq<u32>> {
    let under = if m.kind == InputKind::Projection {
        if m.subpaths@.len() > 0 {
            Some(m.subpaths@[0])
        } else {
            None
        }
    } else {
        Some(m)
    };
    match under {
        Some(s) => if s.kind == InputKind::RowScan && s.oids@.len() > 0 {
            Some(s.oids@)
        } else if s.companion != INVALID_OID {
            Some(seq![s.companion])
        } else if s.has_data {
            None
        } else {
            Some(Seq::empty())
        },
        None => Some(Seq::empty()),
    }
}

pub open spec fn members_oids(s: Seq<InputPath>, n: int) -> Option<Seq<u32>>
    decreases n,
{
    if n <= 0 {
        Some(Seq::empty())
    } else {
        match (members_oids(s, n - 1), member_oids(s[n - 1])) {
            (Some(before), Some(more)) => Some(before + more),
            _ => None,
        }
    }
}

/// The metadata tables that a path reads; none where it reads anything else, or
/// no metadata table at all.
pub open spec fn companion_oids(p: InputPath) -> Option<Seq<u32>> {
    match unwrapped(p) {
        Some(q) => {
            let oids = if q.kind == InputKind::RowScan {
                Some(q.oids@)
            } else if q.kind == InputKind::Append {
                members_oids(q.subpaths@, q.subpaths@.len() as int)
            } else {
                None
            };
            match oids {
                Some(s) => if s.len() > 0 {
                    Some(s)
                } else {
                    None
                },
                None => None,
            }
        },
        None => None,
    }
}

fn unwrap_path(p: &InputPath) -> (r: Option<&InputPath>)
    ensures
        match r {
            Some(q) => unwrapped(*p) == Some(*q),
            None => unwrapped(*p) is None,
        },
    decreases p,
{
    if p.kind == InputKind::Projection || p.kind == InputKind::Gather || p.kind
        == InputKind::GatherMerge {
        if p.subpaths.len() > 0 {
            unwrap_path(&p.subpaths[0])
        } else {
            None
        }
    } else {
        Some(p)
    }
}

fn copy_oids(v: &Vec<u32>) -> (r: Vec<u32>)
    ensures
        r@ == v@,
{
    let r = v.clone();
    assert(r@ =~= v@);
    r
}

fn find_member_oids(m: &InputPath) -> (r: Option<Vec<u32>>)
    ensures
        match r {
            Some(v) => member_oids(*m) == Some(v@),
            None => member_oids(*m) is None,
        },
{
    let s = if m.kind == InputKind::Projection {
        if m.subpaths.len() == 0 {
            return Some(Vec::new());
        }
        &m.subpaths[0]
    } else {
        m
    };
    if s.kind == InputKind::RowScan && s.oids.len() > 0 {
        Some(copy_oids(&s.oids))
    } else if s.companion != INVALID_OID {
        let mut v: Vec<u32> = Vec::new();
        v.push(s.companion);
        assert(v@ =~= seq![s.companion]);
        Some(v)
    } else if s.has_data {
        None
    } else {
        Some(Vec::new())
    }
}

proof fn lemma_members_none(s: Seq<InputPath>, k: int, n: int)
    requires
        k <= n,
        members_oids(s, k) is None,
    ensures
        members_oids(s, n) is None,
    decreases n,
{
    if k < n {
        lemma_members_none(s, k, n - 1);
    }
}

/// The metadata tables that a path reads; none where it reads anything else.
pub fn extract_companion_oids(p: &InputPath) -> (r: Option<Vec<u32>>)
    ensures
        match r {
            Some(v) => companion_oids(*p) == Some(v@),
            None => companion_oids(*p) is None,
        },
{
    let q = match unwrap_path(p) {
        Some(q) => q,
        None => {
            return None;
        },
    };
    if q.kind == InputKind::RowScan {
        if q.oids.len() == 0 {
            return None;
        }
        return Some(copy_oids(&q.oids));
    }
    if q.kind != InputKind::Append {
        return None;
    }
    let mut out: Vec<u32> = Vec::new();
    let mut i: usize = 0;
    while i < q.subpaths.len()
        invariant
            i <= q.subpaths.len(),
            unwrapped(*p) == Some(*q),
            q.kind == InputKind::Append,
            members_oids(q.subpaths@, i as int) == Some(out@),
        decreases q.subpaths.len() - i,
    {
        match find_member_oids(&q.subpaths[i]) {
            Some(mut v) => {
                out.append(&mut v);
            },
            None => {
                proof {
                    lemma_members_none(q.subpaths@, i + 1, q.subpaths@.len() as int);
                }
                return None;
            },
        }
        i += 1;
    }
    if out.len() == 0 {
        None
    } else {
        Some(out)
    }
}

/// Name of the metadata table that a partition would have; none where the
/// relation is unknown, there are no such tables, or it is one itself.
pub fn companion_table_name(
    rel_name: &Option<String>,
    compressed_namespace: u32,
    rel_namespace: u32,
) -> (r: Option<String>)
    ensures
        match r {
            Some(n) => *rel_name matches Some(s) && compressed_namespace != INVALID_OID
                && rel_namespace != compressed_namespace && n@ == s@ + "_meta"@,
            None => *rel_name is None || compressed_namespace == INVALID_OID || rel_namespace
                == compressed_namespace,
        },
{
    match rel_name {
        Some(s) => {
            if compressed_namespace == INVALID_OID || rel_namespace == compressed_namespace {
                return None;
            }
            Some(joined(s.as_str(), "_meta"))
        },
        None => None,
    }
}

/// Name of the partition that a metadata table belongs to.
pub fn partition_of_companion(meta_name: &str) -> (r: String)
    ensures
        r@ == without_suffix(meta_name@, "_meta"@),
{
    strip_text_suffix(meta_name, "_meta")
}

/// Name of the table of column statistics beside a metadata table.
pub fn colstats_table_name(meta_name: &str) -> (r: String)
    ensures
        r@ == without_suffix(meta_name@, "_meta"@) + "_colstats"@,
{
    let part = partition_of_companion(meta_name);
    joined(part.as_str(), "_colstats")
}

/// A partition is found again from the name of its metadata table.
pub proof fn lemma_companion_name_round_trip(name: Seq<char>)
    ensures
        without_suffix(name + "_meta"@, "_meta"@) == name,
{
    let s = name + "_meta"@;
    let n = name.len() as int;
    assert(s.subrange(n, s.len() as int) =~= "_meta"@);
    assert(s.subrange(0, n) =~= name);
}

// ---------------------------------------------------------------------------
// Row scans
// ---------------------------------------------------------------------------

/// What kind of relation is planned.
#[derive(Clone, Copy, Debug, PartialEq, Eq, Structural)]
pub enum RelKind {
    /// A table of the query.
    Base,
    /// A child of one.
    Member,
    Other,
}

/// Segments that make a worker worth it.
pub const MIN_SEGS_PER_WORKER: u128 = 8;

pub open spec fn total(s: Seq<u64>, n: int) -> int
    decreases n,
{
    if n <= 0 {
        0
    } else {
        total(s, n - 1) + s[n - 1]
    }
}

pub open spec fn min3(a: int, b: int, c: int) -> int {
    let ab = if a <= b {
        a
    } else {
        b
    };
    if ab <= c {
        ab
    } else {
        c
    }
}

/// Workers for a scan of all partitions: none without a cap, at most both caps,
/// and one for every `MIN_SEGS_PER_WORKER` segments.
pub open spec fn scan_workers(cap: i32, pg_cap: i32, segments: int) -> int {
    let n = min3(
        cap as int,
        pg_cap as int,
        (segments / (MIN_SEGS_PER_WORKER as int)) as i32 as int,
    );
    if cap <= 0 || n < 0 {
        0
    } else {
        n
    }
}

/// A scan gets no more workers than either cap allows, and none that would have
/// fewer than `MIN_SEGS_PER_WORKER` segments.
pub proof fn lemma_workers_bounded(cap: i32, pg_cap: i32, segments: int)
    requires
        0 <= segments <= i32::MAX,
    ensures
        ({
            let n = scan_workers(cap, pg_cap, segments);
            &&& 0 <= n
            &&& n > 0 ==> n <= cap && n <= pg_cap
            &&& n * MIN_SEGS_PER_WORKER <= segments
        }),
{
    let n = segments / (MIN_SEGS_PER_WORKER as int);
    assert(n * 8 <= segments);
}

/// Workers for a scan of all partitions, given the segments of each.
pub fn recommend_scan_workers(cap: i32, pg_cap: i32, segment_counts: &Vec<u64>) -> (r: i32)
    ensures
        r == scan_workers(cap, pg_cap, total(segment_counts@, segment_counts@.len() as int)),
{
    if cap <= 0 {
        return 0;
    }
    let mut sum: u128 = 0;
    let mut i: usize = 0;
    while i < segment_counts.len()
        invariant
            i <= segment_counts.len(),
            sum == total(segment_counts@, i as int),
            sum <= i * 0xffff_ffff_ffff_ffff,
        decreases segment_counts.len() - i,
    {
        assert(i * 0xffff_ffff_ffff_ffff <= 0xffff_ffff_ffff_ffff * 0xffff_ffff_ffff_ffff)
            by (nonlinear_arith)
            requires
                i <= 0xffff_ffff_ffff_ffff,
        ;
        sum = sum + segment_counts[i] as u128;
        i += 1;
    }
    let seg_floor: i32 = #[verifier::truncate]
    ((sum / MIN_SEGS_PER_WORKER) as i32);
    let cap2: i32 = if cap <= pg_cap {
        cap
    } else {
        pg_cap
    };
    let n: i32 = if cap2 <= seg_floor {
        cap2
    } else {
        seg_floor
    };
    if n < 0 {
        0
    } else {
        n
    }
}

/// The limit that a row scan applies: the query's, where it is sorted by a
/// plain column of the relation.
pub open spec fn row_scan_topn(t: TopnInfo, attno: Option<i16>) -> ScanTopn {
    match attno {
        Some(a) => if t.limit > 0 {
            ScanTopn {
                limit: t.limit,
                ascending: t.ascending,
                multi_col: t.multi_col,
                sort_col_attno: a as i32,
                nulls_first: t.nulls_first,
            }
        } else {
            unlimited(t)
        },
        None => unlimited(t),
    }
}

pub open spec fn unlimited(t: TopnInfo) -> ScanTopn {
    ScanTopn {
        limit: 0,
        ascending: t.ascending,
        multi_col: false,
        sort_col_attno: 0,
        nulls_first: t.nulls_first,
    }
}

/// The limit that a row scan applies.
pub fn scan_topn(t: TopnInfo, attno: Option<i16>) -> (r: ScanTopn)
    ensures
        r == row_scan_topn(t, attno),
{
    match attno {
        Some(a) => {
            if t.limit > 0 {
                return ScanTopn {
                    limit: t.limit,
                    ascending: t.ascending,
                    multi_col: t.multi_col,
                    sort_col_attno: a as i32,
                    nulls_first: t.nulls_first,
                };
            }
        },
        None => {},
    }
    ScanTopn {
        limit: 0,
        ascending: t.ascending,
        multi_col: false,
        sort_col_attno: 0,
        nulls_first: t.nulls_first,
    }
}

/// The scan of a relation.
pub enum RelScan {
    /// None of the extension's.
    Nothing,
    /// One scan of all partitions, with `workers` workers beside it.
    Append { companion_oids: Vec<u32>, topn: ScanTopn, workers: i32 },
    /// The scan of one partition; `sorted` where its output is sorted by time.
    Decompress { companion: u32, topn: ScanTopn, sorted: bool },
}

/// A relation to be scanned, and what the catalog says of it.
pub struct RelQuery {
    pub is_relation: bool,
    pub kind: RelKind,
    pub inh: bool,
    pub relid: u32,
    pub append_rels: Vec<AppendRel>,
    pub pathkeys: Vec<PathKey>,
    pub topn: TopnInfo,
    /// Metadata tables of the partitions of a table that can be scanned as one.
    pub children: Option<Vec<u32>>,
    /// Segments of each of these.
    pub segment_counts: Vec<u64>,
    pub consider_parallel: bool,
    pub worker_cap: i32,
    pub pg_worker_cap: i32,
    /// Metadata table of the relation itself.
    pub companion: u32,
    /// Time column of a partition's parent.
    pub time_attno: Option<i16>,
    /// Whether the parent's segments are split by columns.
    pub segmented: bool,
}

impl RelQuery {
    pub open spec fn sort_attno(&self) -> Option<i16> {
        order_by_attno(self.pathkeys@, self.relid, parent_of(self.append_rels@, self.relid))
    }

    /// Whether the table is scanned as one.
    pub open spec fn as_one(&self) -> bool {
        self.is_relation && self.kind == RelKind::Base && self.inh && self.children is Some
    }

    /// Whether the relation is a compressed partition or table of its own.
    pub open spec fn single(&self) -> bool {
        self.is_relation && !self.as_one() && self.kind != RelKind::Other && self.companion
            != INVALID_OID
    }

    /// Whether the relation's rows come out sorted by time, as the query asks.
    pub open spec fn time_sorted(&self) -> bool {
        self.kind == RelKind::Member && !self.segmented && (self.time_attno matches Some(a)
            && self.pathkeys@.len() > 0 && self.pathkeys@[0].direction == SortDirection::Ascending
            && exists|i: int|
            0 <= i < self.pathkeys@[0].members@.len() && is_column_of(
                #[trigger] exprs(self.pathkeys@[0].members@)[i],
                self.relid,
                a,
            ))
    }
}

/// Decides how a relation is scanned.
pub fn set_rel_pathlist(q: &RelQuery) -> (r: RelScan)
    ensures
        match r {
            RelScan::Append { companion_oids, topn, workers } => q.as_one() && q.children->0@
                == companion_oids@ && topn == row_scan_topn(q.topn, q.sort_attno()) && workers == if q.consider_parallel
                && topn.limit == 0 {
                scan_workers(
                    q.worker_cap,
                    q.pg_worker_cap,
                    total(q.segment_counts@, q.segment_counts@.len() as int),
                )
            } else {
                0
            },
            RelScan::Decompress { companion, topn, sorted } => q.single() && companion
                == q.companion && topn == row_scan_topn(q.topn, q.sort_attno()) && sorted
                == q.time_sorted(),
            RelScan::Nothing => !q.as_one() && !q.single(),
        },
{
    if !q.is_relation {
        return RelScan::Nothing;
    }
    if q.kind == RelKind::Base && q.inh {
        if let Some(children) = &q.children {
            let attno = extract_order_by_attno(&q.pathkeys, &q.append_rels, q.relid);
            let topn = scan_topn(q.topn, attno);
            let workers: i32 = if q.consider_parallel && topn.limit == 0 {
                recommend_scan_workers(q.worker_cap, q.pg_worker_cap, &q.segment_counts)
            } else {
                0
            };
            let companion_oids = children.clone();
            assert(companion_oids@ =~= children@);
            return RelScan::Append { companion_oids, topn, workers };
        }
    }
    if q.kind == RelKind::Other || q.companion == INVALID_OID {
        return RelScan::Nothing;
    }
    let attno = extract_order_by_attno(&q.pathkeys, &q.append_rels, q.relid);
    let topn = scan_topn(q.topn, attno);
    let sorted = q.kind == RelKind::Member && !q.segmented && match q.time_attno {
        Some(a) => check_time_pathkey(&q.pathkeys, q.relid, a),
        None => false,
    };
    RelScan::Decompress { companion: q.companion, topn, sorted }
}

/// Rows and pages of a compressed partition for the planner, whose own heap is
/// empty: the catalog's row count, and where no pages are known a hundred rows
/// to a page. None where the row count is unknown or not positive.
pub fn relation_size(row_count: Option<i64>, pages: u32) -> (r: Option<(i64, u32)>)
    ensures
        match r {
            Some((rows, p)) => row_count == Some(rows) && rows > 0 && p == if pages != 0 {
                pages as int
            } else if (rows + 99) / 100 > u32::MAX {
                u32::MAX as int
            } else {
                (rows + 99) / 100
            },
            None => row_count matches Some(n) ==> n <= 0,
        },
{
    match row_count {
        Some(n) => {
            if n <= 0 {
                return None;
            }
            if pages != 0 {
                return Some((n, pages));
            }
            let wanted: u64 = (n as u64 + 99) / 100;
            let p: u32 = if wanted > u32::MAX as u64 {
                u32::MAX
            } else {
                wanted as u32
            };
            Some((n, p))
        },
        None => None,
    }
}

// ---------------------------------------------------------------------------
// Cardinality of groupings
// ---------------------------------------------------------------------------

/// Whether a grouping is by a plain text column.
pub open spec fn is_text_group(g: Group) -> bool {
    g.expr is Column && (is_string_oid(g.type_oid) || g.type_oid == NAMEOID)
}

/// Number of distinct values of a text column above which single-threaded
/// grouping of few rows is left to PostgreSQL.
pub const HIGH_CARDINALITY: i64 = 100_000;

/// Whether the grouping is by a text column with very many distinct values, the
/// WHERE clause leaves few rows, and there are no workers.
pub open spec fn bails_on_text(
    groups: Seq<Group>,
    ndistinct: Seq<Option<i64>>,
    has_where: bool,
    n_workers: i32,
    few_rows: bool,
) -> bool {
    has_where && n_workers <= 1 && few_rows && exists|i: int|
        0 <= i < groups.len() && is_text_group(#[trigger] groups[i]) && (ndistinct[i] matches Some(n)
            && n > HIGH_CARDINALITY)
}

/// Whether the grouping is left to PostgreSQL: it is by a text column with very
/// many distinct values, the WHERE clause leaves few rows, and there are no
/// workers. `ndistinct` holds the number of distinct values of each grouping's
/// column, where it is known.
pub fn text_grouping_bails(
    groups: &Vec<GroupByColSpec>,
    ndistinct: &Vec<Option<i64>>,
    has_where: bool,
    n_workers: i32,
    few_rows: bool,
) -> (r: bool)
    requires
        groups@.len() == ndistinct@.len(),
    ensures
        r == bails_on_text(groups_view(groups@), ndistinct@, has_where, n_workers, few_rows),
{
    if !has_where || n_workers > 1 || !few_rows {
        return false;
    }
    let ghost gs = groups_view(groups@);
    let mut i: usize = 0;
    while i < groups.len()
        invariant
            i <= groups.len() == ndistinct.len(),
            has_where && n_workers <= 1 && few_rows,
            gs == groups_view(groups@),
            forall|j: int|
                0 <= j < i ==> !(is_text_group(#[trigger] gs[j]) && (ndistinct@[j] matches Some(n)
                    && n > HIGH_CARDINALITY)),
        decreases groups.len() - i,
    {
        let g = &groups[i];
        assert(gs[i as int] == g.view());
        let text = matches!(g.expr, GroupByExpr::Column) && (is_string_type(g.type_oid)
            || g.type_oid == NAMEOID);
        let high = match ndistinct[i] {
            Some(n) => n > HIGH_CARDINALITY,
            None => false,
        };
        if text && high {
            assert(is_text_group(gs[i as int]));
            return true;
        }
        i += 1;
    }
    false
}

/// The largest of the counts of one column among the first `n` entries, 0 where
/// it has none.
pub open spec fn largest_count(s: Seq<(String, i64)>, col: Seq<char>, n: int) -> int
    decreases n,
{
    if n <= 0 {
        0
    } else {
        let before = largest_count(s, col, n - 1);
        if s[n - 1].0@ == col && s[n - 1].1 > before {
            s[n - 1].1 as int
        } else {
            before
        }
    }
}

pub open spec fn is_counted(s: Seq<(String, i64)>, col: Seq<char>) -> bool {
    exists|i: int| 0 <= i < s.len() && (#[trigger] s[i]).0@ == col
}

/// The number of distinct values of a column over all partitions.
pub open spec fn merged_count(s: Seq<(String, i64)>, col: Seq<char>, row_cap: i64) -> Option<i64> {
    let m = largest_count(s, col, s.len() as int);
    if !is_counted(s, col) {
        None
    } else if m <= row_cap {
        Some(m as i64)
    } else {
        Some(row_cap)
    }
}

/// Number of distinct values of a column over all partitions: the largest of
/// the partitions' numbers, since the same values recur, but no more than there
/// are rows. None where no partition has a number.
pub fn merged_ndistinct(counts: &Vec<(String, i64)>, col: &str, row_cap: i64) -> (r: Option<i64>)
    requires
        row_cap >= 0,
    ensures
        r == merged_count(counts@, col@, row_cap),
        r matches Some(n) ==> n >= 0,
{
    let mut best: i64 = 0;
    let mut found = false;
    let mut i: usize = 0;
    while i < counts.len()
        invariant
            i <= counts.len(),
            best >= 0,
            best == largest_count(counts@, col@, i as int),
            found <==> exists|j: int| 0 <= j < i && (#[trigger] counts@[j]).0@ == col@,
        decreases counts.len() - i,
    {
        if text_is(counts[i].0.as_str(), col) {
            found = true;
            assert(counts@[i as int].0@ == col@);
            if counts[i].1 > best {
                best = counts[i].1;
            }
        }
        i += 1;
    }
    if !found {
        None
    } else if best <= row_cap {
        Some(best)
    } else {
        Some(row_cap)
    }
}

// ---------------------------------------------------------------------------
// Statements that change compressed partitions
// ---------------------------------------------------------------------------

#[derive(Clone, Copy, Debug, PartialEq, Eq, Structural)]
pub enum Command {
    Insert,
    Update,
    Delete,
    Other,
}

/// A relation that a statement changes.
pub struct ResultRelation {
    pub relid: u32,
    pub name: Option<String>,
    /// Metadata table, `INVALID_OID` where it is not compressed.
    pub companion: u32,
}

pub open spec fn command_text(c: Command) -> Seq<char> {
    match c {
        Command::Insert => "INSERT into"@,
        Command::Update => "UPDATE"@,
        Command::Delete => "DELETE from"@,
        Command::Other => "modify"@,
    }
}

pub open spec fn relation_text(r: ResultRelation) -> Seq<char> {
    match r.name {
        Some(n) => n@,
        None => "OID "@ + numeral(r.relid as nat),
    }
}

/// Why a statement is refused.
pub open spec fn refusal(c: Command, r: ResultRelation) -> Seq<char> {
    "cannot "@ + command_text(c) + " compressed partition \""@ + relation_text(r)
        + "\", decompress it first"@
}

/// Refuses a statement that changes a compressed partition, whose rows would
/// not be seen again; the first such partition is named. A query, or a
/// statement of the extension itself, is let through.
pub fn check_dml(state: &HookState, command: Command, relations: &Vec<ResultRelation>) -> (r: Result<
    (),
    String,
>)
    ensures
        ({
            let hit = first_where(relations@, |x: ResultRelation| x.companion != INVALID_OID);
            match r {
                Ok(_) => command == Command::Other || state.dml_bypass || hit is None,
                Err(m) => command != Command::Other && !state.dml_bypass && (hit matches Some(i)
                    && m@ == refusal(command, relations@[i])),
            }
        }),
{
    if command == Command::Other || state.dml_bypass {
        return Ok(());
    }
    let ghost p = |x: ResultRelation| x.companion != INVALID_OID;
    let mut i: usize = 0;
    while i < relations.len()
        invariant
            i <= relations.len(),
            command != Command::Other,
            !state.dml_bypass,
            p == (|x: ResultRelation| x.companion != INVALID_OID),
            forall|j: int| 0 <= j < i ==> !p(#[trigger] relations@[j]),
        decreases relations.len() - i,
    {
        if relations[i].companion != INVALID_OID {
            proof {
                lemma_first_is(relations@, p, i as int);
            }
            let mut m: String = "cannot ".to_owned();
            match command {
                Command::Insert => m.append("INSERT into"),
                Command::Update => m.append("UPDATE"),
                Command::Delete => m.append("DELETE from"),
                Command::Other => m.append("modify"),
            }
            m.append(" compressed partition \"");
            let ghost before = m@;
            match &relations[i].name {
                Some(n) => m.append(n.as_str()),
                None => {
                    m.append("OID ");
                    append_numeral(&mut m, relations[i].relid as u64);
                },
            }
            assert(m@ =~= before + relation_text(relations@[i as int]));
            m.append("\", decompress it first");
            return Err(m);
        }
        i += 1;
    }
    proof {
        lemma_first_none(relations@, p);
    }
    Ok(())
}

} // verus!
