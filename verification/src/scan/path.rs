//! Paths that the planner is offered, and what they hand to the plan.

use vstd::prelude::*;
use crate::pg_types::{
    is_float_oid, is_float_type, is_integer_oid, is_integer_type, is_string_oid, is_string_type,
    is_temporal_oid, is_temporal_type, BOOLOID, INT2OID, INT4OID, INVALID_OID,
};
use crate::scan::agg_types::{AggSpec, AggType, HavingFilter};
use crate::scan::json_extract::{targets, Target, TargetEntry};
use crate::scan::json_prune::{
    limit_section, list_vars, pull_list_vars, pull_vars, vars_of, with_columns, Loaded,
};
use crate::scan::node::{exprs, Node, Var};
use crate::scan::wire::{
    append_oids_as_ints, append_qual_list_as_bytes, flag, low_half, oid_ints, opt_bytes, qual_ints,
};
use crate::search::{lemma_first_is, lemma_first_none};

verus! {

// ---------------------------------------------------------------------------
// What is handed from path to plan
// ---------------------------------------------------------------------------

/// Limit on the groups of an aggregate scan.
///
/// `sort_col` is the output column that is sorted by, -1 where nothing is, or
/// `TOPN_SORT_COL_DERIVED`; then `derived_minmax` holds the aggregates whose
/// difference, maximum less minimum, is sorted by.
#[derive(Clone, Copy, Debug)]
pub struct AggTopnInfo {
    pub limit: i64,
    pub sort_col: i32,
    pub ascending: bool,
    pub derived_minmax: Option<(i32, i32)>,
}

/// `sort_col` where a difference of a MAX and a MIN is sorted by.
pub const TOPN_SORT_COL_DERIVED: i32 = -3;

/// Limit on the rows of a scan; none where `limit` is 0.
#[derive(Clone, Copy, Debug, PartialEq, Eq, Structural)]
pub struct ScanTopn {
    pub limit: i64,
    pub ascending: bool,
    pub multi_col: bool,
    pub sort_col_attno: i32,
    pub nulls_first: bool,
}

pub open spec fn no_limit() -> ScanTopn {
    ScanTopn {
        limit: 0,
        ascending: true,
        multi_col: false,
        sort_col_attno: 0,
        nulls_first: false,
    }
}

/// What a session keeps between the making of an aggregate path and of its plan.
pub struct PathState {
    pub having_filters: Vec<HavingFilter>,
    pub agg_topn: Option<AggTopnInfo>,
}

/// The limit that a session keeps between the making of a row scan's path and
/// of its plan. The two kinds of row scan have one each.
pub struct TopnCell {
    pub held: ScanTopn,
}

impl TopnCell {
    pub fn new() -> (r: TopnCell)
        ensures
            r.held == no_limit(),
    {
        TopnCell {
            held: ScanTopn {
                limit: 0,
                ascending: true,
                multi_col: false,
                sort_col_attno: 0,
                nulls_first: false,
            },
        }
    }

    /// Keeps a limit for the next plan; a limit of 0 or less is none.
    pub fn set(&mut self, t: ScanTopn)
        ensures
            final(self).held == effective_topn(t),
    {
        if t.limit > 0 {
            self.held = t;
        } else {
            *self = TopnCell::new();
        }
    }

    /// Takes the limit; none is kept.
    pub fn take(&mut self) -> (r: ScanTopn)
        ensures
            r == old(self).held,
            final(self).held == no_limit(),
    {
        let r = self.held;
        *self = TopnCell::new();
        r
    }
}

impl PathState {
    pub fn new() -> (r: PathState)
        ensures
            r.having_filters@ == Seq::<HavingFilter>::empty(),
            r.agg_topn is None,
    {
        PathState { having_filters: Vec::new(), agg_topn: None }
    }
}

/// Keeps the HAVING filters for the next aggregate plan.
pub fn set_agg_having_filters(state: &mut PathState, filters: Vec<HavingFilter>)
    ensures
        final(state).having_filters == filters,
        final(state).agg_topn == old(state).agg_topn,
{
    state.having_filters = filters;
}

/// Takes the HAVING filters; none are kept.
pub fn take_agg_having_filters(state: &mut PathState) -> (r: Vec<HavingFilter>)
    ensures
        r == old(state).having_filters,
        final(state).having_filters@ == Seq::<HavingFilter>::empty(),
        final(state).agg_topn == old(state).agg_topn,
{
    let mut out: Vec<HavingFilter> = Vec::new();
    core::mem::swap(&mut state.having_filters, &mut out);
    out
}

/// Keeps a limit by an output column for the next aggregate plan.
pub fn set_agg_topn_info(state: &mut PathState, limit: i64, sort_col: i32, ascending: bool)
    ensures
        final(state).agg_topn == Some(
            AggTopnInfo { limit, sort_col, ascending, derived_minmax: None },
        ),
        final(state).having_filters == old(state).having_filters,
{
    state.agg_topn = Some(AggTopnInfo { limit, sort_col, ascending, derived_minmax: None });
}

/// Keeps a limit by the difference of a MAX and a MIN for the next aggregate plan.
pub fn set_agg_topn_info_derived_minmax(
    state: &mut PathState,
    limit: i64,
    ascending: bool,
    max_agg_idx: i32,
    min_agg_idx: i32,
)
    ensures
        final(state).agg_topn == Some(
            AggTopnInfo {
                limit,
                sort_col: TOPN_SORT_COL_DERIVED,
                ascending,
                derived_minmax: Some((max_agg_idx, min_agg_idx)),
            },
        ),
        final(state).having_filters == old(state).having_filters,
{
    state.agg_topn = Some(
        AggTopnInfo {
            limit,
            sort_col: TOPN_SORT_COL_DERIVED,
            ascending,
            derived_minmax: Some((max_agg_idx, min_agg_idx)),
        },
    );
}

/// Drops a limit that an earlier query left behind.
pub fn clear_agg_topn_info(state: &mut PathState)
    ensures
        final(state).agg_topn is None,
        final(state).having_filters == old(state).having_filters,
{
    state.agg_topn = None;
}

/// Takes the limit; none is kept.
pub fn take_agg_topn_info(state: &mut PathState) -> (r: Option<AggTopnInfo>)
    ensures
        r == old(state).agg_topn,
        final(state).agg_topn is None,
        final(state).having_filters == old(state).having_filters,
{
    let r = state.agg_topn;
    state.agg_topn = None;
    r
}

/// The limit that is kept.
pub fn peek_agg_topn_info(state: &PathState) -> (r: Option<AggTopnInfo>)
    ensures
        r == state.agg_topn,
{
    state.agg_topn
}

/// The limit that is kept for a scan: `t` where it limits anything.
pub open spec fn effective_topn(t: ScanTopn) -> ScanTopn {
    if t.limit > 0 {
        t
    } else {
        no_limit()
    }
}

// ---------------------------------------------------------------------------
// Row scans
// ---------------------------------------------------------------------------

/// Whether `v` reads a column of relation `varno` of this query.
pub open spec fn reads(v: Var, varno: i32, col: int) -> bool {
    v.varno == varno && v.varlevelsup == 0 && v.varattno > 0 && v.varattno - 1 == col
}

/// Whether column `col` of relation `varno` is read.
pub open spec fn is_read(vars: Seq<Var>, varno: i32, col: int) -> bool {
    exists|i: int| 0 <= i < vars.len() && reads(#[trigger] vars[i], varno, col)
}

/// The column references of the first `n` entries of a target list.
pub open spec fn tlist_vars(s: Seq<Target>, n: int) -> Seq<Var>
    decreases n,
{
    if n <= 0 {
        Seq::empty()
    } else {
        tlist_vars(s, n - 1) + vars_of(s[n - 1].expr)
    }
}

/// Ascending, without repetition.
pub open spec fn ascending(s: Seq<i32>) -> bool {
    forall|i: int, j: int| 0 <= i < j < s.len() ==> s[i] < s[j]
}

/// Adds `c` to an ascending list, at its place.
fn insert_ascending(list: &mut Vec<i32>, c: i32)
    requires
        ascending(old(list)@),
    ensures
        ascending(final(list)@),
        forall|d: i32| #[trigger] final(list)@.contains(d) <==> old(list)@.contains(d) || d == c,
{
    let ghost before = list@;
    let mut i: usize = 0;
    while i < list.len() && list[i] < c
        invariant
            i <= list.len(),
            list@ == before,
            forall|j: int| 0 <= j < i ==> list@[j] < c,
        decreases list.len() - i,
    {
        i += 1;
    }
    if i < list.len() && list[i] == c {
        assert(list@.contains(c));
        return ;
    }
    list.insert(i, c);
    assert forall|d: i32| #[trigger] list@.contains(d) <==> before.contains(d) || d == c by {
        if before.contains(d) {
            let k = choose|k: int| 0 <= k < before.len() && before[k] == d;
            if k < i {
                assert(list@[k] == d);
            } else {
                assert(list@[k + 1] == d);
            }
        }
        if d == c {
            assert(list@[i as int] == c);
        }
        if list@.contains(d) {
            let k = choose|k: int| 0 <= k < list@.len() && list@[k] == d;
            if k < i {
                assert(before[k] == d);
            } else if k > i {
                assert(before[k - 1] == d);
            }
        }
    }
}

/// The columns of relation `varno` that a target list and a filter read, in
/// ascending order.
pub fn needed_columns(tlist: &Vec<TargetEntry>, quals: &Vec<Node>, varno: i32) -> (r: Vec<i32>)
    ensures
        ascending(r@),
        forall|c: i32| #[trigger]
            r@.contains(c) <==> is_read(
                tlist_vars(targets(tlist@), tlist@.len() as int) + list_vars(
                    exprs(quals@),
                    quals@.len() as int,
                ),
                varno,
                c as int,
            ),
{
    let ghost tl = targets(tlist@);
    let mut vars: Vec<Var> = Vec::new();
    let mut i: usize = 0;
    while i < tlist.len()
        invariant
            i <= tlist.len(),
            tl == targets(tlist@),
            vars@ == tlist_vars(tl, i as int),
        decreases tlist.len() - i,
    {
        pull_vars(&tlist[i].expr, &mut vars);
        assert(tl[i as int] == tlist@[i as int].view());
        i += 1;
    }
    pull_list_vars(quals, &mut vars);
    let ghost all = vars@;
    let mut out: Vec<i32> = Vec::new();
    let mut k: usize = 0;
    while k < vars.len()
        invariant
            k <= vars.len(),
            all == vars@,
            ascending(out@),
            forall|c: i32| #[trigger]
                out@.contains(c) <==> is_read(all.subrange(0, k as int), varno, c as int),
        decreases vars.len() - k,
    {
        let v = vars[k];
        let ghost before = out@;
        if v.varno == varno && v.varlevelsup == 0 && v.varattno > 0 {
            insert_ascending(&mut out, v.varattno as i32 - 1);
        }
        k += 1;
        assert forall|c: i32| #[trigger]
            out@.contains(c) <==> is_read(all.subrange(0, k as int), varno, c as int) by {
            let s = all.subrange(0, k - 1);
            let t = all.subrange(0, k as int);
            assert(t[k - 1] == v);
            if is_read(s, varno, c as int) {
                let j = choose|j: int| 0 <= j < s.len() && reads(#[trigger] s[j], varno, c as int);
                assert(reads(t[j], varno, c as int));
            }
            if is_read(t, varno, c as int) {
                let j = choose|j: int| 0 <= j < t.len() && reads(#[trigger] t[j], varno, c as int);
                if j < k - 1 {
                    assert(reads(s[j], varno, c as int));
                }
            }
            assert(before.contains(c) <==> is_read(s, varno, c as int));
            if reads(v, varno, c as int) {
                assert(reads(t[k - 1], varno, c as int));
            }
        }
    }
    assert(all.subrange(0, k as int) =~= all);
    out
}

/// The limit in a row scan's description.
pub open spec fn scan_topn_ints(t: ScanTopn) -> Seq<i32> {
    if t.limit > 0 {
        seq![
            -2i32,
            t.limit as i32,
            flag(t.ascending),
            flag(t.multi_col),
            t.sort_col_attno,
            flag(t.nulls_first),
        ]
    } else {
        Seq::empty()
    }
}

/// The description of a row scan: `[tables.., -1, columns.., (-2, limit..)?]`.
pub open spec fn scan_ints(oids: Seq<u32>, cols: Seq<i32>, t: ScanTopn) -> Seq<i32> {
    oid_ints(oids).push(-1i32) + cols + scan_topn_ints(t)
}

fn as_flag(b: bool) -> (r: i32)
    ensures
        r == flag(b),
{
    if b {
        1
    } else {
        0
    }
}

/// Builds the description of a row scan over `companion_oids` that loads the
/// columns `cols`.
pub fn build_scan_private(companion_oids: &Vec<u32>, cols: &Vec<i32>, t: ScanTopn) -> (r: Vec<i32>)
    ensures
        r@ == scan_ints(companion_oids@, cols@, t),
{
    let mut out: Vec<i32> = Vec::new();
    append_oids_as_ints(&mut out, companion_oids);
    assert(out@ =~= oid_ints(companion_oids@));
    out.push(-1);
    let ghost head = out@;
    let mut i: usize = 0;
    assert(out@ =~= head + cols@.subrange(0, 0));
    while i < cols.len()
        invariant
            i <= cols.len(),
            out@ == head + cols@.subrange(0, i as int),
        decreases cols.len() - i,
    {
        out.push(cols[i]);
        i += 1;
        assert(out@ =~= head + cols@.subrange(0, i as int));
    }
    assert(cols@.subrange(0, i as int) =~= cols@);
    let ghost body = out@;
    if t.limit > 0 {
        out.push(-2);
        out.push(low_half(t.limit));
        out.push(as_flag(t.ascending));
        out.push(as_flag(t.multi_col));
        out.push(t.sort_col_attno);
        out.push(as_flag(t.nulls_first));
    }
    assert(out@ =~= body + scan_topn_ints(t));
    out
}

/// A planned row scan's description, from its tables, its target list, its
/// filter and the limit that is kept for it; the limit is taken.
pub fn plan_scan_path(
    cell: &mut TopnCell,
    companion_oids: &Vec<u32>,
    tlist: &Vec<TargetEntry>,
    quals: &Vec<Node>,
    relid: i32,
) -> (r: Vec<i32>)
    ensures
        exists|cols: Seq<i32>| #[trigger]
            ascending(cols) && (forall|c: i32| #[trigger]
                cols.contains(c) <==> is_read(
                    tlist_vars(targets(tlist@), tlist@.len() as int) + list_vars(
                        exprs(quals@),
                        quals@.len() as int,
                    ),
                    relid,
                    c as int,
                )) && r@ == scan_ints(companion_oids@, cols, old(cell).held),
        final(cell).held == no_limit(),
{
    let cols = needed_columns(tlist, quals, relid);
    let t = cell.take();
    let r = build_scan_private(companion_oids, &cols, t);
    assert(ascending(cols@));
    r
}

/// The list of extracted columns in a row scan's description.
pub open spec fn synth_ints(synth: Seq<i32>) -> Seq<i32> {
    if synth.len() > 0 {
        seq![-3i32] + synth
    } else {
        Seq::empty()
    }
}

/// Replacing the columns of a row scan keeps its tables and its limit.
pub proof fn lemma_columns_replaced(oids: Seq<u32>, cols: Seq<i32>, t: ScanTopn, l: Loaded)
    requires
        forall|i: int| 0 <= i < oids.len() ==> #[trigger] oids[i] != u32::MAX,
        forall|i: int| 0 <= i < cols.len() ==> #[trigger] cols[i] >= 0,
        t.limit <= i32::MAX,
        t.sort_col_attno >= 0,
    ensures
        with_columns(scan_ints(oids, cols, t), l) == scan_ints(oids, l.cols, t) + synth_ints(
            l.synth,
        ),
{
    let s = scan_ints(oids, cols, t);
    let n = oids.len() as int;
    let head = oid_ints(oids).push(-1i32);
    let limit = scan_topn_ints(t);
    let is_end = |v: i32| v == -1;
    let is_mark = |v: i32| v == -2 || v == -3;
    let is_synth = |v: i32| v == -3;
    assert forall|i: int| 0 <= i < n implies !is_end(s[i]) by {
        assert(s[i] == oids[i] as i32);
        assert(oids[i] != u32::MAX);
        lemma_oid_is_no_end(oids[i]);
    }
    lemma_first_is(s, is_end, n);
    let rest = s.subrange(n + 1, s.len() as int);
    assert(rest =~= cols + limit);
    assert(s.subrange(0, n + 1) =~= head);
    if t.limit > 0 {
        assert forall|i: int| 0 <= i < cols.len() implies !is_mark(rest[i]) by {
            assert(cols[i] >= 0);
        }
        lemma_first_is(rest, is_mark, cols.len() as int);
        let payload = rest.subrange(cols.len() as int + 1, rest.len() as int);
        assert(payload =~= limit.subrange(1, 6));
        assert forall|i: int| 0 <= i < payload.len() implies !is_synth(payload[i]) by {}
        lemma_first_none(payload, is_synth);
        assert(limit_section(rest) =~= limit);
    } else {
        assert forall|i: int| 0 <= i < rest.len() implies !is_mark(rest[i]) by {
            assert(cols[i] >= 0);
        }
        lemma_first_none(rest, is_mark);
        assert(limit_section(rest) =~= limit);
    }
    assert(with_columns(s, l) =~= scan_ints(oids, l.cols, t) + synth_ints(l.synth));
}

proof fn lemma_oid_is_no_end(o: u32)
    requires
        o != u32::MAX,
    ensures
        o as i32 != -1,
{
    assert(o != 0xffff_ffffu32 ==> o as i32 != -1i32) by (bit_vector);
}

/// The description of a COUNT(*) path: `[tables.., -1, conditions]`.
pub open spec fn count_ints(oids: Seq<u32>, quals: Option<Seq<u8>>) -> Seq<i32> {
    oid_ints(oids).push(-1i32) + qual_ints(quals)
}

/// Builds the description of a COUNT(*) path.
pub fn build_count_private(companion_oids: &Vec<u32>, quals: &Option<Vec<u8>>) -> (r: Vec<i32>)
    ensures
        r@ == count_ints(companion_oids@, opt_bytes(*quals)),
{
    let mut out: Vec<i32> = Vec::new();
    append_oids_as_ints(&mut out, companion_oids);
    assert(out@ =~= oid_ints(companion_oids@));
    out.push(-1);
    append_qual_list_as_bytes(&mut out, quals);
    out
}

// ---------------------------------------------------------------------------
// Extraction and partitions
// ---------------------------------------------------------------------------

/// OID of the relation at a range-table index; `relids[0]` is unused, and a
/// missing entry is `INVALID_OID`.
pub fn rti_to_rel_oid(relids: &Vec<u32>, rti: u32) -> (r: u32)
    ensures
        r == if 0 < rti < relids@.len() {
            relids@[rti as int]
        } else {
            INVALID_OID
        },
{
    if rti == 0 || rti as usize >= relids.len() {
        INVALID_OID
    } else {
        relids[rti as usize]
    }
}

/// Whether every compressed partition holds the extracted columns: the oldest
/// was compressed no earlier than extraction was configured. Where nothing is
/// configured or compressed, nothing can lack them.
pub fn is_json_extract_safe(added_at: Option<i64>, oldest_compressed: Option<i64>) -> (r: bool)
    ensures
        r == (added_at matches Some(a) ==> (oldest_compressed matches Some(o) ==> o >= a)),
{
    match (added_at, oldest_compressed) {
        (Some(a), Some(o)) => o >= a,
        _ => true,
    }
}

// ---------------------------------------------------------------------------
// Parallel aggregation
// ---------------------------------------------------------------------------

/// Whether workers can compute an aggregate in a fixed-size accumulator.
pub open spec fn compact_agg(a: AggSpec) -> bool {
    match a.agg_type {
        AggType::CountStar | AggType::Count => true,
        AggType::Sum | AggType::Avg => is_integer_oid(a.col_type_oid) || is_float_oid(
            a.col_type_oid,
        ),
        AggType::Min | AggType::Max => is_string_oid(a.col_type_oid),
        AggType::CountDistinct => false,
    }
}

/// Whether there are aggregates and workers can compute all of them.
pub fn parallel_compact_aggs_ok(agg_specs: &[AggSpec]) -> (r: bool)
    ensures
        r == (agg_specs@.len() > 0 && forall|i: int|
            0 <= i < agg_specs@.len() ==> compact_agg(#[trigger] agg_specs@[i])),
{
    let mut i: usize = 0;
    while i < agg_specs.len()
        invariant
            i <= agg_specs.len(),
            forall|j: int| 0 <= j < i ==> compact_agg(#[trigger] agg_specs@[j]),
        decreases agg_specs.len() - i,
    {
        let a = agg_specs[i];
        let ok = match a.agg_type {
            AggType::CountStar | AggType::Count => true,
            AggType::Sum | AggType::Avg => is_integer_type(a.col_type_oid) || is_float_type(
                a.col_type_oid,
            ),
            AggType::Min | AggType::Max => is_string_type(a.col_type_oid),
            AggType::CountDistinct => false,
        };
        if !ok {
            return false;
        }
        i += 1;
    }
    agg_specs.len() > 0
}

/// Whether an aggregate's partial value can be passed to PostgreSQL's final
/// aggregate: counts, sums of short integers and floats, extremes of strings.
pub open spec fn emittable_agg(a: AggSpec) -> bool {
    match a.agg_type {
        AggType::CountStar | AggType::Count => true,
        AggType::Sum => a.col_type_oid == INT2OID || a.col_type_oid == INT4OID || is_float_oid(
            a.col_type_oid,
        ),
        AggType::Min | AggType::Max => is_string_oid(a.col_type_oid),
        AggType::Avg | AggType::CountDistinct => false,
    }
}

pub open spec fn all_emittable(aggs: Seq<AggSpec>) -> bool {
    aggs.len() > 0 && forall|i: int| 0 <= i < aggs.len() ==> emittable_agg(#[trigger] aggs[i])
}

/// Whether there are aggregates and the partial values of all can be passed on.
pub fn agg_specs_partial_emittable(agg_specs: &[AggSpec]) -> (r: bool)
    ensures
        r == all_emittable(agg_specs@),
{
    let mut i: usize = 0;
    while i < agg_specs.len()
        invariant
            i <= agg_specs.len(),
            forall|j: int| 0 <= j < i ==> emittable_agg(#[trigger] agg_specs@[j]),
        decreases agg_specs.len() - i,
    {
        let a = agg_specs[i];
        let ok = match a.agg_type {
            AggType::CountStar | AggType::Count => true,
            AggType::Sum => a.col_type_oid == INT2OID || a.col_type_oid == INT4OID
                || is_float_type(a.col_type_oid),
            AggType::Min | AggType::Max => is_string_type(a.col_type_oid),
            AggType::Avg | AggType::CountDistinct => false,
        };
        if !ok {
            return false;
        }
        i += 1;
    }
    agg_specs.len() > 0
}

/// What can be passed on can be computed by workers.
pub proof fn lemma_emittable_is_compact(a: AggSpec)
    requires
        emittable_agg(a),
    ensures
        compact_agg(a),
{
}

/// Types of columns that workers can filter by.
pub open spec fn partial_eligible(t: u32) -> bool {
    is_integer_oid(t) || is_float_oid(t) || is_temporal_oid(t) || t == BOOLOID
}

/// Whether workers can filter by a column of this type.
pub fn is_partial_eligible_var_type(t: u32) -> (r: bool)
    ensures
        r == partial_eligible(t),
{
    is_integer_type(t) || is_float_type(t) || is_temporal_type(t) || t == BOOLOID
}

/// Whether every column that a condition reads can be filtered by workers.
pub open spec fn only_eligible_vars(vars: Seq<Var>) -> bool {
    forall|i: int| 0 <= i < vars.len() ==> partial_eligible((#[trigger] vars[i]).vartype)
}

/// Whether every column that the conditions read can be filtered by workers.
pub fn quals_reference_only_numeric_vars(quals: &Vec<Node>) -> (r: bool)
    ensures
        r == only_eligible_vars(list_vars(exprs(quals@), quals@.len() as int)),
{
    let mut vars: Vec<Var> = Vec::new();
    pull_list_vars(quals, &mut vars);
    assert(vars@ =~= list_vars(exprs(quals@), quals@.len() as int));
    let mut i: usize = 0;
    while i < vars.len()
        invariant
            i <= vars.len(),
            vars@ == list_vars(exprs(quals@), quals@.len() as int),
            forall|j: int| 0 <= j < i ==> partial_eligible((#[trigger] vars@[j]).vartype),
        decreases vars.len() - i,
    {
        if !is_partial_eligible_var_type(vars[i].vartype) {
            return false;
        }
        i += 1;
    }
    true
}

/// How the final aggregate above a partial one works.
#[derive(Clone, Copy, Debug, PartialEq, Eq, Structural)]
pub enum AggStrategy {
    Plain,
    Hashed,
}

/// Whether an aggregate is offered as partial aggregates of workers with a
/// final aggregate above, and how the latter works.
///
/// It is where parallel aggregation is not disabled, there is no HAVING, all
/// partial values can be passed on, the groupings (if any) have compact keys,
/// workers can filter by all columns of the conditions, and at least one worker
/// is worth it.
pub fn partial_agg_strategy(
    disabled: bool,
    has_extra: bool,
    has_having: bool,
    agg_specs: &Vec<AggSpec>,
    num_groups: usize,
    compact_keys: bool,
    quals: &Vec<Node>,
    workers: i32,
) -> (r: Option<AggStrategy>)
    ensures
        r == if !disabled && has_extra && !has_having && all_emittable(agg_specs@) && (num_groups
            == 0 || compact_keys) && only_eligible_vars(
            list_vars(exprs(quals@), quals@.len() as int),
        ) && workers > 0 {
            Some(
                if num_groups == 0 {
                    AggStrategy::Plain
                } else {
                    AggStrategy::Hashed
                },
            )
        } else {
            None
        },
{
    if disabled || !has_extra || has_having {
        return None;
    }
    if !agg_specs_partial_emittable(agg_specs) {
        return None;
    }
    if num_groups > 0 && !compact_keys {
        return None;
    }
    if !quals_reference_only_numeric_vars(quals) {
        return None;
    }
    if workers <= 0 {
        return None;
    }
    if num_groups == 0 {
        Some(AggStrategy::Plain)
    } else {
        Some(AggStrategy::Hashed)
    }
}

pub open spec fn limits(t: Option<AggTopnInfo>) -> bool {
    t matches Some(info) && info.limit > 0
}

/// Whether workers could compute a whole aggregate scan: no HAVING, no limit,
/// aggregates in fixed-size accumulators, compact keys.
pub fn parallel_agg_eligible(
    state: &PathState,
    having_filters: &Vec<HavingFilter>,
    agg_specs: &Vec<AggSpec>,
    num_groups: usize,
    compact_keys: bool,
) -> (r: bool)
    ensures
        r == (having_filters@.len() == 0 && !limits(state.agg_topn) && agg_specs@.len() > 0 && (
        forall|i: int| 0 <= i < agg_specs@.len() ==> compact_agg(#[trigger] agg_specs@[i])) && (
        num_groups == 0 || compact_keys)),
{
    let limited = match peek_agg_topn_info(state) {
        Some(info) => info.limit > 0,
        None => false,
    };
    having_filters.len() == 0 && !limited && parallel_compact_aggs_ok(agg_specs) && (num_groups == 0
        || compact_keys)
}

/// Keeps the HAVING filters of an aggregate path that is offered, where it has
/// any.
pub fn keep_having_filters(state: &mut PathState, having_filters: &Vec<HavingFilter>)
    ensures
        having_filters@.len() == 0 ==> *final(state) == *old(state),
        having_filters@.len() > 0 ==> final(state).having_filters@ == having_filters@,
        final(state).agg_topn == old(state).agg_topn,
{
    if having_filters.len() > 0 {
        let copy = having_filters.clone();
        assert(copy@ =~= having_filters@);
        set_agg_having_filters(state, copy);
    }
}

} // verus!
