//! Reading the description of an aggregate path back.

use vstd::prelude::*;
use vstd::utf8::valid_utf8;
use crate::scan::agg_types::{
    clauses_view, groups_view, AggExpr, AggSpec, AggType, CaseClause, CaseSpec, CaseValue,
    CaseWhenClause, CaseWhenCondition, CaseWhenOp, CaseWhenSpec, CaseWhenValue, Group,
    GroupByColSpec, GroupByExpr, GroupExpr, OutputTransform, ADD_CONST_CODE, MAX_CODE, MIN_CODE,
};
use crate::scan::wire::{
    agg_enc, agg_ints, agg_path_ints, aggs_ints, case_value_ints, clause_enc, clause_ints,
    clauses_ints, condition_enc, condition_ints, conditions_ints, flag, group_enc, group_ints,
    groups_ints, hi32, ints_of, join64, join_halves, lemma_join64, lo32, oid_ints, text_ints,
};
use crate::search::{first_where, lemma_first_is, lemma_first_none};

verus! {

/// An aggregate as it stands in a description.
#[derive(Clone, Copy, Debug, PartialEq, Eq, Structural)]
pub struct ParsedAgg {
    pub agg_type: i32,
    pub col_idx: i32,
    pub result_oid: u32,
    pub col_type_oid: u32,
    pub expr_kind: i32,
    pub const_offset: i32,
    /// 1 where the other two hold a shift in microseconds, else 0.
    pub output_tag: i32,
    pub output_lo: i32,
    pub output_hi: i32,
}

/// The contents of the description of an aggregate path.
pub struct ParsedPath {
    pub companion_oids: Vec<u32>,
    pub aggs: Vec<ParsedAgg>,
    pub groups: Vec<GroupByColSpec>,
    pub is_partial: bool,
}

/// The mathematical value of a `ParsedPath`.
pub struct PathContents {
    pub oids: Seq<u32>,
    pub aggs: Seq<ParsedAgg>,
    pub groups: Seq<Group>,
    pub is_partial: bool,
}

impl ParsedPath {
    pub open spec fn view(&self) -> PathContents {
        PathContents {
            oids: self.companion_oids@,
            aggs: self.aggs@,
            groups: groups_view(self.groups@),
            is_partial: self.is_partial,
        }
    }
}

// ---------------------------------------------------------------------------
// What a description says. Each `take_..` gives an item that starts at `at` and
// the position behind it; none where the description ends too early.
// ---------------------------------------------------------------------------

/// `n` items, one after another.
pub open spec fn take_n<A>(
    take: spec_fn(Seq<i32>, int) -> Option<(A, int)>,
    s: Seq<i32>,
    at: int,
    n: int,
) -> Option<(Seq<A>, int)>
    decreases n,
{
    if n <= 0 {
        Some((Seq::empty(), at))
    } else {
        match take_n(take, s, at, n - 1) {
            Some((items, p)) => match take(s, p) {
                Some((x, q)) => Some((items.push(x), q)),
                None => None,
            },
            None => None,
        }
    }
}

/// A count, then as many items.
pub open spec fn take_counted<A>(
    take: spec_fn(Seq<i32>, int) -> Option<(A, int)>,
    s: Seq<i32>,
    at: int,
) -> Option<(Seq<A>, int)> {
    if 0 <= at < s.len() && s[at] >= 0 {
        take_n(take, s, at + 1, s[at] as int)
    } else {
        None
    }
}

/// A count and as many items, or nothing at the end of the description.
pub open spec fn take_section<A>(
    take: spec_fn(Seq<i32>, int) -> Option<(A, int)>,
    s: Seq<i32>,
    at: int,
) -> Option<(Seq<A>, int)> {
    if at < s.len() {
        take_counted(take, s, at)
    } else {
        Some((Seq::empty(), at))
    }
}

/// A count and as many bytes.
pub open spec fn take_text(s: Seq<i32>, at: int) -> Option<(Seq<u8>, int)> {
    if 0 <= at < s.len() && s[at] >= 0 && at + 1 + s[at] <= s.len() {
        Some(
            (
                s.subrange(at + 1, at + 1 + s[at]).map_values(|v: i32| v as u8),
                at + 1 + s[at],
            ),
        )
    } else {
        None
    }
}

/// The text with U+FFFD in place of what is no UTF-8, as bytes.
pub uninterp spec fn lossy_utf8(b: Seq<u8>) -> Seq<u8>;

/// Bytes as text: what they are where they are UTF-8, else with what is none
/// replaced.
pub open spec fn as_text(b: Seq<u8>) -> Seq<u8> {
    if valid_utf8(b) {
        b
    } else {
        lossy_utf8(b)
    }
}

/// A count and the bytes of a text.
pub open spec fn take_string(s: Seq<i32>, at: int) -> Option<(Seq<u8>, int)> {
    match take_text(s, at) {
        Some((b, p)) => Some((as_text(b), p)),
        None => None,
    }
}

pub open spec fn take_case_value(s: Seq<i32>, at: int) -> Option<(CaseValue, int)> {
    if 0 <= at < s.len() {
        if s[at] == 0 {
            if at + 2 <= s.len() {
                Some((CaseValue::ColumnRef(s[at + 1] as usize), at + 2))
            } else {
                None
            }
        } else {
            match take_string(s, at + 1) {
                Some((t, p)) => Some((CaseValue::StringConst(t), p)),
                None => None,
            }
        }
    } else {
        None
    }
}

pub open spec fn take_condition(s: Seq<i32>, at: int) -> Option<(CaseWhenCondition, int)> {
    if 0 <= at && at + 4 <= s.len() {
        Some(
            (
                CaseWhenCondition {
                    col_idx: s[at] as usize,
                    op: if s[at + 1] == 0 {
                        CaseWhenOp::Eq
                    } else {
                        CaseWhenOp::NotEq
                    },
                    const_val: join64(s[at + 2], s[at + 3]),
                },
                at + 4,
            ),
        )
    } else {
        None
    }
}

pub open spec fn condition_take() -> spec_fn(Seq<i32>, int) -> Option<(CaseWhenCondition, int)> {
    |s: Seq<i32>, at: int| take_condition(s, at)
}

pub open spec fn take_clause(s: Seq<i32>, at: int) -> Option<(CaseClause, int)> {
    match take_counted(condition_take(), s, at) {
        Some((conditions, p)) => match take_case_value(s, p) {
            Some((result, q)) => Some((CaseClause { conditions, result }, q)),
            None => None,
        },
        None => None,
    }
}

pub open spec fn clause_take() -> spec_fn(Seq<i32>, int) -> Option<(CaseClause, int)> {
    |s: Seq<i32>, at: int| take_clause(s, at)
}

/// The expression of a grouping with the given tag, whose fields start at `at`.
pub open spec fn take_group_expr(s: Seq<i32>, tag: i32, at: int) -> Option<(GroupExpr, int)> {
    if tag == 1 {
        if at + 2 <= s.len() {
            match take_string(s, at + 2) {
                Some((pattern, p)) => match take_string(s, p) {
                    Some((replacement, q)) => Some(
                        (
                            GroupExpr::RegexpReplace {
                                pattern,
                                replacement,
                                func_oid: s[at] as u32,
                                collation: s[at + 1] as u32,
                            },
                            q,
                        ),
                    ),
                    None => None,
                },
                None => None,
            }
        } else {
            None
        }
    } else if tag == 2 {
        if at + 1 <= s.len() {
            match take_string(s, at + 1) {
                Some((unit, p)) => Some((GroupExpr::DateTrunc { unit, func_oid: s[at] as u32 }, p)),
                None => None,
            }
        } else {
            None
        }
    } else if tag == 3 {
        if at + 3 <= s.len() {
            match take_string(s, at + 3) {
                Some((unit, p)) => Some(
                    (
                        GroupExpr::Extract {
                            unit,
                            func_oid: s[at] as u32,
                            divisor: join64(s[at + 1], s[at + 2]),
                        },
                        p,
                    ),
                ),
                None => None,
            }
        } else {
            None
        }
    } else if tag == 4 {
        if at + 2 <= s.len() {
            Some((GroupExpr::AddConst { offset: s[at], op_oid: s[at + 1] as u32 }, at + 2))
        } else {
            None
        }
    } else if tag == 5 {
        match take_counted(clause_take(), s, at) {
            Some((clauses, p)) => match take_case_value(s, p) {
                Some((default, q)) => Some((GroupExpr::CaseWhen(CaseSpec { clauses, default }), q)),
                None => None,
            },
            None => None,
        }
    } else {
        Some((GroupExpr::Column, at))
    }
}

pub open spec fn take_group(s: Seq<i32>, at: int) -> Option<(Group, int)> {
    if 0 <= at && at + 3 <= s.len() {
        match take_group_expr(s, s[at + 2], at + 3) {
            Some((expr, p)) => Some(
                (Group { col_idx: s[at], type_oid: s[at + 1] as u32, expr }, p),
            ),
            None => None,
        }
    } else {
        None
    }
}

pub open spec fn group_take() -> spec_fn(Seq<i32>, int) -> Option<(Group, int)> {
    |s: Seq<i32>, at: int| take_group(s, at)
}

/// The output transform of an aggregate: its tag and two halves.
pub open spec fn take_transform(s: Seq<i32>, code: i32, at: int) -> Option<((i32, i32, i32), int)> {
    if (code == MIN_CODE || code == MAX_CODE) && at < s.len() {
        if s[at] == 1 {
            if at + 3 <= s.len() {
                Some(((1i32, s[at + 1], s[at + 2]), at + 3))
            } else {
                None
            }
        } else {
            Some(((0i32, 0i32, 0i32), at + 1))
        }
    } else {
        Some(((0i32, 0i32, 0i32), at))
    }
}

pub open spec fn take_agg(s: Seq<i32>, at: int) -> Option<(ParsedAgg, int)> {
    if 0 <= at && at + 5 <= s.len() && (s[at + 4] == ADD_CONST_CODE ==> at + 6 <= s.len()) {
        let has_const = s[at + 4] == ADD_CONST_CODE;
        let p = if has_const {
            at + 6
        } else {
            at + 5
        };
        match take_transform(s, s[at], p) {
            Some((t, q)) => Some(
                (
                    ParsedAgg {
                        agg_type: s[at],
                        col_idx: s[at + 1],
                        result_oid: s[at + 2] as u32,
                        col_type_oid: s[at + 3] as u32,
                        expr_kind: s[at + 4],
                        const_offset: if has_const {
                            s[at + 5]
                        } else {
                            0
                        },
                        output_tag: t.0,
                        output_lo: t.1,
                        output_hi: t.2,
                    },
                    q,
                ),
            ),
            None => None,
        }
    } else {
        None
    }
}

pub open spec fn agg_take() -> spec_fn(Seq<i32>, int) -> Option<(ParsedAgg, int)> {
    |s: Seq<i32>, at: int| take_agg(s, at)
}

pub open spec fn is_separator() -> spec_fn(i32) -> bool {
    |v: i32| v == -1
}

/// The OIDs at the head of a description, and the position behind the -1 that
/// ends them.
pub open spec fn head_oids(s: Seq<i32>) -> (Seq<u32>, int) {
    match first_where(s, is_separator()) {
        Some(i) => (s.subrange(0, i).map_values(|v: i32| v as u32), i + 1),
        None => (s.map_values(|v: i32| v as u32), s.len() as int),
    }
}

/// What the description of an aggregate path says; none where it ends in the
/// middle of an item.
pub open spec fn path_contents(s: Seq<i32>) -> Option<PathContents> {
    let (oids, p0) = head_oids(s);
    match take_section(agg_take(), s, p0) {
        Some((aggs, p1)) => match take_section(group_take(), s, p1) {
            Some((groups, p2)) => Some(
                PathContents { oids, aggs, groups, is_partial: p2 < s.len() && s[p2] != 0 },
            ),
            None => None,
        },
        None => None,
    }
}

// ---------------------------------------------------------------------------
// Parsing
// ---------------------------------------------------------------------------

/// Too few items stay too few.
pub proof fn lemma_take_n_none<A>(
    take: spec_fn(Seq<i32>, int) -> Option<(A, int)>,
    s: Seq<i32>,
    at: int,
    k: int,
    n: int,
)
    requires
        k <= n,
        take_n(take, s, at, k) is None,
    ensures
        take_n(take, s, at, n) is None,
    decreases n,
{
    if k < n {
        lemma_take_n_none(take, s, at, k, n - 1);
    }
}

fn as_oid(v: i32) -> (r: u32)
    ensures
        r == v as u32,
{
    #[verifier::truncate]
    (v as u32)
}

fn as_index(v: i32) -> (r: usize)
    ensures
        r == v as usize,
{
    #[verifier::truncate]
    (v as usize)
}

/// Reads a count and as many bytes.
pub fn parse_text(s: &Vec<i32>, at: usize) -> (r: Option<(Vec<u8>, usize)>)
    requires
        at <= s.len(),
    ensures
        match r {
            Some((t, p)) => take_text(s@, at as int) == Some((t@, p as int)) && p <= s.len(),
            None => take_text(s@, at as int) is None,
        },
{
    if at >= s.len() || s[at] < 0 {
        return None;
    }
    let n: usize = s[at] as usize;
    if s.len() - at - 1 < n {
        return None;
    }
    let mut out: Vec<u8> = Vec::new();
    let mut i: usize = 0;
    while i < n
        invariant
            i <= n,
            at < s.len(),
            at + 1 + n <= s.len(),
            out@ == s@.subrange(at + 1, at + 1 + i).map_values(|v: i32| v as u8),
        decreases n - i,
    {
        let b: u8 = #[verifier::truncate]
        (s[at + 1 + i] as u8);
        out.push(b);
        i += 1;
        assert(out@ =~= s@.subrange(at + 1, at + 1 + i).map_values(|v: i32| v as u8));
    }
    Some((out, at + 1 + n))
}

/// Calls `String::from_utf8_lossy`: bytes that are UTF-8 stay as they are, and in
/// others what is none is replaced; the result is a function of the bytes.
#[verifier::external_body]
fn to_text(b: Vec<u8>) -> (r: Vec<u8>)
    ensures
        r@ == if valid_utf8(b@) {
            b@
        } else {
            lossy_utf8(b@)
        },
{
    String::from_utf8_lossy(&b).into_owned().into_bytes()
}

/// Reads a count and the bytes of a text.
fn parse_string(s: &Vec<i32>, at: usize) -> (r: Option<(Vec<u8>, usize)>)
    requires
        at <= s.len(),
    ensures
        match r {
            Some((t, p)) => take_string(s@, at as int) == Some((t@, p as int)) && p <= s.len(),
            None => take_string(s@, at as int) is None,
        },
{
    match parse_text(s, at) {
        Some((b, p)) => Some((to_text(b), p)),
        None => None,
    }
}

/// Reads a CASE result.
pub fn deserialize_case_when_value(s: &Vec<i32>, at: usize) -> (r: Option<(CaseWhenValue, usize)>)
    requires
        at <= s.len(),
    ensures
        match r {
            Some((v, p)) => take_case_value(s@, at as int) == Some((v.view(), p as int)) && p
                <= s.len(),
            None => take_case_value(s@, at as int) is None,
        },
{
    if at >= s.len() {
        return None;
    }
    if s[at] == 0 {
        if s.len() - at < 2 {
            return None;
        }
        Some((CaseWhenValue::ColumnRef(as_index(s[at + 1])), at + 2))
    } else {
        match parse_string(s, at + 1) {
            Some((t, p)) => Some((CaseWhenValue::StringConst(t), p)),
            None => None,
        }
    }
}

fn parse_conditions(s: &Vec<i32>, at: usize) -> (r: Option<(Vec<CaseWhenCondition>, usize)>)
    requires
        at <= s.len(),
    ensures
        match r {
            Some((v, p)) => take_counted(condition_take(), s@, at as int) == Some((v@, p as int))
                && p <= s.len(),
            None => take_counted(condition_take(), s@, at as int) is None,
        },
{
    if at >= s.len() || s[at] < 0 {
        return None;
    }
    let n: usize = s[at] as usize;
    let mut out: Vec<CaseWhenCondition> = Vec::new();
    let mut p: usize = at + 1;
    let mut i: usize = 0;
    while i < n
        invariant
            i <= n,
            at < s.len(),
            n == s@[at as int],
            p <= s.len(),
            take_n(condition_take(), s@, at + 1, i as int) == Some((out@, p as int)),
        decreases n - i,
    {
        if s.len() - p < 4 {
            proof {
                lemma_take_n_none(condition_take(), s@, at + 1, i + 1, n as int);
            }
            return None;
        }
        let op = if s[p + 1] == 0 {
            CaseWhenOp::Eq
        } else {
            CaseWhenOp::NotEq
        };
        let cond = CaseWhenCondition {
            col_idx: as_index(s[p]),
            op,
            const_val: join_halves(s[p + 2], s[p + 3]),
        };
        out.push(cond);
        p += 4;
        i += 1;
    }
    Some((out, p))
}

fn parse_clauses(s: &Vec<i32>, at: usize) -> (r: Option<(Vec<CaseWhenClause>, usize)>)
    requires
        at <= s.len(),
    ensures
        match r {
            Some((v, p)) => take_counted(clause_take(), s@, at as int) == Some(
                (clauses_view(v@), p as int),
            ) && p <= s.len(),
            None => take_counted(clause_take(), s@, at as int) is None,
        },
{
    if at >= s.len() || s[at] < 0 {
        return None;
    }
    let n: usize = s[at] as usize;
    let mut out: Vec<CaseWhenClause> = Vec::new();
    let mut p: usize = at + 1;
    let mut i: usize = 0;
    assert(clauses_view(out@) =~= Seq::<CaseClause>::empty());
    while i < n
        invariant
            i <= n,
            at < s.len(),
            n == s@[at as int],
            p <= s.len(),
            take_n(clause_take(), s@, at + 1, i as int) == Some((clauses_view(out@), p as int)),
        decreases n - i,
    {
        let ghost before = out@;
        let (conditions, q) = match parse_conditions(s, p) {
            Some(x) => x,
            None => {
                proof {
                    lemma_take_n_none(clause_take(), s@, at + 1, i + 1, n as int);
                }
                return None;
            },
        };
        let (result, next) = match deserialize_case_when_value(s, q) {
            Some(x) => x,
            None => {
                proof {
                    lemma_take_n_none(clause_take(), s@, at + 1, i + 1, n as int);
                }
                return None;
            },
        };
        let clause = CaseWhenClause { conditions, result };
        out.push(clause);
        assert(clauses_view(out@) =~= clauses_view(before).push(clause.view()));
        p = next;
        i += 1;
    }
    Some((out, p))
}

fn parse_group_expr(s: &Vec<i32>, tag: i32, at: usize) -> (r: Option<(GroupByExpr, usize)>)
    requires
        at <= s.len(),
    ensures
        match r {
            Some((e, p)) => take_group_expr(s@, tag, at as int) == Some((e.view(), p as int)) && p
                <= s.len(),
            None => take_group_expr(s@, tag, at as int) is None,
        },
{
    let left: usize = s.len() - at;
    if tag == 1 {
        if left < 2 {
            return None;
        }
        let (pattern, p) = match parse_string(s, at + 2) {
            Some(x) => x,
            None => {
                return None;
            },
        };
        let (replacement, q) = match parse_string(s, p) {
            Some(x) => x,
            None => {
                return None;
            },
        };
        Some(
            (
                GroupByExpr::RegexpReplace {
                    pattern,
                    replacement,
                    func_oid: as_oid(s[at]),
                    collation: as_oid(s[at + 1]),
                },
                q,
            ),
        )
    } else if tag == 2 {
        if left < 1 {
            return None;
        }
        match parse_string(s, at + 1) {
            Some((unit, p)) => Some(
                (GroupByExpr::DateTrunc { unit, func_oid: as_oid(s[at]) }, p),
            ),
            None => None,
        }
    } else if tag == 3 {
        if left < 3 {
            return None;
        }
        match parse_string(s, at + 3) {
            Some((unit, p)) => Some(
                (
                    GroupByExpr::Extract {
                        unit,
                        func_oid: as_oid(s[at]),
                        divisor: join_halves(s[at + 1], s[at + 2]),
                    },
                    p,
                ),
            ),
            None => None,
        }
    } else if tag == 4 {
        if left < 2 {
            return None;
        }
        Some((GroupByExpr::AddConst { offset: s[at], op_oid: as_oid(s[at + 1]) }, at + 2))
    } else if tag == 5 {
        let (clauses, p) = match parse_clauses(s, at) {
            Some(x) => x,
            None => {
                return None;
            },
        };
        match deserialize_case_when_value(s, p) {
            Some((default, q)) => Some(
                (GroupByExpr::CaseWhen(CaseWhenSpec { clauses, default }), q),
            ),
            None => None,
        }
    } else {
        Some((GroupByExpr::Column, at))
    }
}

fn parse_groups(s: &Vec<i32>, at: usize) -> (r: Option<(Vec<GroupByColSpec>, usize)>)
    requires
        at <= s.len(),
    ensures
        match r {
            Some((v, p)) => take_section(group_take(), s@, at as int) == Some(
                (groups_view(v@), p as int),
            ) && p <= s.len(),
            None => take_section(group_take(), s@, at as int) is None,
        },
{
    let mut out: Vec<GroupByColSpec> = Vec::new();
    assert(groups_view(out@) =~= Seq::<Group>::empty());
    if at >= s.len() {
        return Some((out, at));
    }
    if s[at] < 0 {
        return None;
    }
    let n: usize = s[at] as usize;
    let mut p: usize = at + 1;
    let mut i: usize = 0;
    while i < n
        invariant
            i <= n,
            at < s.len(),
            n == s@[at as int],
            p <= s.len(),
            take_n(group_take(), s@, at + 1, i as int) == Some((groups_view(out@), p as int)),
        decreases n - i,
    {
        let ghost before = out@;
        if s.len() - p < 3 {
            proof {
                lemma_take_n_none(group_take(), s@, at + 1, i + 1, n as int);
            }
            return None;
        }
        let (expr, q) = match parse_group_expr(s, s[p + 2], p + 3) {
            Some(x) => x,
            None => {
                proof {
                    lemma_take_n_none(group_take(), s@, at + 1, i + 1, n as int);
                }
                return None;
            },
        };
        let g = GroupByColSpec { col_idx: s[p], type_oid: as_oid(s[p + 1]), expr };
        out.push(g);
        assert(groups_view(out@) =~= groups_view(before).push(g.view()));
        p = q;
        i += 1;
    }
    Some((out, p))
}

fn parse_agg(s: &Vec<i32>, at: usize) -> (r: Option<(ParsedAgg, usize)>)
    requires
        at <= s.len(),
    ensures
        match r {
            Some((a, p)) => take_agg(s@, at as int) == Some((a, p as int)) && p <= s.len(),
            None => take_agg(s@, at as int) is None,
        },
{
    if s.len() - at < 5 {
        return None;
    }
    let has_const = s[at + 4] == ADD_CONST_CODE;
    if has_const && s.len() - at < 6 {
        return None;
    }
    let p: usize = if has_const {
        at + 6
    } else {
        at + 5
    };
    let const_offset: i32 = if has_const {
        s[at + 5]
    } else {
        0
    };
    let mut q: usize = p;
    let mut output_tag: i32 = 0;
    let mut output_lo: i32 = 0;
    let mut output_hi: i32 = 0;
    if (s[at] == MIN_CODE || s[at] == MAX_CODE) && p < s.len() {
        if s[p] == 1 {
            if s.len() - p < 3 {
                return None;
            }
            output_tag = 1;
            output_lo = s[p + 1];
            output_hi = s[p + 2];
            q = p + 3;
        } else {
            q = p + 1;
        }
    }
    Some(
        (
            ParsedAgg {
                agg_type: s[at],
                col_idx: s[at + 1],
                result_oid: as_oid(s[at + 2]),
                col_type_oid: as_oid(s[at + 3]),
                expr_kind: s[at + 4],
                const_offset,
                output_tag,
                output_lo,
                output_hi,
            },
            q,
        ),
    )
}

fn parse_aggs(s: &Vec<i32>, at: usize) -> (r: Option<(Vec<ParsedAgg>, usize)>)
    requires
        at <= s.len(),
    ensures
        match r {
            Some((v, p)) => take_section(agg_take(), s@, at as int) == Some((v@, p as int)) && p
                <= s.len(),
            None => take_section(agg_take(), s@, at as int) is None,
        },
{
    let mut out: Vec<ParsedAgg> = Vec::new();
    if at >= s.len() {
        return Some((out, at));
    }
    if s[at] < 0 {
        return None;
    }
    let n: usize = s[at] as usize;
    let mut p: usize = at + 1;
    let mut i: usize = 0;
    while i < n
        invariant
            i <= n,
            at < s.len(),
            n == s@[at as int],
            p <= s.len(),
            take_n(agg_take(), s@, at + 1, i as int) == Some((out@, p as int)),
        decreases n - i,
    {
        let (a, q) = match parse_agg(s, p) {
            Some(x) => x,
            None => {
                proof {
                    lemma_take_n_none(agg_take(), s@, at + 1, i + 1, n as int);
                }
                return None;
            },
        };
        out.push(a);
        p = q;
        i += 1;
    }
    Some((out, p))
}

pub fn parse_head_oids(s: &Vec<i32>) -> (r: (Vec<u32>, usize))
    ensures
        (r.0@, r.1 as int) == head_oids(s@),
        r.1 <= s.len(),
{
    let mut out: Vec<u32> = Vec::new();
    let mut i: usize = 0;
    while i < s.len()
        invariant
            i <= s.len(),
            out@ == s@.subrange(0, i as int).map_values(|v: i32| v as u32),
            forall|j: int| 0 <= j < i ==> s@[j] != -1,
        decreases s.len() - i,
    {
        if s[i] == -1 {
            proof {
                lemma_first_is(s@, is_separator(), i as int);
            }
            return (out, i + 1);
        }
        out.push(as_oid(s[i]));
        i += 1;
        assert(out@ =~= s@.subrange(0, i as int).map_values(|v: i32| v as u32));
    }
    proof {
        lemma_first_none(s@, is_separator());
    }
    assert(out@ =~= s@.map_values(|v: i32| v as u32));
    (out, i)
}

/// Reads the description of an aggregate path; none where it ends in the middle
/// of an item.
pub fn parse_agg_path_private(s: &Vec<i32>) -> (r: Option<ParsedPath>)
    ensures
        match r {
            Some(p) => path_contents(s@) == Some(p.view()),
            None => path_contents(s@) is None,
        },
{
    let (companion_oids, p0) = parse_head_oids(s);
    let (aggs, p1) = match parse_aggs(s, p0) {
        Some(x) => x,
        None => {
            return None;
        },
    };
    let (groups, p2) = match parse_groups(s, p1) {
        Some(x) => x,
        None => {
            return None;
        },
    };
    let is_partial = p2 < s.len() && s[p2] != 0;
    Some(ParsedPath { companion_oids, aggs, groups, is_partial })
}

// ---------------------------------------------------------------------------
// A description is read back as it was written
// ---------------------------------------------------------------------------

/// Whether `part` stands in `s` at `at`.
pub open spec fn holds_at(s: Seq<i32>, at: int, part: Seq<i32>) -> bool {
    0 <= at && at + part.len() <= s.len() && s.subrange(at, at + part.len()) == part
}

/// Parts of what stands there stand there too.
pub proof fn lemma_holds_split(s: Seq<i32>, at: int, a: Seq<i32>, b: Seq<i32>)
    requires
        holds_at(s, at, a + b),
    ensures
        holds_at(s, at, a),
        holds_at(s, at + a.len(), b),
{
    let t = s.subrange(at, at + a.len() + b.len());
    assert(s.subrange(at, at + a.len()) =~= t.subrange(0, a.len() as int));
    assert(t.subrange(0, a.len() as int) =~= a);
    assert(s.subrange(at + a.len(), at + a.len() + b.len()) =~= t.subrange(
        a.len() as int,
        t.len() as int,
    ));
    assert(t.subrange(a.len() as int, t.len() as int) =~= b);
}

/// Single numbers of what stands there.
pub proof fn lemma_holds_index(s: Seq<i32>, at: int, part: Seq<i32>, i: int)
    requires
        holds_at(s, at, part),
        0 <= i < part.len(),
    ensures
        s[at + i] == part[i],
{
    assert(s.subrange(at, at + part.len())[i] == s[at + i]);
}

/// Items that are each read back are read back as a list.
pub proof fn lemma_take_all<A, B>(
    enc: spec_fn(A) -> Seq<i32>,
    take: spec_fn(Seq<i32>, int) -> Option<(B, int)>,
    dec: spec_fn(A) -> B,
    items: Seq<A>,
    s: Seq<i32>,
    at: int,
)
    requires
        forall|i: int, p: int|
            #![trigger take(s, p), enc(items[i])]
            0 <= i < items.len() && holds_at(s, p, enc(items[i])) ==> take(s, p) == Some(
                (dec(items[i]), p + enc(items[i]).len()),
            ),
        holds_at(s, at, ints_of(enc, items)),
    ensures
        take_n(take, s, at, items.len() as int) == Some(
            (items.map_values(dec), at + ints_of(enc, items).len()),
        ),
    decreases items.len(),
{
    if items.len() == 0 {
        assert(items.map_values(dec) =~= Seq::<B>::empty());
    } else {
        let rest = items.drop_last();
        let n = items.len() - 1;
        lemma_holds_split(s, at, ints_of(enc, rest), enc(items.last()));
        assert forall|i: int, p: int|
            #![trigger take(s, p), enc(rest[i])]
            0 <= i < rest.len() && holds_at(s, p, enc(rest[i])) implies take(s, p) == Some(
            (dec(rest[i]), p + enc(rest[i]).len()),
        ) by {
            assert(rest[i] == items[i]);
            assert(enc(items[i]) == enc(rest[i]));
        }
        lemma_take_all(enc, take, dec, rest, s, at);
        let q = at + ints_of(enc, rest).len();
        assert(holds_at(s, q, enc(items[n])));
        assert(take(s, q) == Some((dec(items[n]), q + enc(items[n]).len())));
        assert(items.map_values(dec) =~= rest.map_values(dec).push(dec(items[n])));
    }
}

/// Whether a length or an index can be written as a 32-bit integer.
pub open spec fn fits(n: nat) -> bool {
    n <= i32::MAX
}

pub open spec fn case_value_fits(v: CaseValue) -> bool {
    match v {
        CaseValue::ColumnRef(c) => fits(c as nat),
        CaseValue::StringConst(t) => fits(t.len()),
    }
}

pub open spec fn clause_fits(c: CaseClause) -> bool {
    &&& fits(c.conditions.len())
    &&& forall|i: int| 0 <= i < c.conditions.len() ==> fits((#[trigger] c.conditions[i]).col_idx as nat)
    &&& case_value_fits(c.result)
}

/// Whether the lengths and indices in a grouping can be written.
pub open spec fn group_fits(g: Group) -> bool {
    match g.expr {
        GroupExpr::Column | GroupExpr::AddConst { .. } => true,
        GroupExpr::RegexpReplace { pattern, replacement, .. } => fits(pattern.len()) && fits(
            replacement.len(),
        ),
        GroupExpr::DateTrunc { unit, .. } => fits(unit.len()),
        GroupExpr::Extract { unit, .. } => fits(unit.len()),
        GroupExpr::CaseWhen(c) => fits(c.clauses.len()) && case_value_fits(c.default) && forall|
            i: int,
        |
            0 <= i < c.clauses.len() ==> clause_fits(#[trigger] c.clauses[i]),
    }
}

/// Whether a CASE result that is a string is UTF-8.
pub open spec fn case_value_is_text(v: CaseValue) -> bool {
    v matches CaseValue::StringConst(t) ==> valid_utf8(t)
}

/// Whether the strings in a grouping are UTF-8.
pub open spec fn group_is_text(g: Group) -> bool {
    match g.expr {
        GroupExpr::Column | GroupExpr::AddConst { .. } => true,
        GroupExpr::RegexpReplace { pattern, replacement, .. } => valid_utf8(pattern) && valid_utf8(
            replacement,
        ),
        GroupExpr::DateTrunc { unit, .. } => valid_utf8(unit),
        GroupExpr::Extract { unit, .. } => valid_utf8(unit),
        GroupExpr::CaseWhen(c) => case_value_is_text(c.default) && forall|i: int|
            0 <= i < c.clauses.len() ==> case_value_is_text((#[trigger] c.clauses[i]).result),
    }
}

/// An aggregate as it stands in a description.
pub open spec fn as_written(a: AggSpec) -> ParsedAgg {
    let transformed = a.agg_type == AggType::Min || a.agg_type == AggType::Max;
    let delta = match a.output_transform {
        OutputTransform::PgUsShift { delta } => if transformed {
            Some(delta)
        } else {
            None
        },
        OutputTransform::Identity => None,
    };
    ParsedAgg {
        agg_type: a.agg_type.code_spec(),
        col_idx: a.col_idx,
        result_oid: a.result_type_oid,
        col_type_oid: a.col_type_oid,
        expr_kind: a.expr_kind.code_spec(),
        const_offset: if a.expr_kind == AggExpr::AddConst {
            a.const_offset as i32
        } else {
            0
        },
        output_tag: flag(delta is Some),
        output_lo: match delta {
            Some(d) => lo32(d),
            None => 0,
        },
        output_hi: match delta {
            Some(d) => hi32(d),
            None => 0,
        },
    }
}

pub open spec fn agg_dec() -> spec_fn(AggSpec) -> ParsedAgg {
    |a: AggSpec| as_written(a)
}

pub open spec fn same<A>() -> spec_fn(A) -> A {
    |a: A| a
}

pub proof fn lemma_oid_back(o: u32)
    ensures
        (o as i32) as u32 == o,
        (o as i32) == -1 ==> o == u32::MAX,
{
    assert((o as i32) as u32 == o) by (bit_vector);
    assert((o as i32) == -1i32 ==> o == 0xffff_ffffu32) by (bit_vector);
}

/// Bytes are read back as they were written.
pub proof fn lemma_text_back(s: Seq<i32>, at: int, t: Seq<u8>)
    requires
        holds_at(s, at, text_ints(t)),
        fits(t.len()),
    ensures
        take_text(s, at) == Some((t, at + text_ints(t).len())),
{
    lemma_holds_index(s, at, text_ints(t), 0);
    let n = t.len() as int;
    let got = s.subrange(at + 1, at + 1 + n).map_values(|v: i32| v as u8);
    assert forall|i: int| 0 <= i < n implies got[i] == t[i] by {
        lemma_holds_index(s, at, text_ints(t), i + 1);
        assert(text_ints(t)[i + 1] == t[i] as i32);
    }
    assert(got =~= t);
}

/// A text is read back as it was written.
proof fn lemma_string_back(s: Seq<i32>, at: int, t: Seq<u8>)
    requires
        holds_at(s, at, text_ints(t)),
        fits(t.len()),
        valid_utf8(t),
    ensures
        take_string(s, at) == Some((t, at + text_ints(t).len())),
{
    lemma_text_back(s, at, t);
}

proof fn lemma_case_value_back(s: Seq<i32>, at: int, v: CaseValue)
    requires
        holds_at(s, at, case_value_ints(v)),
        case_value_fits(v),
        case_value_is_text(v),
    ensures
        take_case_value(s, at) == Some((v, at + case_value_ints(v).len())),
{
    lemma_holds_index(s, at, case_value_ints(v), 0);
    match v {
        CaseValue::ColumnRef(c) => {
            lemma_holds_index(s, at, case_value_ints(v), 1);
        },
        CaseValue::StringConst(t) => {
            lemma_holds_split(s, at, seq![1i32], text_ints(t));
            lemma_string_back(s, at + 1, t);
        },
    }
}

proof fn lemma_clause_back(s: Seq<i32>, at: int, c: CaseClause)
    requires
        holds_at(s, at, clause_ints(c)),
        clause_fits(c),
        case_value_is_text(c.result),
    ensures
        take_clause(s, at) == Some((c, at + clause_ints(c).len())),
{
    let n = seq![c.conditions.len() as i32];
    let body = conditions_ints(c.conditions);
    lemma_holds_split(s, at, n + body, case_value_ints(c.result));
    lemma_holds_split(s, at, n, body);
    lemma_holds_index(s, at, n, 0);
    assert forall|i: int, p: int|
        #![trigger condition_take()(s, p), condition_enc()(c.conditions[i])]
        0 <= i < c.conditions.len() && holds_at(s, p, condition_enc()(c.conditions[i])) implies condition_take()(
        s,
        p,
    ) == Some((same()(c.conditions[i]), p + condition_enc()(c.conditions[i]).len())) by {
        let x = c.conditions[i];
        let e = condition_ints(x);
        lemma_holds_index(s, p, e, 0);
        lemma_holds_index(s, p, e, 1);
        lemma_holds_index(s, p, e, 2);
        lemma_holds_index(s, p, e, 3);
        lemma_join64(x.const_val);
    }
    lemma_take_all(condition_enc(), condition_take(), same(), c.conditions, s, at + 1);
    assert(c.conditions.map_values(same()) =~= c.conditions);
    lemma_case_value_back(s, at + 1 + body.len(), c.result);
}

/// A grouping is read back as it was written.
proof fn lemma_group_back(s: Seq<i32>, at: int, g: Group)
    requires
        holds_at(s, at, group_ints(g)),
        group_fits(g),
        group_is_text(g),
    ensures
        take_group(s, at) == Some((g, at + group_ints(g).len())),
{
    let head = seq![g.col_idx, g.type_oid as i32];
    let body = match g.expr {
        GroupExpr::Column => seq![0i32],
        GroupExpr::RegexpReplace { pattern, replacement, func_oid, collation } => seq![
            1i32,
            func_oid as i32,
            collation as i32,
        ] + text_ints(pattern) + text_ints(replacement),
        GroupExpr::DateTrunc { unit, func_oid } => seq![2i32, func_oid as i32] + text_ints(unit),
        GroupExpr::Extract { unit, func_oid, divisor } => seq![
            3i32,
            func_oid as i32,
            hi32(divisor),
            lo32(divisor),
        ] + text_ints(unit),
        GroupExpr::AddConst { offset, op_oid } => seq![4i32, offset, op_oid as i32],
        GroupExpr::CaseWhen(spec) => seq![5i32, spec.clauses.len() as i32] + clauses_ints(
            spec.clauses,
        ) + case_value_ints(spec.default),
    };
    assert(group_ints(g) == head + body);
    lemma_holds_split(s, at, head, body);
    lemma_holds_index(s, at, head, 0);
    lemma_holds_index(s, at, head, 1);
    lemma_holds_index(s, at + 2, body, 0);
    lemma_oid_back(g.type_oid);
    let p = at + 2;
    match g.expr {
        GroupExpr::Column => {},
        GroupExpr::RegexpReplace { pattern, replacement, func_oid, collation } => {
            let h = seq![1i32, func_oid as i32, collation as i32];
            lemma_holds_split(s, p, h + text_ints(pattern), text_ints(replacement));
            lemma_holds_split(s, p, h, text_ints(pattern));
            lemma_holds_index(s, p, h, 1);
            lemma_holds_index(s, p, h, 2);
            lemma_oid_back(func_oid);
            lemma_oid_back(collation);
            lemma_string_back(s, p + 3, pattern);
            lemma_string_back(s, p + 3 + text_ints(pattern).len(), replacement);
        },
        GroupExpr::DateTrunc { unit, func_oid } => {
            let h = seq![2i32, func_oid as i32];
            lemma_holds_split(s, p, h, text_ints(unit));
            lemma_holds_index(s, p, h, 1);
            lemma_oid_back(func_oid);
            lemma_string_back(s, p + 2, unit);
        },
        GroupExpr::Extract { unit, func_oid, divisor } => {
            let h = seq![3i32, func_oid as i32, hi32(divisor), lo32(divisor)];
            lemma_holds_split(s, p, h, text_ints(unit));
            lemma_holds_index(s, p, h, 1);
            lemma_holds_index(s, p, h, 2);
            lemma_holds_index(s, p, h, 3);
            lemma_oid_back(func_oid);
            lemma_join64(divisor);
            lemma_string_back(s, p + 4, unit);
        },
        GroupExpr::AddConst { offset, op_oid } => {
            lemma_holds_index(s, p, body, 1);
            lemma_holds_index(s, p, body, 2);
            lemma_oid_back(op_oid);
        },
        GroupExpr::CaseWhen(spec) => {
            let h = seq![5i32, spec.clauses.len() as i32];
            let mid = clauses_ints(spec.clauses);
            lemma_holds_split(s, p, h + mid, case_value_ints(spec.default));
            lemma_holds_split(s, p, h, mid);
            lemma_holds_index(s, p, h, 1);
            assert forall|i: int, q: int|
                #![trigger clause_take()(s, q), clause_enc()(spec.clauses[i])]
                0 <= i < spec.clauses.len() && holds_at(
                    s,
                    q,
                    clause_enc()(spec.clauses[i]),
                ) implies clause_take()(s, q) == Some(
                (same()(spec.clauses[i]), q + clause_enc()(spec.clauses[i]).len()),
            ) by {
                lemma_clause_back(s, q, spec.clauses[i]);
            }
            lemma_take_all(clause_enc(), clause_take(), same(), spec.clauses, s, p + 2);
            assert(spec.clauses.map_values(same()) =~= spec.clauses);
            lemma_case_value_back(s, p + 2 + mid.len(), spec.default);
        },
    }
}

/// An aggregate is read back as it was written.
proof fn lemma_agg_back(s: Seq<i32>, at: int, a: AggSpec)
    requires
        holds_at(s, at, agg_ints(a)),
    ensures
        take_agg(s, at) == Some((as_written(a), at + agg_ints(a).len())),
{
    let e = agg_ints(a);
    lemma_holds_index(s, at, e, 0);
    lemma_holds_index(s, at, e, 1);
    lemma_holds_index(s, at, e, 2);
    lemma_holds_index(s, at, e, 3);
    lemma_holds_index(s, at, e, 4);
    lemma_oid_back(a.result_type_oid);
    lemma_oid_back(a.col_type_oid);
    if e.len() > 5 {
        lemma_holds_index(s, at, e, 5);
    }
    if e.len() > 6 {
        lemma_holds_index(s, at, e, 6);
    }
    if e.len() > 7 {
        lemma_holds_index(s, at, e, 7);
    }
    if e.len() > 8 {
        lemma_holds_index(s, at, e, 8);
    }
}

/// The tables at the head of a description are read back as they were written.
pub proof fn lemma_head_oids(s: Seq<i32>, oids: Seq<u32>)
    requires
        forall|i: int| 0 <= i < oids.len() ==> #[trigger] oids[i] != u32::MAX,
        holds_at(s, 0, oid_ints(oids)),
        oids.len() < s.len(),
        s[oids.len() as int] == -1,
    ensures
        head_oids(s) == (oids, (oids.len() + 1) as int),
        first_where(s, is_separator()) == Some(oids.len() as int),
{
    let h = oid_ints(oids);
    let k = oids.len() as int;
    assert forall|j: int| 0 <= j < k implies s[j] == oids[j] as i32 && s[j] != -1 by {
        lemma_holds_index(s, 0, h, j);
        lemma_oid_back(oids[j]);
    }
    lemma_first_is(s, is_separator(), k);
    let got = s.subrange(0, k).map_values(|v: i32| v as u32);
    assert forall|j: int| 0 <= j < k implies got[j] == oids[j] by {
        lemma_oid_back(oids[j]);
        assert(s[j] == oids[j] as i32);
    }
    assert(got =~= oids);
}

/// The description of an aggregate path is read back as it was written.
///
/// An OID of `u32::MAX` would be taken for the end of the OIDs; lengths and
/// column numbers have to fit the integers of the description, and strings have
/// to be UTF-8, as those of all groupings of a query are.
pub proof fn lemma_agg_path_round_trip(
    oids: Seq<u32>,
    aggs: Seq<AggSpec>,
    groups: Seq<Group>,
    is_partial: bool,
)
    requires
        forall|i: int| 0 <= i < oids.len() ==> #[trigger] oids[i] != u32::MAX,
        fits(aggs.len()),
        fits(groups.len()),
        forall|i: int|
            0 <= i < groups.len() ==> group_fits(#[trigger] groups[i]) && group_is_text(groups[i]),
    ensures
        path_contents(agg_path_ints(oids, aggs, groups, is_partial)) == Some(
            PathContents { oids, aggs: aggs.map_values(agg_dec()), groups, is_partial },
        ),
{
    let s = agg_path_ints(oids, aggs, groups, is_partial);
    let h = oid_ints(oids);
    let n0 = seq![-1i32, aggs.len() as i32];
    let a = aggs_ints(aggs);
    let n1 = seq![groups.len() as i32];
    let g = groups_ints(groups);
    let f = seq![flag(is_partial)];
    assert(s.subrange(0, s.len() as int) =~= s);
    lemma_holds_split(s, 0, h + n0 + a + n1 + g, f);
    lemma_holds_split(s, 0, h + n0 + a + n1, g);
    lemma_holds_split(s, 0, h + n0 + a, n1);
    lemma_holds_split(s, 0, h + n0, a);
    lemma_holds_split(s, 0, h, n0);
    let k = oids.len() as int;
    lemma_holds_index(s, k, n0, 0);
    lemma_holds_index(s, k, n0, 1);
    lemma_head_oids(s, oids);
    assert forall|i: int, p: int|
        #![trigger agg_take()(s, p), agg_enc()(aggs[i])]
        0 <= i < aggs.len() && holds_at(s, p, agg_enc()(aggs[i])) implies agg_take()(s, p) == Some(
        (agg_dec()(aggs[i]), p + agg_enc()(aggs[i]).len()),
    ) by {
        lemma_agg_back(s, p, aggs[i]);
    }
    lemma_take_all(agg_enc(), agg_take(), agg_dec(), aggs, s, k + 2);
    let p1 = k + 2 + a.len();
    lemma_holds_index(s, p1, n1, 0);
    assert forall|i: int, p: int|
        #![trigger group_take()(s, p), group_enc()(groups[i])]
        0 <= i < groups.len() && holds_at(s, p, group_enc()(groups[i])) implies group_take()(s, p)
        == Some((same()(groups[i]), p + group_enc()(groups[i]).len())) by {
        lemma_group_back(s, p, groups[i]);
    }
    lemma_take_all(group_enc(), group_take(), same(), groups, s, p1 + 1);
    assert(groups.map_values(same()) =~= groups);
    lemma_holds_index(s, p1 + 1 + g.len(), f, 0);
}

} // verus!
