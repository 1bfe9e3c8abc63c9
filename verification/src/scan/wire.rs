//! Scan descriptions: the lists of integers in which a chosen path tells the
//! executor what to do.

use vstd::prelude::*;
use crate::scan::agg_types::{
    clauses_view, groups_view, AggExpr, AggSpec, AggType, CaseClause, CaseValue, CaseWhenClause,
    CaseWhenCondition, CaseWhenOp, CaseWhenSpec, CaseWhenValue, Group, GroupByColSpec, GroupByExpr,
    GroupExpr, OutputTransform,
};

verus! {

// ---------------------------------------------------------------------------
// Encoding
// ---------------------------------------------------------------------------

/// The encodings of the elements of a list, one after another.
pub open spec fn ints_of<A>(enc: spec_fn(A) -> Seq<i32>, s: Seq<A>) -> Seq<i32>
    decreases s.len(),
{
    if s.len() == 0 {
        Seq::empty()
    } else {
        ints_of(enc, s.drop_last()) + enc(s.last())
    }
}

/// One more element adds its encoding.
pub proof fn lemma_ints_of_step<A>(enc: spec_fn(A) -> Seq<i32>, s: Seq<A>, i: int)
    requires
        0 <= i < s.len(),
    ensures
        ints_of(enc, s.subrange(0, i + 1)) == ints_of(enc, s.subrange(0, i)) + enc(s[i]),
{
    let t = s.subrange(0, i + 1);
    assert(t.drop_last() =~= s.subrange(0, i));
}

/// High half of a 64-bit number.
pub open spec fn hi32(v: i64) -> i32 {
    (v >> 32) as i32
}

/// Low half of a 64-bit number.
pub open spec fn lo32(v: i64) -> i32 {
    v as i32
}

/// The 64-bit number with the given halves.
pub open spec fn join64(hi: i32, lo: i32) -> i64 {
    (hi as i64) << 32 | (lo as u32 as i64)
}

/// A 64-bit number comes back from its halves.
pub proof fn lemma_join64(v: i64)
    ensures
        join64(hi32(v), lo32(v)) == v,
{
    assert((((v >> 32) as i32) as i64) << 32 | ((v as i32) as u32 as i64) == v) by (bit_vector);
}

pub fn high_half(v: i64) -> (r: i32)
    ensures
        r == hi32(v),
{
    #[verifier::truncate]
    ((v >> 32) as i32)
}

pub fn low_half(v: i64) -> (r: i32)
    ensures
        r == lo32(v),
{
    #[verifier::truncate]
    (v as i32)
}

pub fn join_halves(hi: i32, lo: i32) -> (r: i64)
    ensures
        r == join64(hi, lo),
{
    (hi as i64) << 32 | (#[verifier::truncate]
    (lo as u32) as i64)
}

pub open spec fn oid_ints(oids: Seq<u32>) -> Seq<i32> {
    oids.map_values(|o: u32| o as i32)
}

/// A string: its length, then its bytes.
pub open spec fn text_ints(s: Seq<u8>) -> Seq<i32> {
    seq![s.len() as i32] + s.map_values(|b: u8| b as i32)
}

pub open spec fn flag(b: bool) -> i32 {
    if b {
        1
    } else {
        0
    }
}

/// One aggregate of a path: its fields, the constant where it has one, and the
/// output transform of a MIN or MAX.
pub open spec fn agg_ints(a: AggSpec) -> Seq<i32> {
    seq![
        a.agg_type.code_spec(),
        a.col_idx,
        a.result_type_oid as i32,
        a.col_type_oid as i32,
        a.expr_kind.code_spec(),
    ] + (if a.expr_kind == AggExpr::AddConst {
        seq![a.const_offset as i32]
    } else {
        Seq::empty()
    }) + (if a.agg_type == AggType::Min || a.agg_type == AggType::Max {
        match a.output_transform {
            OutputTransform::Identity => seq![0i32],
            OutputTransform::PgUsShift { delta } => seq![1i32, lo32(delta), hi32(delta)],
        }
    } else {
        Seq::empty()
    })
}

pub open spec fn case_value_ints(v: CaseValue) -> Seq<i32> {
    match v {
        CaseValue::ColumnRef(c) => seq![0i32, c as i32],
        CaseValue::StringConst(s) => seq![1i32] + text_ints(s),
    }
}

pub open spec fn condition_ints(c: CaseWhenCondition) -> Seq<i32> {
    seq![
        c.col_idx as i32,
        if c.op == CaseWhenOp::Eq {
            0i32
        } else {
            1i32
        },
        hi32(c.const_val),
        lo32(c.const_val),
    ]
}

pub open spec fn condition_enc() -> spec_fn(CaseWhenCondition) -> Seq<i32> {
    |x: CaseWhenCondition| condition_ints(x)
}

pub open spec fn conditions_ints(s: Seq<CaseWhenCondition>) -> Seq<i32> {
    ints_of(condition_enc(), s)
}

pub open spec fn clause_ints(c: CaseClause) -> Seq<i32> {
    seq![c.conditions.len() as i32] + conditions_ints(c.conditions) + case_value_ints(c.result)
}

pub open spec fn clause_enc() -> spec_fn(CaseClause) -> Seq<i32> {
    |x: CaseClause| clause_ints(x)
}

pub open spec fn clauses_ints(s: Seq<CaseClause>) -> Seq<i32> {
    ints_of(clause_enc(), s)
}

/// One grouping expression: column, type, and a tag with what it needs.
pub open spec fn group_ints(g: Group) -> Seq<i32> {
    seq![g.col_idx, g.type_oid as i32] + match g.expr {
        GroupExpr::Column => seq![0i32],
        GroupExpr::RegexpReplace { pattern, replacement, func_oid, collation } => seq![
            1i32,
            func_oid as i32,
            collation as i32,
        ] + text_ints(pattern) + text_ints(replacement),
        GroupExpr::DateTrunc { unit, func_oid } => seq![2i32, func_oid as i32] + text_ints(unit),
        GroupExpr::Extract { unit, func_oid, divisor } => seq![
            3i32,
            func_oid as i32,
            hi32(divisor),
            lo32(divisor),
        ] + text_ints(unit),
        GroupExpr::AddConst { offset, op_oid } => seq![4i32, offset, op_oid as i32],
        GroupExpr::CaseWhen(spec) => seq![5i32, spec.clauses.len() as i32] + clauses_ints(
            spec.clauses,
        ) + case_value_ints(spec.default),
    }
}

pub open spec fn agg_enc() -> spec_fn(AggSpec) -> Seq<i32> {
    |x: AggSpec| agg_ints(x)
}

pub open spec fn aggs_ints(s: Seq<AggSpec>) -> Seq<i32> {
    ints_of(agg_enc(), s)
}

pub open spec fn group_enc() -> spec_fn(Group) -> Seq<i32> {
    |x: Group| group_ints(x)
}

pub open spec fn groups_ints(s: Seq<Group>) -> Seq<i32> {
    ints_of(group_enc(), s)
}

/// The description of an aggregate path:
/// `[tables.., -1, #aggs, aggs.., #groups, groups.., is_partial]`.
pub open spec fn agg_path_ints(
    oids: Seq<u32>,
    aggs: Seq<AggSpec>,
    groups: Seq<Group>,
    is_partial: bool,
) -> Seq<i32> {
    oid_ints(oids) + seq![-1i32, aggs.len() as i32] + aggs_ints(aggs) + seq![groups.len() as i32]
        + groups_ints(groups) + seq![flag(is_partial)]
}

/// Appends OIDs as integers.
pub fn append_oids_as_ints(out: &mut Vec<i32>, oids: &Vec<u32>)
    ensures
        final(out)@ == old(out)@ + oid_ints(oids@),
{
    let ghost base = out@;
    let mut i: usize = 0;
    assert(out@ =~= base + oid_ints(oids@.subrange(0, 0)));
    while i < oids.len()
        invariant
            i <= oids.len(),
            out@ == base + oid_ints(oids@.subrange(0, i as int)),
        decreases oids.len() - i,
    {
        let v: i32 = #[verifier::truncate]
        (oids[i] as i32);
        out.push(v);
        i += 1;
        assert(oids@.subrange(0, i as int) =~= oids@.subrange(0, i - 1).push(oids@[i - 1]));
        assert(out@ =~= base + oid_ints(oids@.subrange(0, i as int)));
    }
    assert(oids@.subrange(0, i as int) =~= oids@);
}

/// Appends a string, as its length and its bytes.
pub fn append_text(out: &mut Vec<i32>, s: &Vec<u8>)
    ensures
        final(out)@ == old(out)@ + text_ints(s@),
{
    let ghost base = out@;
    let n: i32 = #[verifier::truncate]
    (s.len() as i32);
    out.push(n);
    let mut i: usize = 0;
    assert(out@ =~= base + (seq![n] + s@.subrange(0, 0).map_values(|b: u8| b as i32)));
    while i < s.len()
        invariant
            i <= s.len(),
            out@ == base + (seq![n] + s@.subrange(0, i as int).map_values(|b: u8| b as i32)),
        decreases s.len() - i,
    {
        out.push(s[i] as i32);
        i += 1;
        assert(s@.subrange(0, i as int) =~= s@.subrange(0, i - 1).push(s@[i - 1]));
        assert(out@ =~= base + (seq![n] + s@.subrange(0, i as int).map_values(|b: u8| b as i32)));
    }
    assert(s@.subrange(0, i as int) =~= s@);
}

/// The serialized conditions of a query, `0` where there are none.
pub open spec fn qual_ints(quals: Option<Seq<u8>>) -> Seq<i32> {
    match quals {
        Some(s) => text_ints(s),
        None => seq![0i32],
    }
}

/// The bytes of serialized conditions.
pub open spec fn opt_bytes(quals: Option<Vec<u8>>) -> Option<Seq<u8>> {
    match quals {
        Some(s) => Some(s@),
        None => None,
    }
}

/// Appends the serialized conditions of a query.
pub fn append_qual_list_as_bytes(out: &mut Vec<i32>, quals: &Option<Vec<u8>>)
    ensures
        final(out)@ == old(out)@ + qual_ints(opt_bytes(*quals)),
{
    match quals {
        Some(s) => append_text(out, s),
        None => {
            let ghost base = out@;
            out.push(0);
            assert(out@ =~= base + seq![0i32]);
        },
    }
}

fn append_agg(out: &mut Vec<i32>, a: &AggSpec)
    ensures
        final(out)@ == old(out)@ + agg_ints(*a),
{
    let ghost base = out@;
    out.push(a.agg_type.code());
    out.push(a.col_idx);
    let result: i32 = #[verifier::truncate]
    (a.result_type_oid as i32);
    out.push(result);
    let col_type: i32 = #[verifier::truncate]
    (a.col_type_oid as i32);
    out.push(col_type);
    out.push(a.expr_kind.code());
    if a.expr_kind == AggExpr::AddConst {
        let offset: i32 = #[verifier::truncate]
        (a.const_offset as i32);
        out.push(offset);
    }
    if a.agg_type == AggType::Min || a.agg_type == AggType::Max {
        match a.output_transform {
            OutputTransform::Identity => {
                out.push(0);
            },
            OutputTransform::PgUsShift { delta } => {
                out.push(1);
                out.push(low_half(delta));
                out.push(high_half(delta));
            },
        }
    }
    assert(out@ =~= base + agg_ints(*a));
}

/// Appends a CASE result: its tag, then the column or the string.
pub fn serialize_case_when_value(value: &CaseWhenValue, out: &mut Vec<i32>)
    ensures
        final(out)@ == old(out)@ + case_value_ints(value.view()),
{
    let ghost base = out@;
    match value {
        CaseWhenValue::ColumnRef(c) => {
            out.push(0);
            let v: i32 = #[verifier::truncate]
            (*c as i32);
            out.push(v);
            assert(out@ =~= base + case_value_ints(value.view()));
        },
        CaseWhenValue::StringConst(s) => {
            out.push(1);
            append_text(out, s);
            assert(out@ =~= base + case_value_ints(value.view()));
        },
    }
}

fn append_clause(out: &mut Vec<i32>, c: &CaseWhenClause)
    ensures
        final(out)@ == old(out)@ + clause_ints(c.view()),
{
    let ghost base = out@;
    let ghost conds = c.conditions@;
    let n: i32 = #[verifier::truncate]
    (c.conditions.len() as i32);
    out.push(n);
    let mut i: usize = 0;
    assert(out@ =~= base + (seq![n] + conditions_ints(conds.subrange(0, 0))));
    while i < c.conditions.len()
        invariant
            i <= c.conditions.len(),
            conds == c.conditions@,
            out@ == base + (seq![n] + conditions_ints(conds.subrange(0, i as int))),
        decreases c.conditions.len() - i,
    {
        let cond = c.conditions[i];
        let ghost before = out@;
        let col: i32 = #[verifier::truncate]
        (cond.col_idx as i32);
        out.push(col);
        out.push(
            if cond.op == CaseWhenOp::Eq {
                0
            } else {
                1
            },
        );
        out.push(high_half(cond.const_val));
        out.push(low_half(cond.const_val));
        assert(out@ =~= before + condition_ints(cond));
        proof {
            lemma_ints_of_step(condition_enc(), conds, i as int);
        }
        i += 1;
        assert(out@ =~= base + (seq![n] + conditions_ints(conds.subrange(0, i as int))));
    }
    assert(conds.subrange(0, i as int) =~= conds);
    serialize_case_when_value(&c.result, out);
    assert(out@ =~= base + clause_ints(c.view()));
}

fn append_case(out: &mut Vec<i32>, spec: &CaseWhenSpec)
    ensures
        final(out)@ == old(out)@ + (seq![spec.view().clauses.len() as i32] + clauses_ints(
            spec.view().clauses,
        ) + case_value_ints(spec.view().default)),
{
    let ghost base = out@;
    let ghost cl = spec.view().clauses;
    let n: i32 = #[verifier::truncate]
    (spec.clauses.len() as i32);
    out.push(n);
    let mut i: usize = 0;
    assert(out@ =~= base + (seq![n] + clauses_ints(cl.subrange(0, 0))));
    while i < spec.clauses.len()
        invariant
            i <= spec.clauses.len(),
            cl == clauses_view(spec.clauses@),
            out@ == base + (seq![n] + clauses_ints(cl.subrange(0, i as int))),
        decreases spec.clauses.len() - i,
    {
        append_clause(out, &spec.clauses[i]);
        assert(cl[i as int] == spec.clauses@[i as int].view());
        proof {
            lemma_ints_of_step(clause_enc(), cl, i as int);
        }
        i += 1;
        assert(out@ =~= base + (seq![n] + clauses_ints(cl.subrange(0, i as int))));
    }
    assert(cl.subrange(0, i as int) =~= cl);
    serialize_case_when_value(&spec.default, out);
    assert(out@ =~= base + (seq![n] + clauses_ints(cl) + case_value_ints(spec.view().default)));
}

/// Appends one grouping expression.
pub fn append_group(out: &mut Vec<i32>, g: &GroupByColSpec)
    ensures
        final(out)@ == old(out)@ + group_ints(g.view()),
{
    let ghost base = out@;
    out.push(g.col_idx);
    let type_int: i32 = #[verifier::truncate]
    (g.type_oid as i32);
    out.push(type_int);
    match &g.expr {
        GroupByExpr::Column => {
            out.push(0);
        },
        GroupByExpr::RegexpReplace { pattern, replacement, func_oid, collation } => {
            out.push(1);
            let f: i32 = #[verifier::truncate]
            (*func_oid as i32);
            out.push(f);
            let c: i32 = #[verifier::truncate]
            (*collation as i32);
            out.push(c);
            append_text(out, pattern);
            append_text(out, replacement);
        },
        GroupByExpr::DateTrunc { unit, func_oid } => {
            out.push(2);
            let f: i32 = #[verifier::truncate]
            (*func_oid as i32);
            out.push(f);
            append_text(out, unit);
        },
        GroupByExpr::Extract { unit, func_oid, divisor } => {
            out.push(3);
            let f: i32 = #[verifier::truncate]
            (*func_oid as i32);
            out.push(f);
            out.push(high_half(*divisor));
            out.push(low_half(*divisor));
            append_text(out, unit);
        },
        GroupByExpr::AddConst { offset, op_oid } => {
            out.push(4);
            out.push(*offset);
            let o: i32 = #[verifier::truncate]
            (*op_oid as i32);
            out.push(o);
        },
        GroupByExpr::CaseWhen(spec) => {
            out.push(5);
            append_case(out, spec);
        },
    }
    assert(out@ =~= base + group_ints(g.view()));
}

/// Appends a list of grouping expressions.
pub fn append_groups(out: &mut Vec<i32>, groups: &Vec<GroupByColSpec>)
    ensures
        final(out)@ == old(out)@ + (seq![groups@.len() as i32] + groups_ints(groups_view(groups@))),
{
    let ghost base = out@;
    let ghost gs = groups_view(groups@);
    let n: i32 = #[verifier::truncate]
    (groups.len() as i32);
    out.push(n);
    let mut i: usize = 0;
    assert(out@ =~= base + (seq![n] + groups_ints(gs.subrange(0, 0))));
    while i < groups.len()
        invariant
            i <= groups.len(),
            gs == groups_view(groups@),
            out@ == base + (seq![n] + groups_ints(gs.subrange(0, i as int))),
        decreases groups.len() - i,
    {
        append_group(out, &groups[i]);
        assert(gs[i as int] == groups@[i as int].view());
        proof {
            lemma_ints_of_step(group_enc(), gs, i as int);
        }
        i += 1;
        assert(out@ =~= base + (seq![n] + groups_ints(gs.subrange(0, i as int))));
    }
    assert(gs.subrange(0, i as int) =~= gs);
}

/// Builds the description of an aggregate path.
pub fn build_agg_path_private(
    companion_oids: &Vec<u32>,
    agg_specs: &Vec<AggSpec>,
    group_specs: &Vec<GroupByColSpec>,
    is_partial: bool,
) -> (r: Vec<i32>)
    ensures
        r@ == agg_path_ints(companion_oids@, agg_specs@, groups_view(group_specs@), is_partial),
{
    let mut out: Vec<i32> = Vec::new();
    append_oids_as_ints(&mut out, companion_oids);
    out.push(-1);
    let n: i32 = #[verifier::truncate]
    (agg_specs.len() as i32);
    out.push(n);
    let ghost head = oid_ints(companion_oids@) + seq![-1i32, n];
    let ghost aggs = agg_specs@;
    let mut i: usize = 0;
    assert(out@ =~= head + aggs_ints(aggs.subrange(0, 0)));
    while i < agg_specs.len()
        invariant
            i <= agg_specs.len(),
            aggs == agg_specs@,
            out@ == head + aggs_ints(aggs.subrange(0, i as int)),
        decreases agg_specs.len() - i,
    {
        append_agg(&mut out, &agg_specs[i]);
        proof {
            lemma_ints_of_step(agg_enc(), aggs, i as int);
        }
        i += 1;
        assert(out@ =~= head + aggs_ints(aggs.subrange(0, i as int)));
    }
    assert(aggs.subrange(0, i as int) =~= aggs);
    append_groups(&mut out, group_specs);
    out.push(
        if is_partial {
            1
        } else {
            0
        },
    );
    assert(out@ =~= agg_path_ints(companion_oids@, aggs, groups_view(group_specs@), is_partial));
    out
}

} // verus!
