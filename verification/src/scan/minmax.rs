//! Aggregates that are answered from per-segment metadata alone, and the
//! description of the scan that answers them.

use vstd::prelude::*;
use crate::scan::wire::{
    append_oids_as_ints, append_qual_list_as_bytes, append_text, flag, hi32, high_half, ints_of,
    join64, join_halves, lemma_ints_of_step, lemma_join64, lo32, low_half, oid_ints, opt_bytes,
    qual_ints, text_ints,
};
use crate::scan::wire_decode::{
    fits, head_oids, holds_at, is_separator, lemma_head_oids, lemma_holds_index, lemma_holds_split, lemma_oid_back,
    lemma_take_all, lemma_take_n_none, lemma_text_back, parse_head_oids, same, take_n, take_text,
};
use crate::search::{first_where, lemma_first_where};

verus! {

/// What is computed from metadata.
#[derive(Clone, Copy, Debug, PartialEq, Eq, Structural)]
pub enum MetaAggKind {
    Min,
    Max,
    Sum,
    CountCol,
    CountStar,
}

impl MetaAggKind {
    pub open spec fn code_spec(self) -> i32 {
        match self {
            MetaAggKind::Min => 0,
            MetaAggKind::Max => 1,
            MetaAggKind::Sum => 2,
            MetaAggKind::CountCol => 3,
            MetaAggKind::CountStar => 4,
        }
    }

    /// Number of the kind in a description.
    pub fn code(self) -> (r: i32)
        ensures
            r == self.code_spec(),
            0 <= r <= 4,
    {
        match self {
            MetaAggKind::Min => 0,
            MetaAggKind::Max => 1,
            MetaAggKind::Sum => 2,
            MetaAggKind::CountCol => 3,
            MetaAggKind::CountStar => 4,
        }
    }

    /// The kind of that number.
    pub fn from_i32(v: i32) -> (r: MetaAggKind)
        requires
            0 <= v <= 4,
        ensures
            r.code_spec() == v,
    {
        if v == 0 {
            MetaAggKind::Min
        } else if v == 1 {
            MetaAggKind::Max
        } else if v == 2 {
            MetaAggKind::Sum
        } else if v == 3 {
            MetaAggKind::CountCol
        } else {
            MetaAggKind::CountStar
        }
    }
}

/// The kind of a number in `0..=4`.
pub open spec fn kind_of_code(v: i32) -> MetaAggKind {
    if v == 0 {
        MetaAggKind::Min
    } else if v == 1 {
        MetaAggKind::Max
    } else if v == 2 {
        MetaAggKind::Sum
    } else if v == 3 {
        MetaAggKind::CountCol
    } else {
        MetaAggKind::CountStar
    }
}

/// Every kind comes back from its number, and every number from its kind.
pub proof fn lemma_kind_round_trip(k: MetaAggKind, v: i32)
    ensures
        0 <= k.code_spec() <= 4,
        kind_of_code(k.code_spec()) == k,
        0 <= v <= 4 ==> kind_of_code(v).code_spec() == v,
{
}

/// One aggregate answered from metadata.
#[derive(Clone, Copy, Debug, PartialEq, Eq, Structural)]
pub struct MinMaxAggSpec {
    pub kind: MetaAggKind,
    /// Number of the column, 0 for COUNT(*).
    pub varattno: i16,
    pub result_type_oid: u32,
    /// Type of the column, invalid for COUNT(*).
    pub col_type_oid: u32,
    pub typlen: i16,
    pub typbyval: bool,
    /// `n` of `SUM(column + n)`, else 0.
    pub const_offset: i64,
}

/// An aggregate as it stands in a description.
#[derive(Clone, Copy, Debug, PartialEq, Eq, Structural)]
pub struct PlanAggSpec {
    pub kind: MetaAggKind,
    pub varattno: i32,
    pub result_type_oid: u32,
    pub col_type_oid: u32,
    pub typlen: i32,
    pub typbyval: bool,
    pub const_offset: i64,
}

pub open spec fn as_planned(a: MinMaxAggSpec) -> PlanAggSpec {
    PlanAggSpec {
        kind: a.kind,
        varattno: a.varattno as i32,
        result_type_oid: a.result_type_oid,
        col_type_oid: a.col_type_oid,
        typlen: a.typlen as i32,
        typbyval: a.typbyval,
        const_offset: a.const_offset,
    }
}

impl MinMaxAggSpec {
    fn planned(&self) -> (r: PlanAggSpec)
        ensures
            r == as_planned(*self),
    {
        PlanAggSpec {
            kind: self.kind,
            varattno: self.varattno as i32,
            result_type_oid: self.result_type_oid,
            col_type_oid: self.col_type_oid,
            typlen: self.typlen as i32,
            typbyval: self.typbyval,
            const_offset: self.const_offset,
        }
    }
}

/// The eight numbers of one aggregate; the offset's low half comes first.
pub open spec fn meta_ints(a: PlanAggSpec) -> Seq<i32> {
    seq![
        a.kind.code_spec(),
        a.varattno,
        a.result_type_oid as i32,
        a.col_type_oid as i32,
        a.typlen,
        flag(a.typbyval),
        lo32(a.const_offset),
        hi32(a.const_offset),
    ]
}

pub open spec fn meta_enc() -> spec_fn(PlanAggSpec) -> Seq<i32> {
    |a: PlanAggSpec| meta_ints(a)
}

/// The description of a metadata scan: `[tables.., -1, #aggs, aggs.., conditions]`.
pub open spec fn minmax_ints(
    oids: Seq<u32>,
    aggs: Seq<PlanAggSpec>,
    quals: Seq<i32>,
) -> Seq<i32> {
    oid_ints(oids).push(-1i32) + (seq![aggs.len() as i32] + ints_of(meta_enc(), aggs)) + quals
}

fn append_meta_aggs(out: &mut Vec<i32>, aggs: &Vec<PlanAggSpec>)
    ensures
        final(out)@ == old(out)@ + (seq![aggs@.len() as i32] + ints_of(meta_enc(), aggs@)),
{
    let ghost base = out@;
    let n: i32 = #[verifier::truncate]
    (aggs.len() as i32);
    out.push(n);
    let mut i: usize = 0;
    assert(out@ =~= base + (seq![n] + ints_of(meta_enc(), aggs@.subrange(0, 0))));
    while i < aggs.len()
        invariant
            i <= aggs.len(),
            out@ == base + (seq![n] + ints_of(meta_enc(), aggs@.subrange(0, i as int))),
        decreases aggs.len() - i,
    {
        let a = aggs[i];
        let ghost before = out@;
        out.push(a.kind.code());
        out.push(a.varattno);
        let result: i32 = #[verifier::truncate]
        (a.result_type_oid as i32);
        out.push(result);
        let col_type: i32 = #[verifier::truncate]
        (a.col_type_oid as i32);
        out.push(col_type);
        out.push(a.typlen);
        out.push(
            if a.typbyval {
                1
            } else {
                0
            },
        );
        out.push(low_half(a.const_offset));
        out.push(high_half(a.const_offset));
        assert(out@ =~= before + meta_ints(a));
        proof {
            lemma_ints_of_step(meta_enc(), aggs@, i as int);
        }
        i += 1;
        assert(out@ =~= base + (seq![n] + ints_of(meta_enc(), aggs@.subrange(0, i as int))));
    }
    assert(aggs@.subrange(0, i as int) =~= aggs@);
}

/// The aggregates of a path, as its description holds them.
pub open spec fn planned_aggs(aggs: Seq<MinMaxAggSpec>) -> Seq<PlanAggSpec> {
    aggs.map_values(|a: MinMaxAggSpec| as_planned(a))
}

/// Builds the description of a metadata path.
pub fn build_minmax_path_private(
    companion_oids: &Vec<u32>,
    agg_specs: &Vec<MinMaxAggSpec>,
    quals: &Option<Vec<u8>>,
) -> (r: Vec<i32>)
    ensures
        r@ == minmax_ints(
            companion_oids@,
            planned_aggs(agg_specs@),
            qual_ints(opt_bytes(*quals)),
        ),
{
    let mut aggs: Vec<PlanAggSpec> = Vec::new();
    let mut i: usize = 0;
    while i < agg_specs.len()
        invariant
            i <= agg_specs.len(),
            aggs@ == planned_aggs(agg_specs@.subrange(0, i as int)),
        decreases agg_specs.len() - i,
    {
        aggs.push(agg_specs[i].planned());
        i += 1;
        assert(aggs@ =~= planned_aggs(agg_specs@.subrange(0, i as int)));
    }
    assert(agg_specs@.subrange(0, i as int) =~= agg_specs@);
    let mut out: Vec<i32> = Vec::new();
    append_oids_as_ints(&mut out, companion_oids);
    assert(out@ =~= oid_ints(companion_oids@));
    out.push(-1);
    append_meta_aggs(&mut out, &aggs);
    append_qual_list_as_bytes(&mut out, quals);
    out
}

// ---------------------------------------------------------------------------
// Planning
// ---------------------------------------------------------------------------

/// What is wrong with a description.
#[derive(Clone, Copy, Debug, PartialEq, Eq, Structural)]
pub enum PrivateError {
    /// The tables are not ended by -1.
    MissingSeparator,
    /// It ends too early, or an aggregate's kind is unknown.
    Malformed,
}

pub open spec fn take_meta(s: Seq<i32>, at: int) -> Option<(PlanAggSpec, int)> {
    if 0 <= at && at + 8 <= s.len() && 0 <= s[at] <= 4 {
        Some(
            (
                PlanAggSpec {
                    kind: kind_of_code(s[at]),
                    varattno: s[at + 1],
                    result_type_oid: s[at + 2] as u32,
                    col_type_oid: s[at + 3] as u32,
                    typlen: s[at + 4],
                    typbyval: s[at + 5] != 0,
                    const_offset: join64(s[at + 7], s[at + 6]),
                },
                at + 8,
            ),
        )
    } else {
        None
    }
}

pub open spec fn meta_take() -> spec_fn(Seq<i32>, int) -> Option<(PlanAggSpec, int)> {
    |s: Seq<i32>, at: int| take_meta(s, at)
}

/// Serialized conditions at the end of a description; none are written where
/// it ends. A negative length counts as 0.
pub open spec fn take_quals(s: Seq<i32>, at: int) -> Option<Seq<u8>> {
    if at < s.len() {
        if s[at] < 0 {
            Some(Seq::empty())
        } else {
            match take_text(s, at) {
                Some((t, p)) => Some(t),
                None => None,
            }
        }
    } else {
        Some(Seq::empty())
    }
}

/// What the description of a metadata path says.
pub struct MinMaxContents {
    pub oids: Seq<u32>,
    pub aggs: Seq<PlanAggSpec>,
    pub quals: Seq<u8>,
}

/// What the description of a metadata path says.
pub open spec fn minmax_contents(s: Seq<i32>) -> Result<MinMaxContents, PrivateError> {
    if first_where(s, is_separator()) is None {
        Err(PrivateError::MissingSeparator)
    } else {
        let (oids, p0) = head_oids(s);
        if p0 < s.len() {
            match take_n(meta_take(), s, p0 + 1, s[p0] as int) {
                Some((aggs, p1)) => match take_quals(s, p1) {
                    Some(quals) => Ok(MinMaxContents { oids, aggs, quals }),
                    None => Err(PrivateError::Malformed),
                },
                None => Err(PrivateError::Malformed),
            }
        } else {
            Err(PrivateError::Malformed)
        }
    }
}

/// A placeholder column: a null constant of an aggregate's result type.
#[derive(Clone, Copy, Debug, PartialEq, Eq, Structural)]
pub struct Placeholder {
    pub resno: i16,
    pub type_oid: u32,
    pub typlen: i32,
    pub typbyval: bool,
}

/// Output column `i` of a metadata scan.
pub open spec fn placeholder(a: PlanAggSpec, i: int) -> Placeholder {
    Placeholder {
        resno: (i + 1) as i16,
        type_oid: a.result_type_oid,
        typlen: a.typlen,
        typbyval: a.typbyval,
    }
}

/// A planned metadata scan: its output columns, one for each aggregate, and the
/// description that the executor reads.
pub struct MinMaxPlan {
    pub columns: Vec<Placeholder>,
    pub custom_private: Vec<i32>,
}

fn parse_meta_aggs(s: &Vec<i32>, at: usize, n: i32) -> (r: Option<(Vec<PlanAggSpec>, usize)>)
    requires
        at <= s.len(),
    ensures
        match r {
            Some((v, p)) => take_n(meta_take(), s@, at as int, n as int) == Some((v@, p as int))
                && p <= s.len(),
            None => take_n(meta_take(), s@, at as int, n as int) is None,
        },
{
    let mut out: Vec<PlanAggSpec> = Vec::new();
    let mut p: usize = at;
    let mut i: i32 = 0;
    while i < n
        invariant
            0 <= i,
            i <= n || i == 0,
            p <= s.len(),
            at <= s.len(),
            take_n(meta_take(), s@, at as int, i as int) == Some((out@, p as int)),
        decreases n - i,
    {
        if s.len() - p < 8 || s[p] < 0 || s[p] > 4 {
            proof {
                lemma_take_n_none(meta_take(), s@, at as int, i + 1, n as int);
            }
            return None;
        }
        let a = PlanAggSpec {
            kind: MetaAggKind::from_i32(s[p]),
            varattno: s[p + 1],
            result_type_oid: #[verifier::truncate]
            (s[p + 2] as u32),
            col_type_oid: #[verifier::truncate]
            (s[p + 3] as u32),
            typlen: s[p + 4],
            typbyval: s[p + 5] != 0,
            const_offset: join_halves(s[p + 7], s[p + 6]),
        };
        proof {
            lemma_kind_round_trip(a.kind, s@[p as int]);
        }
        out.push(a);
        p += 8;
        i += 1;
    }
    Some((out, p))
}

/// Turns a metadata path into a plan.
pub fn plan_minmax_path(path_private: &Vec<i32>) -> (r: Result<MinMaxPlan, PrivateError>)
    ensures
        match r {
            Ok(plan) => minmax_contents(path_private@) matches Ok(c) && plan.columns@ == Seq::new(
                c.aggs.len(),
                |i: int| placeholder(c.aggs[i], i),
            ) && plan.custom_private@ == minmax_ints(c.oids, c.aggs, text_ints(c.quals)),
            Err(e) => minmax_contents(path_private@) == Err::<MinMaxContents, PrivateError>(e),
        },
{
    let s = path_private;
    let (oids, p0) = parse_head_oids(s);
    proof {
        lemma_first_where(s@, is_separator());
    }
    if p0 == 0 || s[p0 - 1] != -1 {
        assert(first_where(s@, is_separator()) is None);
        return Err(PrivateError::MissingSeparator);
    }
    assert(first_where(s@, is_separator()) is Some);
    if p0 >= s.len() {
        return Err(PrivateError::Malformed);
    }
    let (aggs, p1) = match parse_meta_aggs(s, p0 + 1, s[p0]) {
        Some(x) => x,
        None => {
            return Err(PrivateError::Malformed);
        },
    };
    let quals: Vec<u8> = if p1 < s.len() && s[p1] >= 0 {
        match crate::scan::wire_decode::parse_text(s, p1) {
            Some((t, _)) => t,
            None => {
                return Err(PrivateError::Malformed);
            },
        }
    } else {
        Vec::new()
    };
    assert(take_quals(s@, p1 as int) == Some(quals@)) by {
        if !(p1 < s.len() && s@[p1 as int] >= 0) {
            assert(quals@ =~= Seq::<u8>::empty());
        }
    }
    let mut columns: Vec<Placeholder> = Vec::new();
    let mut i: usize = 0;
    while i < aggs.len()
        invariant
            i <= aggs.len(),
            columns@ == Seq::new(i as nat, |k: int| placeholder(aggs@[k], k)),
        decreases aggs.len() - i,
    {
        let a = aggs[i];
        let resno: i16 = #[verifier::truncate]
        ((i as u128 + 1) as i16);
        columns.push(
            Placeholder {
                resno,
                type_oid: a.result_type_oid,
                typlen: a.typlen,
                typbyval: a.typbyval,
            },
        );
        i += 1;
        assert(columns@ =~= Seq::new(i as nat, |k: int| placeholder(aggs@[k], k)));
    }
    let mut out: Vec<i32> = Vec::new();
    append_oids_as_ints(&mut out, &oids);
    assert(out@ =~= oid_ints(oids@));
    out.push(-1);
    append_meta_aggs(&mut out, &aggs);
    append_text(&mut out, &quals);
    Ok(MinMaxPlan { columns, custom_private: out })
}

/// The description of a metadata path is read back as it was written, and so
/// the plan's description is the path's.
pub proof fn lemma_minmax_round_trip(oids: Seq<u32>, aggs: Seq<PlanAggSpec>, quals: Seq<u8>)
    requires
        forall|i: int| 0 <= i < oids.len() ==> #[trigger] oids[i] != u32::MAX,
        fits(aggs.len()),
        fits(quals.len()),
    ensures
        minmax_contents(minmax_ints(oids, aggs, text_ints(quals))) == Ok::<
            MinMaxContents,
            PrivateError,
        >(MinMaxContents { oids, aggs, quals }),
{
    let q = text_ints(quals);
    let s = minmax_ints(oids, aggs, q);
    let h = oid_ints(oids);
    let n = seq![aggs.len() as i32];
    let a = ints_of(meta_enc(), aggs);
    let k = oids.len() as int;
    assert(s.subrange(0, s.len() as int) =~= s);
    lemma_holds_split(s, 0, h.push(-1i32) + (n + a), q);
    lemma_holds_split(s, 0, h.push(-1i32), n + a);
    lemma_holds_split(s, k + 1, n, a);
    assert(h.push(-1i32) =~= h + seq![-1i32]);
    lemma_holds_split(s, 0, h, seq![-1i32]);
    lemma_holds_index(s, k, seq![-1i32], 0);
    lemma_head_oids(s, oids);
    lemma_holds_index(s, k + 1, n, 0);
    assert forall|i: int, p: int|
        #![trigger meta_take()(s, p), meta_enc()(aggs[i])]
        0 <= i < aggs.len() && holds_at(s, p, meta_enc()(aggs[i])) implies meta_take()(s, p)
        == Some((same()(aggs[i]), p + meta_enc()(aggs[i]).len())) by {
        let x = aggs[i];
        let e = meta_ints(x);
        lemma_holds_index(s, p, e, 0);
        lemma_holds_index(s, p, e, 1);
        lemma_holds_index(s, p, e, 2);
        lemma_holds_index(s, p, e, 3);
        lemma_holds_index(s, p, e, 4);
        lemma_holds_index(s, p, e, 5);
        lemma_holds_index(s, p, e, 6);
        lemma_holds_index(s, p, e, 7);
        lemma_oid_back(x.result_type_oid);
        lemma_oid_back(x.col_type_oid);
        lemma_join64(x.const_offset);
        lemma_kind_round_trip(x.kind, 0);
    }
    lemma_take_all(meta_enc(), meta_take(), same(), aggs, s, k + 2);
    assert(aggs.map_values(same()) =~= aggs);
    lemma_holds_index(s, k + 2 + a.len(), q, 0);
    lemma_text_back(s, k + 2 + a.len(), quals);
}

} // verus!
