//! Sketches of the distinct values of columns, merged over partitions.

use vstd::prelude::*;
use cardinality_estimator::CardinalityEstimator;
use crate::search::lemma_first_where;
use crate::stats::assoc::{
    is_named, lemma_front_differs, lemma_lookup_last, lemma_stored, lookup, names_differ, stored,
    Assoc,
};

verus! {

/// Number of registers of a sketch of a large set.
pub const REGISTERS: u64 = 4096;

/// A sketch of a set of values, from which their number is estimated.
#[verifier::external_body]
pub struct Sketch {
    inner: CardinalityEstimator<u64>,
}

/// What a sketch holds: 0 and a word with up to two hashes, or 1 and up to 128
/// hashes, or 3, the number of registers that are zero, the bits of a sum over the
/// registers as a 32-bit float, and the registers. Where the sum is no number, its
/// bits are not fixed by what it was computed from: they count as 0x7fc0_0000.
pub uninterp spec fn sketch_state(s: Sketch) -> Seq<u64>;

/// What a sketch holds once another has been merged into it.
pub uninterp spec fn merged_state(a: Seq<u64>, b: Seq<u64>) -> Seq<u64>;

/// Whether `n` is an estimate of the number of values in what a sketch holds.
pub uninterp spec fn estimate_given(state: Seq<u64>, n: usize) -> bool;

/// The members of a JSON object, each with the two parts of the sketch that is
/// written there, where it is two such parts; none where the text is no JSON
/// object.
pub uninterp spec fn json_pairs(text: Seq<char>) -> Option<
    Seq<(Seq<char>, Option<(u64, Option<Seq<u32>>)>)>,
>;

impl View for Sketch {
    type V = Seq<u64>;

    open spec fn view(&self) -> Seq<u64> {
        sketch_state(*self)
    }
}

/// Whether a number of values can be estimated: no more registers may count as
/// zero than there are.
pub open spec fn can_estimate(state: Seq<u64>) -> bool {
    state.len() > 1 && state[0] == 3 ==> state[1] <= REGISTERS
}

/// The number of values of a small set, which a sketch keeps exactly: those of
/// the two hashes in a word that are not zero, or the hashes in a list.
pub open spec fn exact_count(state: Seq<u64>) -> Option<int> {
    if state.len() == 2 && state[0] == 0 {
        let first = state[1] / 4 % 0x8000_0000;
        let second = state[1] / 0x2_0000_0000 % 0x8000_0000;
        Some(
            if second != 0 {
                2
            } else if first != 0 {
                1
            } else {
                0
            },
        )
    } else if state.len() > 0 && state[0] == 1 {
        Some(state.len() - 1)
    } else {
        None
    }
}

/// Whether `n` is an estimate of the number of values, and for a small set that
/// number.
pub open spec fn is_estimate(state: Seq<u64>, n: usize) -> bool {
    &&& estimate_given(state, n)
    &&& exact_count(state) matches Some(k) ==> n == k
}

/// A sketch as it is written: a word, whose two lowest bits say what form it has,
/// and the words of a sketch that one word does not hold.
pub struct SketchPair {
    pub data: u64,
    pub words: Option<Vec<u32>>,
}

impl View for SketchPair {
    type V = (u64, Option<Seq<u32>>);

    open spec fn view(&self) -> (u64, Option<Seq<u32>>) {
        (
            self.data,
            match self.words {
                Some(w) => Some(w@),
                None => None,
            },
        )
    }
}

/// Whether the words are as many as the form of a sketch asks for.
pub open spec fn pair_fits(p: (u64, Option<Seq<u32>>)) -> bool {
    match p.1 {
        None => p.0 % 4 == 0,
        Some(w) => (p.0 % 4 == 1 && 3 <= w.len() <= 128) || (p.0 % 4 == 3 && w.len() == 771),
    }
}

/// Whether a sketch of a large set counts no more zero registers than it has.
pub open spec fn pair_sound(p: (u64, Option<Seq<u32>>)) -> bool {
    match p.1 {
        Some(w) => p.0 % 4 == 3 && w.len() > 0 ==> w[0] <= REGISTERS,
        None => true,
    }
}

/// The bits of a 32-bit float, with one pattern for all that are no number.
pub open spec fn float_bits(w: u32) -> u32 {
    if w % 0x8000_0000 > 0x7f80_0000 {
        0x7fc0_0000
    } else {
        w
    }
}

/// What a sketch holds that was written as the pair.
pub open spec fn pair_holds(p: (u64, Option<Seq<u32>>)) -> Seq<u64> {
    match p.1 {
        None => seq![0u64, p.0],
        Some(w) => seq![(p.0 % 4) as u64] + Seq::new(
            w.len(),
            |i: int|
                if p.0 % 4 == 3 && i == 1 {
                    float_bits(w[i]) as u64
                } else {
                    w[i] as u64
                },
        ),
    }
}

/// What the sketch holds that is read from a pair; none where the pair is no
/// sketch, or one that counts more zero registers than it has.
pub open spec fn pair_state(p: (u64, Option<Seq<u32>>)) -> Option<Seq<u64>> {
    if pair_fits(p) && pair_sound(p) {
        Some(pair_holds(p))
    } else {
        None
    }
}

/// A member of a JSON object that may be a sketch as it is written.
pub struct PairMember {
    pub name: String,
    pub pair: Option<SketchPair>,
}

pub open spec fn pair_views(s: Seq<PairMember>) -> Seq<
    (Seq<char>, Option<(u64, Option<Seq<u32>>)>),
> {
    Seq::new(
        s.len(),
        |i: int|
            (
                s[i].name@,
                match s[i].pair {
                    Some(p) => Some(p@),
                    None => None,
                },
            ),
    )
}

/// A member of a JSON object that may be a sketch.
pub struct SketchMember {
    pub name: String,
    pub sketch: Option<Sketch>,
}

pub open spec fn member_views(s: Seq<SketchMember>) -> Seq<(Seq<char>, Option<Seq<u64>>)> {
    Seq::new(
        s.len(),
        |i: int|
            (
                s[i].name@,
                match s[i].sketch {
                    Some(k) => Some(sketch_state(k)),
                    None => None,
                },
            ),
    )
}

/// What the members hold as sketches, where they are.
pub open spec fn member_states(s: Seq<(Seq<char>, Option<(u64, Option<Seq<u32>>)>)>) -> Seq<
    (Seq<char>, Option<Seq<u64>>),
> {
    Seq::new(
        s.len(),
        |i: int|
            (
                s[i].0,
                match s[i].1 {
                    Some(p) => pair_state(p),
                    None => None,
                },
            ),
    )
}

/// The members of a JSON object, each with what it holds as a sketch where it is
/// one; none where the text is no JSON object.
pub open spec fn json_sketches(text: Seq<char>) -> Option<Seq<(Seq<char>, Option<Seq<u64>>)>> {
    match json_pairs(text) {
        Some(m) => Some(member_states(m)),
        None => None,
    }
}

/// Calls `CardinalityEstimator::merge`: what a sketch holds afterwards is a
/// function of what the two hold, for a sum that is no number stays one and no
/// other becomes one. Where both count no more zero registers than
/// there are, the result does not either: a register that is set lowers the
/// count or leaves it.
#[verifier::external_body]
fn merge_sketch(a: &mut Sketch, b: &Sketch)
    ensures
        sketch_state(*final(a)) == merged_state(sketch_state(*old(a)), sketch_state(*b)),
        can_estimate(sketch_state(*old(a))) && can_estimate(sketch_state(*b)) ==> can_estimate(
            sketch_state(*final(a)),
        ),
{
    a.inner.merge(&b.inner)
}

/// Calls `CardinalityEstimator::estimate`, which subtracts the number of zero
/// registers from the number of registers. A small set is kept exactly, and its
/// number is the number of hashes. For large sets only that the number is an
/// estimate of what the sketch holds: it is computed with a logarithm whose last
/// digit depends on the machine.
#[verifier::external_body]
fn estimate_sketch(s: &Sketch) -> (r: usize)
    requires
        can_estimate(sketch_state(*s)),
    ensures
        estimate_given(sketch_state(*s), r),
        exact_count(sketch_state(*s)) matches Some(k) ==> r == k,
{
    s.inner.estimate()
}

/// Calls `serde_json::from_value` on each member of the object that
/// `serde_json::from_str` reads: which members are pairs of a number and perhaps
/// a list of numbers, and which pairs, is a function of the text; no object has
/// two members of one name.
#[verifier::external_body]
fn read_pairs(text: &str) -> (r: Option<Vec<PairMember>>)
    ensures
        match r {
            Some(l) => json_pairs(text@) == Some(pair_views(l@)) && names_differ(pair_views(l@)),
            None => json_pairs(text@) is None,
        },
{
    let serde_json::Value::Object(members) = serde_json::from_str(text).ok()? else {
        return None;
    };
    let pairs = members.into_iter().map(|(name, v)| (name, serde_json::from_value(v).ok()));
    let member = |(name, p): (String, Option<(u64, Option<Vec<u32>>)>)| PairMember {
        name,
        pair: p.map(|(data, words)| SketchPair { data, words }),
    };
    Some(pairs.map(member).collect())
}

/// Calls `serde_json::from_value` for a `CardinalityEstimator` on the JSON value
/// of a pair: a pair is a sketch where its words are as many as its form asks
/// for, and the sketch holds those words, a sum that is no number by its one
/// pattern.
#[verifier::external_body]
fn restore_sketch(pair: SketchPair) -> (r: Option<Sketch>)
    requires
        pair_sound(pair@),
    ensures
        match r {
            Some(s) => pair_fits(pair@) && sketch_state(s) == pair_holds(pair@),
            None => !pair_fits(pair@),
        },
{
    let value = serde_json::to_value((pair.data, pair.words)).ok()?;
    serde_json::from_value(value).ok().map(|inner| Sketch { inner })
}

/// The sketch that was written as the pair.
fn sketch_of_pair(pair: SketchPair) -> (r: Option<Sketch>)
    ensures
        match r {
            Some(s) => pair_state(pair@) == Some(s@) && can_estimate(s@),
            None => pair_state(pair@) is None,
        },
{
    let sound = match &pair.words {
        Some(w) => pair.data % 4 != 3 || w.len() == 0 || w[0] as u64 <= REGISTERS,
        None => true,
    };
    if sound {
        restore_sketch(pair)
    } else {
        None
    }
}

/// The sketches among members of a JSON object.
fn sketches_of(pairs: Vec<PairMember>) -> (r: Vec<SketchMember>)
    ensures
        member_views(r@) == member_states(pair_views(pairs@)),
        members_sound(member_views(r@)),
{
    let ghost all = pair_views(pairs@);
    let mut rest = pairs;
    let mut out: Vec<SketchMember> = Vec::new();
    assert(member_views(out@) =~= member_states(all.subrange(0, 0)));
    while rest.len() > 0
        invariant
            out@.len() <= all.len(),
            pair_views(rest@) == all.subrange(out@.len() as int, all.len() as int),
            member_views(out@) == member_states(all.subrange(0, out@.len() as int)),
            members_sound(member_views(out@)),
        decreases rest.len(),
    {
        let ghost i = out@.len() as int;
        let ghost tail = pair_views(rest@);
        let ghost before = member_views(out@);
        assert(tail.len() == rest@.len());
        assert(tail[0] == all[i]);
        let m = rest.remove(0);
        assert(pair_views(rest@) =~= tail.drop_first());
        assert(tail.drop_first() =~= all.subrange(i + 1, all.len() as int));
        let sketch = match m.pair {
            Some(p) => sketch_of_pair(p),
            None => None,
        };
        out.push(SketchMember { name: m.name, sketch });
        let ghost entry = member_states(all)[i];
        assert(member_views(out@) =~= before.push(entry));
        assert(member_states(all.subrange(0, i + 1)) =~= before.push(entry));
    }
    assert(pair_views(rest@).len() == 0);
    assert(all.subrange(0, out@.len() as int) =~= all);
    out
}

/// Whether a number of values can be estimated from each sketch.
pub open spec fn all_sound(acc: Seq<(Seq<char>, Seq<u64>)>) -> bool {
    forall|i: int| 0 <= i < acc.len() ==> can_estimate((#[trigger] acc[i]).1)
}

/// Whether a number of values can be estimated from each member that is a sketch.
pub open spec fn members_sound(more: Seq<(Seq<char>, Option<Seq<u64>>)>) -> bool {
    forall|i: int|
        0 <= i < more.len() ==> ((#[trigger] more[i]).1 matches Some(s) ==> can_estimate(s))
}

/// Sketches by column with more of them merged in; what is no sketch is passed
/// over.
pub open spec fn with_sketches(
    acc: Seq<(Seq<char>, Seq<u64>)>,
    more: Seq<(Seq<char>, Option<Seq<u64>>)>,
) -> Seq<(Seq<char>, Seq<u64>)>
    decreases more.len(),
{
    if more.len() == 0 {
        acc
    } else {
        let rest = with_sketches(acc, more.drop_last());
        let (name, sketch) = more.last();
        match sketch {
            Some(s) => stored(
                rest,
                name,
                match lookup(rest, name) {
                    Some(held) => merged_state(held, s),
                    None => s,
                },
            ),
            None => rest,
        }
    }
}

fn merge_member(acc: &mut Assoc<Sketch>, name: &str, sketch: Sketch)
    ensures
        final(acc)@ == stored(
            old(acc)@,
            name@,
            match lookup(old(acc)@, name@) {
                Some(held) => merged_state(held, sketch@),
                None => sketch@,
            },
        ),
        all_sound(old(acc)@) && can_estimate(sketch@) ==> all_sound(final(acc)@),
{
    let ghost before = acc@;
    match acc.find(name) {
        Some(i) => {
            proof {
                lemma_first_where(before, is_named(name@));
            }
            merge_sketch(&mut acc.entries[i].item, &sketch);
            assert(acc@ =~= before.update(
                i as int,
                (name@, merged_state(before[i as int].1, sketch@)),
            ));
        },
        None => {
            acc.push(name.to_owned(), sketch);
        },
    }
}

/// Merges the sketches of a partition into those of the table.
pub fn merge_members(acc: &mut Assoc<Sketch>, members: Vec<SketchMember>)
    ensures
        final(acc)@ == with_sketches(old(acc)@, member_views(members@)),
        all_sound(old(acc)@) && members_sound(member_views(members@)) ==> all_sound(final(acc)@),
{
    let ghost before = acc@;
    let ghost all = member_views(members@);
    let mut rest = members;
    let ghost mut i: int = 0;
    assert(all.subrange(0, 0) =~= Seq::<(Seq<char>, Option<Seq<u64>>)>::empty());
    while rest.len() > 0
        invariant
            0 <= i <= all.len(),
            member_views(rest@) == all.subrange(i, all.len() as int),
            acc@ == with_sketches(before, all.subrange(0, i)),
            all_sound(before) && members_sound(all) ==> all_sound(acc@),
        decreases rest.len(),
    {
        let ghost tail = member_views(rest@);
        assert(tail.len() == rest@.len());
        assert(tail[0] == all[i]);
        assert(all.subrange(0, i + 1).drop_last() =~= all.subrange(0, i));
        let m = rest.remove(0);
        assert(member_views(rest@) =~= tail.drop_first());
        assert(tail.drop_first() =~= all.subrange(i + 1, all.len() as int));
        match m.sketch {
            Some(s) => {
                merge_member(acc, m.name.as_str(), s);
            },
            None => {},
        }
        proof {
            i = i + 1;
        }
    }
    assert(member_views(rest@).len() == 0);
    assert(all.subrange(0, i) =~= all);
}

/// Merges the sketches of a partition, given as a JSON object from column to
/// sketch, into those of the table. What does not parse, or counts more zero
/// registers than there are, is passed over.
pub fn merge_partition_hll_json(text: &str, acc: &mut Assoc<Sketch>)
    ensures
        final(acc)@ == match json_sketches(text@) {
            Some(members) => with_sketches(old(acc)@, members),
            None => old(acc)@,
        },
        all_sound(old(acc)@) ==> all_sound(final(acc)@),
{
    match read_pairs(text) {
        Some(pairs) => {
            let members = sketches_of(pairs);
            merge_members(acc, members);
        },
        None => {},
    }
}

/// A column's sketch takes in the sketch of that column, and no other.
pub proof fn lemma_sketch_of_column(
    acc: Seq<(Seq<char>, Seq<u64>)>,
    more: Seq<(Seq<char>, Option<Seq<u64>>)>,
    name: Seq<char>,
)
    requires
        names_differ(more),
    ensures
        lookup(with_sketches(acc, more), name) == match (lookup(acc, name), lookup(more, name)) {
            (Some(held), Some(Some(s))) => Some(merged_state(held, s)),
            (None, Some(Some(s))) => Some(s),
            (held, _) => held,
        },
    decreases more.len(),
{
    lemma_lookup_last(more, name);
    if more.len() > 0 {
        let front = more.drop_last();
        lemma_front_differs(more);
        lemma_sketch_of_column(acc, front, name);
        let rest = with_sketches(acc, front);
        let (last, sketch) = more.last();
        match sketch {
            Some(s) => {
                lemma_stored(
                    rest,
                    last,
                    match lookup(rest, last) {
                        Some(held) => merged_state(held, s),
                        None => s,
                    },
                );
            },
            None => {},
        }
    }
}

/// Whether `estimate` is one of the sketch of a column, and none where it has no
/// sketch.
pub open spec fn estimate_of(
    sketches: Seq<(Seq<char>, Seq<u64>)>,
    name: Seq<char>,
    estimate: Option<usize>,
) -> bool {
    match (lookup(sketches, name), estimate) {
        (Some(state), Some(n)) => is_estimate(state, n),
        (None, None) => true,
        _ => false,
    }
}

/// The estimated number of distinct values of a column, where it has a sketch.
pub fn estimate(sketches: &Assoc<Sketch>, name: &str) -> (r: Option<usize>)
    requires
        all_sound(sketches@),
    ensures
        estimate_of(sketches@, name@, r),
{
    proof {
        lemma_first_where(sketches@, is_named(name@));
    }
    match sketches.get(name) {
        Some(s) => Some(estimate_sketch(s)),
        None => None,
    }
}

} // verus!
