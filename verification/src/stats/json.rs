//! Values and counts of columns, read from JSON.

use vstd::prelude::*;
use serde_json::Value;
use crate::search::lemma_first_where;
use crate::stats::assoc::{
    is_named, lemma_front_differs, lemma_lookup_last, lemma_stored, lookup, names_differ, stored,
    Assoc, Named,
};
use crate::stats::values::{
    add_counts, all_counted, lemma_with_texts, opt_texts, texts_ascend, with_texts, Values,
};
use crate::text::texts;

verus! {

/// A member of a JSON object: an object, with the 64-bit integers in it; an
/// array, with the strings in it; or something else.
pub enum Member {
    Object(Assoc<Option<i64>>),
    Array(Vec<Option<String>>),
    Other,
}

pub enum MemberView {
    Object(Seq<(Seq<char>, Option<i64>)>),
    Array(Seq<Option<Seq<char>>>),
    Other,
}

impl View for Member {
    type V = MemberView;

    open spec fn view(&self) -> MemberView {
        match *self {
            Member::Object(m) => MemberView::Object(m@),
            Member::Array(a) => MemberView::Array(opt_texts(a@)),
            Member::Other => MemberView::Other,
        }
    }
}

/// The members of a JSON object by name; none where the text is no JSON object.
pub uninterp spec fn json_object(text: Seq<char>) -> Option<Seq<(Seq<char>, MemberView)>>;

/// Whether no name occurs twice, neither among the members nor in one of them.
pub open spec fn members_differ(s: Seq<(Seq<char>, MemberView)>) -> bool {
    &&& names_differ(s)
    &&& forall|i: int|
        0 <= i < s.len() ==> match (#[trigger] s[i]).1 {
            MemberView::Object(m) => names_differ(m),
            _ => true,
        }
}

/// Calls `serde_json::from_str`. Whether the text is a JSON object, and what its
/// members are, is a function of the text; no object has two members of one name.
#[verifier::external_body]
fn read_object(text: &str) -> (r: Option<Assoc<Member>>)
    ensures
        match r {
            Some(o) => json_object(text@) == Some(o@) && members_differ(o@),
            None => json_object(text@) is None,
        },
{
    let Value::Object(members) = serde_json::from_str(text).ok()? else {
        return None;
    };
    let count = |(name, v): (String, Value)| Named { name, item: v.as_i64() };
    let text = |v: &Value| v.as_str().map(str::to_string);
    let convert = |v| match v {
        Value::Object(m) => {
            Member::Object(Assoc { entries: m.into_iter().map(count).collect() })
        },
        Value::Array(a) => Member::Array(a.iter().map(text).collect()),
        _ => Member::Other,
    };
    let member = |(name, v)| Named { name, item: convert(v) };
    Some(Assoc { entries: members.into_iter().map(member).collect() })
}

// ---------------------------------------------------------------------------
// Counts
// ---------------------------------------------------------------------------

/// The counts that are integers.
pub open spec fn integers(s: Seq<(Seq<char>, Option<i64>)>) -> Seq<(Seq<char>, i64)>
    decreases s.len(),
{
    if s.len() == 0 {
        Seq::empty()
    } else {
        let rest = integers(s.drop_last());
        match s.last().1 {
            Some(n) => rest.push((s.last().0, n)),
            None => rest,
        }
    }
}

/// The counts of each column that has any.
pub open spec fn column_counts(s: Seq<(Seq<char>, MemberView)>) -> Seq<
    (Seq<char>, Seq<(Seq<char>, i64)>),
>
    decreases s.len(),
{
    if s.len() == 0 {
        Seq::empty()
    } else {
        let rest = column_counts(s.drop_last());
        match s.last().1 {
            MemberView::Object(m) => if integers(m).len() > 0 {
                rest.push((s.last().0, integers(m)))
            } else {
                rest
            },
            _ => rest,
        }
    }
}

fn keep_integers(m: &Assoc<Option<i64>>) -> (r: Assoc<i64>)
    ensures
        r@ == integers(m@),
{
    let ghost s = m@;
    let mut out: Assoc<i64> = Assoc::new();
    let mut i: usize = 0;
    assert(s.subrange(0, 0) =~= Seq::<(Seq<char>, Option<i64>)>::empty());
    while i < m.entries.len()
        invariant
            i <= m.entries.len(),
            s == m@,
            out@ == integers(s.subrange(0, i as int)),
        decreases m.entries.len() - i,
    {
        assert(s.subrange(0, i + 1).drop_last() =~= s.subrange(0, i as int));
        assert(s.subrange(0, i + 1).last() == m.entries@[i as int]@);
        match m.entries[i].item {
            Some(n) => {
                out.push(m.entries[i].name.as_str().to_owned(), n);
            },
            None => {},
        }
        i += 1;
    }
    assert(s.subrange(0, i as int) =~= s);
    out
}

/// The counts of the values of each column, where some of its counts are
/// integers.
pub fn counts_of(o: &Assoc<Member>) -> (r: Assoc<Assoc<i64>>)
    ensures
        r@ == column_counts(o@),
{
    let ghost s = o@;
    let mut out: Assoc<Assoc<i64>> = Assoc::new();
    let mut i: usize = 0;
    assert(s.subrange(0, 0) =~= Seq::<(Seq<char>, MemberView)>::empty());
    while i < o.entries.len()
        invariant
            i <= o.entries.len(),
            s == o@,
            out@ == column_counts(s.subrange(0, i as int)),
        decreases o.entries.len() - i,
    {
        assert(s.subrange(0, i + 1).drop_last() =~= s.subrange(0, i as int));
        assert(s.subrange(0, i + 1).last() == o.entries@[i as int]@);
        match &o.entries[i].item {
            Member::Object(m) => {
                let counts = keep_integers(m);
                assert(counts@.len() == counts.entries.len());
                if counts.entries.len() > 0 {
                    out.push(o.entries[i].name.as_str().to_owned(), counts);
                }
            },
            _ => {},
        }
        i += 1;
    }
    assert(s.subrange(0, i as int) =~= s);
    out
}

/// What a text of counts by column and value says; nothing where it is no JSON
/// object.
pub open spec fn valcounts(text: Seq<char>) -> Seq<(Seq<char>, Seq<(Seq<char>, i64)>)> {
    match json_object(text) {
        Some(s) => column_counts(s),
        None => Seq::empty(),
    }
}

/// Reads counts by column and value. What is no object and what is no integer is
/// passed over. No column, and no value of a column, comes out twice.
pub fn parse_valcounts_json(text: &str) -> (r: Assoc<Assoc<i64>>)
    ensures
        r@ == valcounts(text@),
        names_differ(r@),
        forall|i: int| 0 <= i < r@.len() ==> names_differ((#[trigger] r@[i]).1),
{
    match read_object(text) {
        Some(o) => {
            proof {
                lemma_column_counts(o@);
            }
            counts_of(&o)
        },
        None => Assoc::new(),
    }
}

proof fn lemma_integers(s: Seq<(Seq<char>, Option<i64>)>)
    requires
        names_differ(s),
    ensures
        names_differ(integers(s)),
        forall|i: int| 0 <= i < integers(s).len() ==> exists|j: int|
            0 <= j < s.len() && (#[trigger] s[j]).0 == (#[trigger] integers(s)[i]).0,
    decreases s.len(),
{
    if s.len() > 0 {
        let h = s.drop_last();
        let rest = integers(h);
        let r = integers(s);
        assert forall|i: int, j: int| 0 <= i < j < h.len() implies (#[trigger] h[i]).0 != (
        #[trigger] h[j]).0 by {
            assert(s[i].0 != s[j].0);
        }
        lemma_integers(h);
        assert forall|i: int| 0 <= i < r.len() implies exists|j: int|
            0 <= j < s.len() && (#[trigger] s[j]).0 == (#[trigger] r[i]).0 by {
            if i < rest.len() {
                let j = choose|j: int| 0 <= j < h.len() && (#[trigger] h[j]).0 == rest[i].0;
                assert(s[j].0 == r[i].0);
            } else {
                assert(s[s.len() - 1].0 == r[i].0);
            }
        }
        assert forall|i: int, j: int| 0 <= i < j < r.len() implies (#[trigger] r[i]).0 != (
        #[trigger] r[j]).0 by {
            if j < rest.len() {
                assert(rest[i].0 != rest[j].0);
            } else {
                assert(rest[i] == r[i]);
                let k = choose|k: int| 0 <= k < h.len() && (#[trigger] h[k]).0 == rest[i].0;
                assert(s[k].0 != s[s.len() - 1].0);
            }
        }
    }
}

proof fn lemma_column_counts(s: Seq<(Seq<char>, MemberView)>)
    requires
        members_differ(s),
    ensures
        names_differ(column_counts(s)),
        forall|i: int| 0 <= i < column_counts(s).len() ==> names_differ(
            (#[trigger] column_counts(s)[i]).1,
        ),
        forall|i: int| 0 <= i < column_counts(s).len() ==> exists|j: int|
            0 <= j < s.len() && (#[trigger] s[j]).0 == (#[trigger] column_counts(s)[i]).0,
    decreases s.len(),
{
    if s.len() > 0 {
        let h = s.drop_last();
        let rest = column_counts(h);
        let r = column_counts(s);
        assert forall|i: int, j: int| 0 <= i < j < h.len() implies (#[trigger] h[i]).0 != (
        #[trigger] h[j]).0 by {
            assert(s[i].0 != s[j].0);
        }
        assert forall|i: int| 0 <= i < h.len() implies match (#[trigger] h[i]).1 {
            MemberView::Object(m) => names_differ(m),
            _ => true,
        } by {
            assert(s[i] == h[i]);
        }
        lemma_column_counts(h);
        let last = s[s.len() - 1];
        match last.1 {
            MemberView::Object(m) => {
                lemma_integers(m);
            },
            _ => {},
        }
        assert forall|i: int| 0 <= i < r.len() implies names_differ((#[trigger] r[i]).1) by {
            if i < rest.len() {
                assert(rest[i] == r[i]);
            }
        }
        assert forall|i: int| 0 <= i < r.len() implies exists|j: int|
            0 <= j < s.len() && (#[trigger] s[j]).0 == (#[trigger] r[i]).0 by {
            if i < rest.len() {
                let j = choose|j: int| 0 <= j < h.len() && (#[trigger] h[j]).0 == rest[i].0;
                assert(s[j].0 == r[i].0);
            } else {
                assert(s[s.len() - 1].0 == r[i].0);
            }
        }
        assert forall|i: int, j: int| 0 <= i < j < r.len() implies (#[trigger] r[i]).0 != (
        #[trigger] r[j]).0 by {
            if j < rest.len() {
                assert(rest[i].0 != rest[j].0);
            } else {
                assert(rest[i] == r[i]);
                let k = choose|k: int| 0 <= k < h.len() && (#[trigger] h[k]).0 == rest[i].0;
                assert(s[k].0 != s[s.len() - 1].0);
            }
        }
    }
}

/// Counts by column with those of more columns added value by value.
pub open spec fn with_counts(
    acc: Seq<(Seq<char>, Seq<(Seq<char>, i64)>)>,
    more: Seq<(Seq<char>, Seq<(Seq<char>, i64)>)>,
) -> Seq<(Seq<char>, Seq<(Seq<char>, i64)>)>
    decreases more.len(),
{
    if more.len() == 0 {
        acc
    } else {
        let rest = with_counts(acc, more.drop_last());
        let (name, counts) = more.last();
        stored(
            rest,
            name,
            all_counted(
                match lookup(rest, name) {
                    Some(held) => held,
                    None => Seq::empty(),
                },
                counts,
            ),
        )
    }
}

fn add_column_counts(acc: &mut Assoc<Assoc<i64>>, name: &str, counts: &Assoc<i64>)
    ensures
        final(acc)@ == stored(
            old(acc)@,
            name@,
            all_counted(
                match lookup(old(acc)@, name@) {
                    Some(held) => held,
                    None => Seq::empty(),
                },
                counts@,
            ),
        ),
{
    let ghost before = acc@;
    match acc.find(name) {
        Some(i) => {
            proof {
                lemma_first_where(before, is_named(name@));
            }
            add_counts(&mut acc.entries[i].item, counts);
            assert(acc@ =~= before.update(
                i as int,
                (name@, all_counted(before[i as int].1, counts@)),
            ));
        },
        None => {
            let mut fresh: Assoc<i64> = Assoc::new();
            add_counts(&mut fresh, counts);
            acc.push(name.to_owned(), fresh);
        },
    }
}

/// Adds the counts of a partition to those of the table.
pub fn add_partition_counts(acc: &mut Assoc<Assoc<i64>>, more: &Assoc<Assoc<i64>>)
    ensures
        final(acc)@ == with_counts(old(acc)@, more@),
{
    let ghost before = acc@;
    let ghost m = more@;
    let mut i: usize = 0;
    assert(m.subrange(0, 0) =~= Seq::<(Seq<char>, Seq<(Seq<char>, i64)>)>::empty());
    while i < more.entries.len()
        invariant
            i <= more.entries.len(),
            m == more@,
            acc@ == with_counts(before, m.subrange(0, i as int)),
        decreases more.entries.len() - i,
    {
        assert(m.subrange(0, i + 1).drop_last() =~= m.subrange(0, i as int));
        assert(m.subrange(0, i + 1).last() == more.entries@[i as int]@);
        add_column_counts(acc, more.entries[i].name.as_str(), &more.entries[i].item);
        i += 1;
    }
    assert(m.subrange(0, i as int) =~= m);
}

/// The counts of a column take in those of that column, and no others.
pub proof fn lemma_counts_of_column(
    acc: Seq<(Seq<char>, Seq<(Seq<char>, i64)>)>,
    more: Seq<(Seq<char>, Seq<(Seq<char>, i64)>)>,
    name: Seq<char>,
)
    requires
        names_differ(more),
    ensures
        lookup(with_counts(acc, more), name) == match (lookup(acc, name), lookup(more, name)) {
            (Some(held), Some(c)) => Some(all_counted(held, c)),
            (None, Some(c)) => Some(all_counted(Seq::empty(), c)),
            (held, None) => held,
        },
    decreases more.len(),
{
    lemma_lookup_last(more, name);
    if more.len() > 0 {
        let front = more.drop_last();
        lemma_front_differs(more);
        lemma_counts_of_column(acc, front, name);
        let rest = with_counts(acc, front);
        let (last, counts) = more.last();
        lemma_stored(
            rest,
            last,
            all_counted(
                match lookup(rest, last) {
                    Some(held) => held,
                    None => Seq::empty(),
                },
                counts,
            ),
        );
    }
}

// ---------------------------------------------------------------------------
// Values
// ---------------------------------------------------------------------------

/// The strings of an array.
pub open spec fn strings(s: Seq<Option<Seq<char>>>) -> Seq<Seq<char>>
    decreases s.len(),
{
    if s.len() == 0 {
        Seq::empty()
    } else {
        let rest = strings(s.drop_last());
        match s.last() {
            Some(t) => rest.push(t),
            None => rest,
        }
    }
}

/// The values of each column that has any.
pub open spec fn column_values(s: Seq<(Seq<char>, MemberView)>) -> Seq<
    (Seq<char>, Seq<Seq<char>>),
>
    decreases s.len(),
{
    if s.len() == 0 {
        Seq::empty()
    } else {
        let rest = column_values(s.drop_last());
        match s.last().1 {
            MemberView::Array(a) => if strings(a).len() > 0 {
                rest.push((s.last().0, strings(a)))
            } else {
                rest
            },
            _ => rest,
        }
    }
}

fn keep_strings(a: &Vec<Option<String>>) -> (r: Values)
    ensures
        r@ == strings(opt_texts(a@)),
{
    let ghost s = opt_texts(a@);
    let mut out: Vec<String> = Vec::new();
    let mut i: usize = 0;
    assert(s.subrange(0, 0) =~= Seq::<Option<Seq<char>>>::empty());
    assert(texts(out@) =~= Seq::<Seq<char>>::empty());
    while i < a.len()
        invariant
            i <= a.len(),
            s == opt_texts(a@),
            texts(out@) == strings(s.subrange(0, i as int)),
        decreases a.len() - i,
    {
        assert(s.subrange(0, i + 1).drop_last() =~= s.subrange(0, i as int));
        match &a[i] {
            Some(t) => {
                let ghost before = texts(out@);
                out.push(t.as_str().to_owned());
                assert(texts(out@) =~= before.push(t@));
            },
            None => {},
        }
        i += 1;
    }
    assert(s.subrange(0, i as int) =~= s);
    Values { items: out }
}

/// The values of each column whose list holds strings.
pub fn values_of(o: &Assoc<Member>) -> (r: Assoc<Values>)
    ensures
        r@ == column_values(o@),
{
    let ghost s = o@;
    let mut out: Assoc<Values> = Assoc::new();
    let mut i: usize = 0;
    assert(s.subrange(0, 0) =~= Seq::<(Seq<char>, MemberView)>::empty());
    while i < o.entries.len()
        invariant
            i <= o.entries.len(),
            s == o@,
            out@ == column_values(s.subrange(0, i as int)),
        decreases o.entries.len() - i,
    {
        assert(s.subrange(0, i + 1).drop_last() =~= s.subrange(0, i as int));
        assert(s.subrange(0, i + 1).last() == o.entries@[i as int]@);
        match &o.entries[i].item {
            Member::Array(a) => {
                let values = keep_strings(a);
                assert(values@.len() == values.items.len());
                if values.items.len() > 0 {
                    out.push(o.entries[i].name.as_str().to_owned(), values);
                }
            },
            _ => {},
        }
        i += 1;
    }
    assert(s.subrange(0, i as int) =~= s);
    out
}

/// What a text of values by column says; nothing where it is no JSON object.
pub open spec fn valmap(text: Seq<char>) -> Seq<(Seq<char>, Seq<Seq<char>>)> {
    match json_object(text) {
        Some(s) => column_values(s),
        None => Seq::empty(),
    }
}

/// Reads the values of each column. What is no array and what is no string is
/// passed over.
pub fn parse_valmap_json(text: &str) -> (r: Assoc<Values>)
    ensures
        r@ == valmap(text@),
{
    match read_object(text) {
        Some(o) => values_of(&o),
        None => Assoc::new(),
    }
}

/// Sets of values by column with the values of more columns added. A column with
/// an empty list gets an empty set.
pub open spec fn with_values(
    acc: Seq<(Seq<char>, Seq<Seq<char>>)>,
    more: Seq<(Seq<char>, MemberView)>,
) -> Seq<(Seq<char>, Seq<Seq<char>>)>
    decreases more.len(),
{
    if more.len() == 0 {
        acc
    } else {
        let rest = with_values(acc, more.drop_last());
        let (name, member) = more.last();
        match member {
            MemberView::Array(a) => stored(
                rest,
                name,
                with_texts(
                    match lookup(rest, name) {
                        Some(held) => held,
                        None => Seq::empty(),
                    },
                    a,
                ),
            ),
            _ => rest,
        }
    }
}

fn add_column_values(acc: &mut Assoc<Values>, name: &str, items: &Vec<Option<String>>)
    ensures
        final(acc)@ == stored(
            old(acc)@,
            name@,
            with_texts(
                match lookup(old(acc)@, name@) {
                    Some(held) => held,
                    None => Seq::empty(),
                },
                opt_texts(items@),
            ),
        ),
{
    let ghost before = acc@;
    match acc.find(name) {
        Some(i) => {
            proof {
                lemma_first_where(before, is_named(name@));
            }
            acc.entries[i].item.insert_all(items);
            assert(acc@ =~= before.update(
                i as int,
                (name@, with_texts(before[i as int].1, opt_texts(items@))),
            ));
        },
        None => {
            let mut fresh = Values::new();
            fresh.insert_all(items);
            acc.push(name.to_owned(), fresh);
        },
    }
}

/// Adds the values of a partition to the table's sets of values.
pub fn union_values(acc: &mut Assoc<Values>, o: &Assoc<Member>)
    ensures
        final(acc)@ == with_values(old(acc)@, o@),
{
    let ghost before = acc@;
    let ghost s = o@;
    let mut i: usize = 0;
    assert(s.subrange(0, 0) =~= Seq::<(Seq<char>, MemberView)>::empty());
    while i < o.entries.len()
        invariant
            i <= o.entries.len(),
            s == o@,
            acc@ == with_values(before, s.subrange(0, i as int)),
        decreases o.entries.len() - i,
    {
        assert(s.subrange(0, i + 1).drop_last() =~= s.subrange(0, i as int));
        assert(s.subrange(0, i + 1).last() == o.entries@[i as int]@);
        match &o.entries[i].item {
            Member::Array(a) => {
                add_column_values(acc, o.entries[i].name.as_str(), a);
            },
            _ => {},
        }
        i += 1;
    }
    assert(s.subrange(0, i as int) =~= s);
}

/// Adds the values of a partition, given as a JSON object from column to array,
/// to the table's sets of values. What does not parse is passed over.
pub fn union_valmap_json(text: &str, acc: &mut Assoc<Values>)
    ensures
        final(acc)@ == match json_object(text@) {
            Some(o) => with_values(old(acc)@, o),
            None => old(acc)@,
        },
{
    match read_object(text) {
        Some(o) => {
            union_values(acc, &o);
        },
        None => {},
    }
}

/// The values that a set by column holds of a column.
pub open spec fn held_values(acc: Seq<(Seq<char>, Seq<Seq<char>>)>, name: Seq<char>) -> Seq<
    Seq<char>,
> {
    match lookup(acc, name) {
        Some(v) => v,
        None => Seq::empty(),
    }
}

/// Whether a member lists a value of a column.
pub open spec fn lists(m: (Seq<char>, MemberView), name: Seq<char>, v: Seq<char>) -> bool {
    m.0 == name && match m.1 {
        MemberView::Array(a) => a.contains(Some(v)),
        _ => false,
    }
}

/// A table's set of values of a column stays in strict order, and holds what it
/// held and what the partition lists of that column.
pub proof fn lemma_values_of_column(
    acc: Seq<(Seq<char>, Seq<Seq<char>>)>,
    more: Seq<(Seq<char>, MemberView)>,
    name: Seq<char>,
)
    requires
        texts_ascend(held_values(acc, name)),
    ensures
        texts_ascend(held_values(with_values(acc, more), name)),
        forall|v: Seq<char>| #[trigger]
            held_values(with_values(acc, more), name).contains(v) <==> held_values(
                acc,
                name,
            ).contains(v) || exists|i: int|
                0 <= i < more.len() && lists(#[trigger] more[i], name, v),
    decreases more.len(),
{
    let held = held_values(acc, name);
    let all = held_values(with_values(acc, more), name);
    if more.len() > 0 {
        let front = more.drop_last();
        let last = more.last();
        lemma_values_of_column(acc, front, name);
        let rest = with_values(acc, front);
        let before = held_values(rest, name);
        match last.1 {
            MemberView::Array(a) => {
                let fresh = with_texts(held_values(rest, last.0), a);
                lemma_stored(rest, last.0, fresh);
                if last.0 == name {
                    lemma_with_texts(before, a);
                }
            },
            _ => {},
        }
        assert forall|v: Seq<char>| #[trigger] all.contains(v) <==> held.contains(v) || exists|
            i: int,
        |
            0 <= i < more.len() && lists(#[trigger] more[i], name, v) by {
            assert(before.contains(v) <==> held.contains(v) || exists|i: int|
                0 <= i < front.len() && lists(#[trigger] front[i], name, v));
            assert(all.contains(v) <==> before.contains(v) || lists(last, name, v));
            if exists|i: int| 0 <= i < front.len() && lists(#[trigger] front[i], name, v) {
                let i = choose|i: int| 0 <= i < front.len() && lists(#[trigger] front[i], name, v);
                assert(lists(more[i], name, v));
            }
            if lists(last, name, v) {
                assert(lists(more[more.len() - 1], name, v));
            }
            if exists|i: int| 0 <= i < more.len() && lists(#[trigger] more[i], name, v) {
                let i = choose|i: int| 0 <= i < more.len() && lists(#[trigger] more[i], name, v);
                if i < front.len() {
                    assert(lists(front[i], name, v));
                }
            }
        }
    }
}

} // verus!
