//! Values of low-cardinality columns and how often they occur.

use vstd::prelude::*;
use vstd::string::*;
use vstd::utf8::{encode_utf8, encode_utf8_decode_utf8};
use crate::search::lemma_first_where;
use crate::sorting::{is_order, is_ordered, lemma_ordered, lemma_placed_at, ordered, placed};
use crate::stats::assoc::{
    is_named, lemma_front_differs, lemma_lookup_last, lemma_stored, lookup, names_differ, stored,
    Assoc, Named,
};
use crate::text::{holds_text, texts};

verus! {

// ---------------------------------------------------------------------------
// The order of texts
// ---------------------------------------------------------------------------

/// Whether `a` comes before `b` in a dictionary, or is `b`.
pub open spec fn bytes_le(a: Seq<u8>, b: Seq<u8>) -> bool
    decreases a.len(),
{
    if a.len() == 0 {
        true
    } else if b.len() == 0 {
        false
    } else if a[0] != b[0] {
        a[0] < b[0]
    } else {
        bytes_le(a.drop_first(), b.drop_first())
    }
}

/// The order of texts by their bytes.
pub open spec fn text_le(a: Seq<char>, b: Seq<char>) -> bool {
    bytes_le(encode_utf8(a), encode_utf8(b))
}

pub open spec fn text_order() -> spec_fn(Seq<char>, Seq<char>) -> bool {
    |a: Seq<char>, b: Seq<char>| text_le(a, b)
}

proof fn lemma_bytes_total(a: Seq<u8>, b: Seq<u8>)
    ensures
        bytes_le(a, b) || bytes_le(b, a),
        bytes_le(a, b) && bytes_le(b, a) ==> a == b,
    decreases a.len(),
{
    if a.len() > 0 && b.len() > 0 {
        lemma_bytes_total(a.drop_first(), b.drop_first());
        if a[0] == b[0] && a.drop_first() == b.drop_first() {
            assert(a =~= seq![a[0]] + a.drop_first());
            assert(b =~= seq![b[0]] + b.drop_first());
        }
    } else if a.len() == 0 && b.len() == 0 {
        assert(a =~= b);
    }
}

proof fn lemma_bytes_transitive(a: Seq<u8>, b: Seq<u8>, c: Seq<u8>)
    requires
        bytes_le(a, b),
        bytes_le(b, c),
    ensures
        bytes_le(a, c),
    decreases a.len(),
{
    if a.len() > 0 && b.len() > 0 && c.len() > 0 && a[0] == b[0] && b[0] == c[0] {
        lemma_bytes_transitive(a.drop_first(), b.drop_first(), c.drop_first());
    }
}

/// Texts are totally ordered.
pub proof fn lemma_text_order()
    ensures
        is_order(text_order()),
        forall|a: Seq<char>, b: Seq<char>| #[trigger] text_le(a, b) && text_le(b, a) ==> a == b,
{
    let leq = text_order();
    assert forall|a: Seq<char>, b: Seq<char>| #[trigger] leq(a, b) || leq(b, a) by {
        lemma_bytes_total(encode_utf8(a), encode_utf8(b));
    }
    assert forall|a: Seq<char>, b: Seq<char>, c: Seq<char>| #[trigger]
        leq(a, b) && #[trigger] leq(b, c) implies leq(a, c) by {
        lemma_bytes_transitive(encode_utf8(a), encode_utf8(b), encode_utf8(c));
    }
    assert forall|a: Seq<char>, b: Seq<char>| #[trigger]
        text_le(a, b) && text_le(b, a) implies a == b by {
        lemma_bytes_total(encode_utf8(a), encode_utf8(b));
        encode_utf8_decode_utf8(a);
        encode_utf8_decode_utf8(b);
    }
}

fn text_not_after(a: &str, b: &str) -> (r: bool)
    ensures
        r == text_le(a@, b@),
{
    let x = a.as_bytes();
    let y = b.as_bytes();
    let n: usize = x.len();
    let m: usize = y.len();
    let mut i: usize = 0;
    assert(x@.subrange(0, n as int) =~= x@);
    assert(y@.subrange(0, m as int) =~= y@);
    while i < n && i < m && x[i] == y[i]
        invariant
            i <= n == x@.len(),
            i <= m == y@.len(),
            bytes_le(x@, y@) == bytes_le(
                x@.subrange(i as int, n as int),
                y@.subrange(i as int, m as int),
            ),
        decreases n - i,
    {
        assert(x@.subrange(i as int, n as int).drop_first() =~= x@.subrange(i + 1, n as int));
        assert(y@.subrange(i as int, m as int).drop_first() =~= y@.subrange(i + 1, m as int));
        i += 1;
    }
    if i >= n {
        true
    } else if i >= m {
        false
    } else {
        x[i] < y[i]
    }
}

// ---------------------------------------------------------------------------
// Sets of values
// ---------------------------------------------------------------------------

/// A list of values. `insert` keeps it in order and free of repeats.
pub struct Values {
    pub items: Vec<String>,
}

impl View for Values {
    type V = Seq<Seq<char>>;

    open spec fn view(&self) -> Seq<Seq<char>> {
        texts(self.items@)
    }
}

/// `s` with a text at its place, unless it is there.
pub open spec fn with_text(s: Seq<Seq<char>>, t: Seq<char>) -> Seq<Seq<char>> {
    if s.contains(t) {
        s
    } else {
        placed(s, t, text_order())
    }
}

/// `s` with the texts among `items` at their places.
pub open spec fn with_texts(
    s: Seq<Seq<char>>,
    items: Seq<Option<Seq<char>>>,
) -> Seq<Seq<char>>
    decreases items.len(),
{
    if items.len() == 0 {
        s
    } else {
        let rest = with_texts(s, items.drop_last());
        match items.last() {
            Some(t) => with_text(rest, t),
            None => rest,
        }
    }
}

pub open spec fn opt_texts(v: Seq<Option<String>>) -> Seq<Option<Seq<char>>> {
    Seq::new(
        v.len(),
        |i: int|
            match v[i] {
                Some(t) => Some(t@),
                None => None,
            },
    )
}

impl Values {
    pub fn new() -> (r: Values)
        ensures
            r@ == Seq::<Seq<char>>::empty(),
    {
        let r = Values { items: Vec::new() };
        assert(r@ =~= Seq::<Seq<char>>::empty());
        r
    }

    /// Adds a text, unless it is there.
    pub fn insert(&mut self, t: &str)
        ensures
            final(self)@ == with_text(old(self)@, t@),
    {
        let ghost all = self@;
        if holds_text(&self.items, t) {
            return;
        }
        let mut k: usize = self.items.len();
        while k > 0 && !text_not_after(self.items[k - 1].as_str(), t)
            invariant
                k <= self.items.len(),
                self@ == all,
                self.items.len() == all.len(),
                forall|i: int| k <= i < all.len() ==> !#[trigger] text_order()(all[i], t@),
            decreases k,
        {
            assert(all[k - 1] == self.items@[k - 1]@);
            k -= 1;
        }
        proof {
            if k > 0 {
                assert(all[k - 1] == self.items@[k - 1]@);
            }
            lemma_placed_at(all, t@, text_order(), k as int);
        }
        self.items.insert(k, t.to_owned());
        assert(self@ =~= all.insert(k as int, t@));
    }

    /// Adds the texts among `items`.
    pub fn insert_all(&mut self, items: &Vec<Option<String>>)
        ensures
            final(self)@ == with_texts(old(self)@, opt_texts(items@)),
    {
        let ghost all = self@;
        let ghost s = opt_texts(items@);
        let mut i: usize = 0;
        assert(s.subrange(0, 0) =~= Seq::<Option<Seq<char>>>::empty());
        while i < items.len()
            invariant
                i <= items.len(),
                s == opt_texts(items@),
                self@ == with_texts(all, s.subrange(0, i as int)),
            decreases items.len() - i,
        {
            assert(s.subrange(0, i + 1).drop_last() =~= s.subrange(0, i as int));
            match &items[i] {
                Some(t) => {
                    self.insert(t.as_str());
                },
                None => {},
            }
            i += 1;
        }
        assert(s.subrange(0, i as int) =~= s);
    }
}

/// Whether texts are in strict order.
pub open spec fn texts_ascend(s: Seq<Seq<char>>) -> bool {
    is_ordered(s, text_order()) && s.no_duplicates()
}

/// Adding a text to a set of values adds just that text.
pub proof fn lemma_with_text(s: Seq<Seq<char>>, t: Seq<char>)
    requires
        texts_ascend(s),
    ensures
        texts_ascend(with_text(s, t)),
        forall|x: Seq<char>| #[trigger] with_text(s, t).contains(x) <==> s.contains(x) || x == t,
{
    broadcast use vstd::seq_lib::group_to_multiset_ensures;

    if !s.contains(t) {
        let p = placed(s, t, text_order());
        lemma_text_order();
        lemma_ordered_is_itself(s, text_order());
        lemma_ordered(s.push(t), text_order());
        assert(s.push(t).drop_last() =~= s);
        assert(p == ordered(s.push(t), text_order()));
        assert(p.to_multiset() == s.push(t).to_multiset());
        assert(s.push(t).no_duplicates()) by {
            assert forall|i: int, j: int|
                0 <= i < s.push(t).len() && 0 <= j < s.push(t).len() && i
                    != j implies s.push(t)[i] != s.push(t)[j] by {
                if i < s.len() {
                    assert(s.contains(s[i]));
                }
                if j < s.len() {
                    assert(s.contains(s[j]));
                }
            }
        }
        s.push(t).lemma_multiset_has_no_duplicates();
        p.lemma_multiset_has_no_duplicates_conv();
        assert forall|x: Seq<char>| #[trigger] p.contains(x) <==> s.contains(x) || x == t by {
            assert(p.contains(x) <==> p.to_multiset().count(x) > 0);
            assert(s.push(t).contains(x) <==> s.push(t).to_multiset().count(x) > 0);
            if x == t {
                assert(s.push(t)[s.len() as int] == t);
            }
            if s.contains(x) {
                let i = choose|i: int| 0 <= i < s.len() && s[i] == x;
                assert(s.push(t)[i] == x);
            }
            if s.push(t).contains(x) && x != t {
                let i = choose|i: int| 0 <= i < s.push(t).len() && s.push(t)[i] == x;
                assert(s[i] == x);
            }
        }
    }
}

/// What is in order stays as it is.
proof fn lemma_ordered_is_itself<A>(s: Seq<A>, leq: spec_fn(A, A) -> bool)
    requires
        is_ordered(s, leq),
    ensures
        ordered(s, leq) == s,
    decreases s.len(),
{
    if s.len() > 0 {
        let t = s.drop_last();
        assert forall|i: int, j: int| 0 <= i <= j < t.len() implies #[trigger] leq(t[i], t[j]) by {
            assert(leq(s[i], s[j]));
        }
        lemma_ordered_is_itself(t, leq);
        if t.len() > 0 {
            assert(leq(s[s.len() - 2], s[s.len() - 1]));
        }
        assert(t.push(s.last()) =~= s);
    }
}

/// A set of values stays in strict order, and holds what it held and the texts
/// that were added.
pub proof fn lemma_with_texts(s: Seq<Seq<char>>, items: Seq<Option<Seq<char>>>)
    requires
        texts_ascend(s),
    ensures
        texts_ascend(with_texts(s, items)),
        forall|x: Seq<char>| #[trigger]
            with_texts(s, items).contains(x) <==> s.contains(x) || items.contains(Some(x)),
    decreases items.len(),
{
    if items.len() > 0 {
        let front = items.drop_last();
        let rest = with_texts(s, front);
        lemma_with_texts(s, front);
        match items.last() {
            Some(t) => {
                lemma_with_text(rest, t);
            },
            None => {},
        }
        assert forall|x: Seq<char>| #[trigger]
            with_texts(s, items).contains(x) <==> s.contains(x) || items.contains(Some(x)) by {
            assert(rest.contains(x) <==> s.contains(x) || front.contains(Some(x)));
            if front.contains(Some(x)) {
                let i = choose|i: int| 0 <= i < front.len() && front[i] == Some(x);
                assert(items[i] == Some(x));
            }
            if items.contains(Some(x)) {
                let i = choose|i: int| 0 <= i < items.len() && items[i] == Some(x);
                if i < front.len() {
                    assert(front[i] == Some(x));
                }
            }
            if items.last() == Some(x) {
                assert(items[items.len() - 1] == Some(x));
            }
        }
    } else {
        assert forall|x: Seq<char>| #[trigger]
            with_texts(s, items).contains(x) <==> s.contains(x) || items.contains(Some(x)) by {}
    }
}

// ---------------------------------------------------------------------------
// Counts of values
// ---------------------------------------------------------------------------

/// Counts with one more, in 64 bits.
pub open spec fn counted(s: Seq<(Seq<char>, i64)>, v: Seq<char>, c: i64) -> Seq<(Seq<char>, i64)> {
    stored(
        s,
        v,
        match lookup(s, v) {
            Some(n) => n.wrapping_add(c),
            None => c,
        },
    )
}

/// Counts with others added value by value.
pub open spec fn all_counted(
    s: Seq<(Seq<char>, i64)>,
    more: Seq<(Seq<char>, i64)>,
) -> Seq<(Seq<char>, i64)>
    decreases more.len(),
{
    if more.len() == 0 {
        s
    } else {
        let (v, c) = more.last();
        counted(all_counted(s, more.drop_last()), v, c)
    }
}

fn add_count(s: &mut Assoc<i64>, v: &str, c: i64)
    ensures
        final(s)@ == counted(old(s)@, v@, c),
{
    let ghost before = s@;
    match s.find(v) {
        Some(i) => {
            proof {
                lemma_first_where(before, is_named(v@));
            }
            let sum: i64 = s.entries[i].item.wrapping_add(c);
            s.entries[i].item = sum;
            assert(s@ =~= before.update(i as int, (v@, sum)));
        },
        None => {
            s.push(v.to_owned(), c);
        },
    }
}

/// Adds counts value by value.
pub fn add_counts(s: &mut Assoc<i64>, more: &Assoc<i64>)
    ensures
        final(s)@ == all_counted(old(s)@, more@),
{
    let ghost before = s@;
    let ghost m = more@;
    let mut i: usize = 0;
    assert(m.subrange(0, 0) =~= Seq::<(Seq<char>, i64)>::empty());
    while i < more.entries.len()
        invariant
            i <= more.entries.len(),
            m == more@,
            s@ == all_counted(before, m.subrange(0, i as int)),
        decreases more.entries.len() - i,
    {
        assert(m.subrange(0, i + 1).drop_last() =~= m.subrange(0, i as int));
        assert(m.subrange(0, i + 1).last() == more.entries@[i as int]@);
        add_count(s, more.entries[i].name.as_str(), more.entries[i].item);
        i += 1;
    }
    assert(m.subrange(0, i as int) =~= m);
}

/// Adding counts adds them: of a value that both hold the sum is held, within 64
/// bits.
pub proof fn lemma_counts_add(s: Seq<(Seq<char>, i64)>, more: Seq<(Seq<char>, i64)>, v: Seq<char>)
    requires
        names_differ(more),
    ensures
        lookup(all_counted(s, more), v) == match (lookup(s, v), lookup(more, v)) {
            (Some(a), Some(b)) => Some(a.wrapping_add(b)),
            (Some(a), None) => Some(a),
            (None, Some(b)) => Some(b),
            (None, None) => None,
        },
    decreases more.len(),
{
    lemma_lookup_last(more, v);
    if more.len() > 0 {
        let front = more.drop_last();
        lemma_front_differs(more);
        lemma_counts_add(s, front, v);
        let (w, c) = more.last();
        let rest = all_counted(s, front);
        lemma_stored(
            rest,
            w,
            match lookup(rest, w) {
                Some(n) => n.wrapping_add(c),
                None => c,
            },
        );
    }
}

// ---------------------------------------------------------------------------
// Most common values
// ---------------------------------------------------------------------------

/// How often a value occurs.
#[derive(Clone, Copy, Debug, PartialEq, Eq, Structural)]
pub enum Frequency {
    /// As often as each of `of` values.
    Even { of: usize },
    /// In `count` of `rows` rows.
    Share { count: i64, rows: i64 },
}

/// The frequency of each value: its share of all rows, or an even one where no
/// counts are known.
pub open spec fn frequencies(
    values: Seq<Seq<char>>,
    counts: Seq<(Seq<char>, i64)>,
    rows: i64,
) -> Seq<Frequency> {
    Seq::new(
        values.len(),
        |i: int|
            if counts.len() == 0 || rows <= 0 {
                Frequency::Even { of: values.len() as usize }
            } else {
                Frequency::Share {
                    count: match lookup(counts, values[i]) {
                        Some(c) => if c >= 0 {
                            c
                        } else {
                            0
                        },
                        None => 0,
                    },
                    rows,
                }
            },
    )
}

/// The frequencies of the most common values of a column.
pub fn mcv_freqs(values: &[String], counts: &Assoc<i64>, row_count: i64) -> (r: Vec<Frequency>)
    ensures
        r@ == frequencies(texts(values@), counts@, row_count),
{
    let ghost spec = frequencies(texts(values@), counts@, row_count);
    let mut out: Vec<Frequency> = Vec::new();
    let mut i: usize = 0;
    while i < values.len()
        invariant
            i <= values.len(),
            spec == frequencies(texts(values@), counts@, row_count),
            out@ =~= spec.subrange(0, i as int),
        decreases values.len() - i,
    {
        let f: Frequency = if counts.entries.len() == 0 || row_count <= 0 {
            Frequency::Even { of: values.len() }
        } else {
            let count: i64 = match counts.get(values[i].as_str()) {
                Some(c) => if *c >= 0 {
                    *c
                } else {
                    0
                },
                None => 0,
            };
            Frequency::Share { count, rows: row_count }
        };
        assert(spec[i as int] == f);
        out.push(f);
        i += 1;
    }
    out
}

/// More frequent values first; equally frequent ones in the order of texts.
pub open spec fn mcv_order() -> spec_fn((Seq<char>, i64), (Seq<char>, i64)) -> bool {
    |a: (Seq<char>, i64), b: (Seq<char>, i64)| a.1 > b.1 || (a.1 == b.1 && text_le(a.0, b.0))
}

/// The `cap` most frequent values with their counts.
pub open spec fn most_common(s: Seq<(Seq<char>, i64)>, cap: nat) -> Seq<(Seq<char>, i64)> {
    let all = ordered(s, mcv_order());
    if all.len() <= cap {
        all
    } else {
        all.subrange(0, cap as int)
    }
}

pub open spec fn firsts<V>(s: Seq<(Seq<char>, V)>) -> Seq<Seq<char>> {
    Seq::new(s.len(), |i: int| s[i].0)
}

fn place_count(s: &mut Assoc<i64>, v: &str, c: i64)
    ensures
        final(s)@ == placed(old(s)@, (v@, c), mcv_order()),
{
    let ghost all = s@;
    let mut k: usize = s.entries.len();
    while k > 0 && !(s.entries[k - 1].item > c || (s.entries[k - 1].item == c && text_not_after(
        s.entries[k - 1].name.as_str(),
        v,
    )))
        invariant
            k <= s.entries.len(),
            s@ == all,
            s.entries.len() == all.len(),
            forall|i: int| k <= i < all.len() ==> !#[trigger] mcv_order()(all[i], (v@, c)),
        decreases k,
    {
        assert(all[k - 1] == s.entries@[k - 1]@);
        k -= 1;
    }
    proof {
        if k > 0 {
            assert(all[k - 1] == s.entries@[k - 1]@);
        }
        lemma_placed_at(all, (v@, c), mcv_order(), k as int);
    }
    s.entries.insert(k, Named { name: v.to_owned(), item: c });
    assert(s@ =~= all.insert(k as int, (v@, c)));
}

/// The most frequent values of a column, the most frequent first, and their
/// frequencies.
pub fn ordered_mcv(counts: &Assoc<i64>, row_count: i64, cap: usize) -> (r: (
    Vec<String>,
    Vec<Frequency>,
))
    ensures
        texts(r.0@) == firsts(most_common(counts@, cap as nat)),
        r.1@ == frequencies(
            firsts(most_common(counts@, cap as nat)),
            most_common(counts@, cap as nat),
            row_count,
        ),
{
    let ghost c = counts@;
    let mut sorted: Assoc<i64> = Assoc::new();
    let mut i: usize = 0;
    assert(c.subrange(0, 0) =~= Seq::<(Seq<char>, i64)>::empty());
    while i < counts.entries.len()
        invariant
            i <= counts.entries.len(),
            c == counts@,
            sorted@ == ordered(c.subrange(0, i as int), mcv_order()),
        decreases counts.entries.len() - i,
    {
        assert(c.subrange(0, i + 1).drop_last() =~= c.subrange(0, i as int));
        assert(c.subrange(0, i + 1).last() == counts.entries@[i as int]@);
        place_count(&mut sorted, counts.entries[i].name.as_str(), counts.entries[i].item);
        i += 1;
    }
    assert(c.subrange(0, i as int) =~= c);
    let ghost all = sorted@;
    sorted.entries.truncate(cap);
    assert(sorted@ =~= most_common(c, cap as nat));
    let mut values: Vec<String> = Vec::new();
    let mut j: usize = 0;
    while j < sorted.entries.len()
        invariant
            j <= sorted.entries.len(),
            texts(values@) =~= firsts(sorted@).subrange(0, j as int),
        decreases sorted.entries.len() - j,
    {
        let ghost before = texts(values@);
        values.push(sorted.entries[j].name.as_str().to_owned());
        assert(texts(values@) =~= before.push(sorted@[j as int].0));
        j += 1;
    }
    assert(texts(values@) =~= firsts(sorted@));
    let freqs = mcv_freqs(&values, &sorted, row_count);
    (values, freqs)
}

proof fn lemma_mcv_order()
    ensures
        is_order(mcv_order()),
{
    let leq = mcv_order();
    let by_text = text_order();
    lemma_text_order();
    assert forall|a: (Seq<char>, i64), b: (Seq<char>, i64)| #[trigger]
        leq(a, b) || leq(b, a) by {
        assert(by_text(a.0, b.0) || by_text(b.0, a.0));
    }
    assert forall|a: (Seq<char>, i64), b: (Seq<char>, i64), c: (Seq<char>, i64)| #[trigger]
        leq(a, b) && #[trigger] leq(b, c) implies leq(a, c) by {
        if a.1 == b.1 && b.1 == c.1 {
            assert(by_text(a.0, b.0) && by_text(b.0, c.0));
            assert(by_text(a.0, c.0));
        }
    }
}

/// The most common values come in order of falling counts, and no value that is
/// left out occurs more often than one that is kept.
pub proof fn lemma_most_common(s: Seq<(Seq<char>, i64)>, cap: nat)
    ensures
        ({
            let m = most_common(s, cap);
            let all = ordered(s, mcv_order());
            &&& all.to_multiset() == s.to_multiset()
            &&& m.len() == if s.len() <= cap {
                s.len()
            } else {
                cap
            }
            &&& forall|i: int, j: int|
                0 <= i <= j < m.len() ==> (#[trigger] m[i]).1 >= (#[trigger] m[j]).1
            &&& forall|i: int, j: int|
                0 <= i < m.len() <= j < all.len() ==> (#[trigger] m[i]).1 >= (#[trigger] all[j]).1
        }),
{
    let m = most_common(s, cap);
    let all = ordered(s, mcv_order());
    lemma_mcv_order();
    lemma_ordered(s, mcv_order());
    assert forall|i: int, j: int| 0 <= i <= j < m.len() implies (#[trigger] m[i]).1 >= (#[trigger] m[j]).1 by {
        assert(mcv_order()(all[i], all[j]));
    }
    assert forall|i: int, j: int| 0 <= i < m.len() <= j < all.len() implies (#[trigger] m[i]).1
        >= (#[trigger] all[j]).1 by {
        assert(mcv_order()(all[i], all[j]));
    }
}

} // verus!
