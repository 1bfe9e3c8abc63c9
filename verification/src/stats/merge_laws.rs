//! What the partitions of a table add up to, said in terms of the partitions.

use vstd::prelude::*;
use crate::search::lemma_first_where;
use crate::stats::assoc::{is_named, lemma_stored, lookup};
use crate::stats::bounds::Range;
use crate::stats::json::{
    column_counts, held_values, integers, json_object, lemma_values_of_column, lists, valcounts,
    with_counts, MemberView,
};
use crate::stats::sketch::{json_sketches, merged_state, with_sketches};
use crate::stats::table::{appended, counts_with, totals, PartitionRow};
use crate::stats::values::{all_counted, texts_ascend};

verus! {

/// Whether two integers are the same in 64 bits.
pub open spec fn same_in_64_bits(a: int, b: int) -> bool {
    exists|k: int| #[trigger] (k * 0x1_0000_0000_0000_0000) == a - b
}

proof fn lemma_same(a: int, b: int, k: int)
    requires
        a - b == k * 0x1_0000_0000_0000_0000,
    ensures
        same_in_64_bits(a, b),
{
    assert(k * 0x1_0000_0000_0000_0000 == a - b);
}

proof fn lemma_same_sum(a: int, b: int, c: int, d: int)
    requires
        same_in_64_bits(a, b),
        same_in_64_bits(c, d),
    ensures
        same_in_64_bits(a + c, b + d),
{
    let j = choose|k: int| #[trigger] (k * 0x1_0000_0000_0000_0000) == a - b;
    let k = choose|k: int| #[trigger] (k * 0x1_0000_0000_0000_0000) == c - d;
    lemma_same(a + c, b + d, j + k);
}

proof fn lemma_same_chain(a: int, b: int, c: int)
    requires
        same_in_64_bits(a, b),
        same_in_64_bits(b, c),
    ensures
        same_in_64_bits(a, c),
{
    let j = choose|k: int| #[trigger] (k * 0x1_0000_0000_0000_0000) == a - b;
    let k = choose|k: int| #[trigger] (k * 0x1_0000_0000_0000_0000) == b - c;
    lemma_same(a, c, j + k);
}

proof fn lemma_same_itself(a: int)
    ensures
        same_in_64_bits(a, a),
{
    lemma_same(a, a, 0);
}

proof fn lemma_wrapping(a: i64, b: i64)
    ensures
        same_in_64_bits(a.wrapping_add(b) as int, a + b),
{
    if a + b > i64::MAX {
        lemma_same(a.wrapping_add(b) as int, a + b, -1);
    } else if a + b < i64::MIN {
        lemma_same(a.wrapping_add(b) as int, a + b, 1);
    } else {
        lemma_same(a.wrapping_add(b) as int, a + b, 0);
    }
}

/// Two 64-bit integers that are the same in 64 bits are the same.
pub proof fn lemma_same_is_equal(a: i64, b: i64)
    requires
        same_in_64_bits(a as int, b as int),
    ensures
        a == b,
{
    let k = choose|k: int| #[trigger] (k * 0x1_0000_0000_0000_0000) == a - b;
}

/// What is held under a name, 0 where nothing is.
pub open spec fn held(s: Seq<(Seq<char>, i64)>, v: Seq<char>) -> int {
    match lookup(s, v) {
        Some(n) => n as int,
        None => 0,
    }
}

/// The sum of all that goes by a name.
pub open spec fn named_sum(s: Seq<(Seq<char>, i64)>, v: Seq<char>) -> int
    decreases s.len(),
{
    if s.len() == 0 {
        0
    } else {
        named_sum(s.drop_last(), v) + if s.last().0 == v {
            s.last().1 as int
        } else {
            0
        }
    }
}

/// Whether anything goes by a name.
pub open spec fn is_there<V>(s: Seq<(Seq<char>, V)>, v: Seq<char>) -> bool {
    exists|i: int| 0 <= i < s.len() && (#[trigger] s[i]).0 == v
}

proof fn lemma_there_last<V>(s: Seq<(Seq<char>, V)>, v: Seq<char>)
    requires
        s.len() > 0,
    ensures
        is_there(s, v) <==> is_there(s.drop_last(), v) || s.last().0 == v,
{
    let front = s.drop_last();
    if is_there(front, v) {
        let i = choose|i: int| 0 <= i < front.len() && (#[trigger] front[i]).0 == v;
        assert(s[i].0 == v);
    }
    if s.last().0 == v {
        assert(s[s.len() - 1].0 == v);
    }
    if is_there(s, v) {
        let i = choose|i: int| 0 <= i < s.len() && (#[trigger] s[i]).0 == v;
        if i < front.len() {
            assert(front[i].0 == v);
        }
    }
}

/// What is found by name is there, and it is the first of that name.
pub proof fn lemma_found_by_name<V>(s: Seq<(Seq<char>, V)>, v: Seq<char>)
    ensures
        lookup(s, v) is Some <==> is_there(s, v),
        lookup(s, v) matches Some(x) ==> exists|i: int|
            0 <= i < s.len() && (#[trigger] s[i]) == (v, x) && forall|j: int|
                0 <= j < i ==> (#[trigger] s[j]).0 != v,
{
    let p = is_named::<V>(v);
    lemma_first_where(s, p);
    match crate::search::first_where(s, p) {
        Some(i) => {
            assert(s[i].0 == v);
            assert(s[i] == (v, s[i].1));
            assert forall|j: int| 0 <= j < i implies (#[trigger] s[j]).0 != v by {
                assert(!p(s[j]));
            }
        },
        None => {
            if is_there(s, v) {
                let i = choose|i: int| 0 <= i < s.len() && (#[trigger] s[i]).0 == v;
                assert(!p(s[i]));
            }
        },
    }
}

/// Adding counts adds each to what is held of its value.
proof fn lemma_all_counted(s: Seq<(Seq<char>, i64)>, more: Seq<(Seq<char>, i64)>, v: Seq<char>)
    ensures
        same_in_64_bits(held(all_counted(s, more), v), held(s, v) + named_sum(more, v)),
        lookup(all_counted(s, more), v) is Some <==> lookup(s, v) is Some || is_there(more, v),
    decreases more.len(),
{
    if more.len() == 0 {
        lemma_same_itself(held(s, v));
    } else {
        let front = more.drop_last();
        let rest = all_counted(s, front);
        let (w, c) = more.last();
        let sum: i64 = match lookup(rest, w) {
            Some(n) => n.wrapping_add(c),
            None => c,
        };
        lemma_all_counted(s, front, v);
        lemma_there_last(more, v);
        lemma_stored(rest, w, sum);
        if w == v {
            match lookup(rest, w) {
                Some(n) => lemma_wrapping(n, c),
                None => lemma_same_itself(c as int),
            }
            lemma_same_itself(c as int);
            lemma_same_sum(held(rest, v), held(s, v) + named_sum(front, v), c as int, c as int);
            lemma_same_chain(
                held(all_counted(s, more), v),
                held(rest, v) + c,
                held(s, v) + named_sum(more, v),
            );
        }
    }
}

/// How often a value of a column is said to occur.
pub open spec fn held_count(
    acc: Seq<(Seq<char>, Seq<(Seq<char>, i64)>)>,
    col: Seq<char>,
    v: Seq<char>,
) -> int {
    match lookup(acc, col) {
        Some(m) => held(m, v),
        None => 0,
    }
}

/// Whether it is said how often a value of a column occurs.
pub open spec fn holds_count(
    acc: Seq<(Seq<char>, Seq<(Seq<char>, i64)>)>,
    col: Seq<char>,
    v: Seq<char>,
) -> bool {
    lookup(acc, col) matches Some(m) && lookup(m, v) is Some
}

spec fn listed_sum(
    more: Seq<(Seq<char>, Seq<(Seq<char>, i64)>)>,
    col: Seq<char>,
    v: Seq<char>,
) -> int
    decreases more.len(),
{
    if more.len() == 0 {
        0
    } else {
        listed_sum(more.drop_last(), col, v) + if more.last().0 == col {
            named_sum(more.last().1, v)
        } else {
            0
        }
    }
}

spec fn is_listed(
    more: Seq<(Seq<char>, Seq<(Seq<char>, i64)>)>,
    col: Seq<char>,
    v: Seq<char>,
) -> bool
    decreases more.len(),
{
    more.len() > 0 && (is_listed(more.drop_last(), col, v) || (more.last().0 == col && is_there(
        more.last().1,
        v,
    )))
}

proof fn lemma_with_counts(
    acc: Seq<(Seq<char>, Seq<(Seq<char>, i64)>)>,
    more: Seq<(Seq<char>, Seq<(Seq<char>, i64)>)>,
    col: Seq<char>,
    v: Seq<char>,
)
    ensures
        same_in_64_bits(
            held_count(with_counts(acc, more), col, v),
            held_count(acc, col, v) + listed_sum(more, col, v),
        ),
        holds_count(with_counts(acc, more), col, v) <==> holds_count(acc, col, v) || is_listed(
            more,
            col,
            v,
        ),
    decreases more.len(),
{
    if more.len() == 0 {
        lemma_same_itself(held_count(acc, col, v));
    } else {
        let front = more.drop_last();
        let rest = with_counts(acc, front);
        let (name, counts) = more.last();
        let before = match lookup(rest, name) {
            Some(m) => m,
            None => Seq::empty(),
        };
        lemma_with_counts(acc, front, col, v);
        lemma_stored(rest, name, all_counted(before, counts));
        if name == col {
            lemma_all_counted(before, counts, v);
            lemma_found_by_name(Seq::<(Seq<char>, i64)>::empty(), v);
            lemma_same_itself(named_sum(counts, v));
            lemma_same_sum(
                held_count(rest, col, v),
                held_count(acc, col, v) + listed_sum(front, col, v),
                named_sum(counts, v),
                named_sum(counts, v),
            );
            lemma_same_chain(
                held_count(with_counts(acc, more), col, v),
                held_count(rest, col, v) + named_sum(counts, v),
                held_count(acc, col, v) + listed_sum(more, col, v),
            );
        }
    }
}

/// The integers that an object gives under a name, added up.
pub open spec fn integer_sum(s: Seq<(Seq<char>, Option<i64>)>, v: Seq<char>) -> int
    decreases s.len(),
{
    if s.len() == 0 {
        0
    } else {
        integer_sum(s.drop_last(), v) + match s.last() {
            (w, Some(n)) => if w == v {
                n as int
            } else {
                0
            },
            _ => 0,
        }
    }
}

/// Whether an object gives an integer under a name.
pub open spec fn has_integer(s: Seq<(Seq<char>, Option<i64>)>, v: Seq<char>) -> bool {
    exists|i: int| 0 <= i < s.len() && (#[trigger] s[i]).0 == v && s[i].1 is Some
}

proof fn lemma_integers_sum(s: Seq<(Seq<char>, Option<i64>)>, v: Seq<char>)
    ensures
        named_sum(integers(s), v) == integer_sum(s, v),
        is_there(integers(s), v) <==> has_integer(s, v),
    decreases s.len(),
{
    if s.len() > 0 {
        let front = s.drop_last();
        lemma_integers_sum(front, v);
        match s.last().1 {
            Some(n) => {
                let all = integers(front).push((s.last().0, n));
                assert(all.drop_last() =~= integers(front));
                lemma_there_last(all, v);
            },
            None => {},
        }
        if has_integer(front, v) {
            let i = choose|i: int|
                0 <= i < front.len() && (#[trigger] front[i]).0 == v && front[i].1 is Some;
            assert(s[i].0 == v);
        }
        if s.last().0 == v && s.last().1 is Some {
            assert(s[s.len() - 1].0 == v);
        }
        if has_integer(s, v) {
            let i = choose|i: int| 0 <= i < s.len() && (#[trigger] s[i]).0 == v && s[i].1 is Some;
            if i < front.len() {
                assert(front[i].0 == v);
            }
        }
    }
}

/// What a JSON object of counts by column and value says of a value of a column.
pub open spec fn object_count(
    o: Seq<(Seq<char>, MemberView)>,
    col: Seq<char>,
    v: Seq<char>,
) -> int
    decreases o.len(),
{
    if o.len() == 0 {
        0
    } else {
        object_count(o.drop_last(), col, v) + match o.last() {
            (name, MemberView::Object(m)) => if name == col {
                integer_sum(m, v)
            } else {
                0
            },
            _ => 0,
        }
    }
}

/// Whether a JSON object of counts by column and value says anything of a value
/// of a column.
pub open spec fn object_tells(
    o: Seq<(Seq<char>, MemberView)>,
    col: Seq<char>,
    v: Seq<char>,
) -> bool {
    exists|i: int|
        0 <= i < o.len() && (#[trigger] o[i]).0 == col && (o[i].1 matches MemberView::Object(m)
            && has_integer(m, v))
}

proof fn lemma_column_counts_sum(o: Seq<(Seq<char>, MemberView)>, col: Seq<char>, v: Seq<char>)
    ensures
        listed_sum(column_counts(o), col, v) == object_count(o, col, v),
        is_listed(column_counts(o), col, v) <==> object_tells(o, col, v),
    decreases o.len(),
{
    if o.len() > 0 {
        let front = o.drop_last();
        let last = o.last();
        lemma_column_counts_sum(front, col, v);
        match last.1 {
            MemberView::Object(m) => {
                lemma_integers_sum(m, v);
                let all = column_counts(front).push((last.0, integers(m)));
                assert(all.drop_last() =~= column_counts(front));
                if integers(m).len() == 0 {
                    assert(!is_there(integers(m), v));
                    assert(named_sum(integers(m), v) == 0);
                }
            },
            _ => {},
        }
        if object_tells(front, col, v) {
            let i = choose|i: int|
                0 <= i < front.len() && (#[trigger] front[i]).0 == col && (
                front[i].1 matches MemberView::Object(m) && has_integer(m, v));
            assert(o[i].0 == col);
        }
        if last.0 == col {
            assert(o[o.len() - 1].0 == col);
        }
        if object_tells(o, col, v) {
            let i = choose|i: int|
                0 <= i < o.len() && (#[trigger] o[i]).0 == col && (
                o[i].1 matches MemberView::Object(m) && has_integer(m, v));
            if i < front.len() {
                assert(front[i].0 == col);
            }
        }
    }
}

/// What a partition's text of counts says of a value of a column: 0 where there
/// is no text, or none that is a JSON object.
pub open spec fn text_count(t: Option<String>, col: Seq<char>, v: Seq<char>) -> int {
    match t {
        Some(s) => match json_object(s@) {
            Some(o) => object_count(o, col, v),
            None => 0,
        },
        None => 0,
    }
}

pub open spec fn text_tells(t: Option<String>, col: Seq<char>, v: Seq<char>) -> bool {
    t matches Some(s) && (json_object(s@) matches Some(o) && object_tells(o, col, v))
}

proof fn lemma_text_counts(
    acc: Seq<(Seq<char>, Seq<(Seq<char>, i64)>)>,
    t: Option<String>,
    col: Seq<char>,
    v: Seq<char>,
)
    ensures
        same_in_64_bits(
            held_count(counts_with(acc, t), col, v),
            held_count(acc, col, v) + text_count(t, col, v),
        ),
        holds_count(counts_with(acc, t), col, v) <==> holds_count(acc, col, v) || text_tells(
            t,
            col,
            v,
        ),
{
    lemma_same_itself(held_count(acc, col, v));
    match t {
        Some(s) => {
            lemma_with_counts(acc, valcounts(s@), col, v);
            match json_object(s@) {
                Some(o) => lemma_column_counts_sum(o, col, v),
                None => {},
            }
        },
        None => {},
    }
}

/// The sum over partitions of what each says.
pub open spec fn sum_over(rows: Seq<PartitionRow>, says: spec_fn(PartitionRow) -> int) -> int
    decreases rows.len(),
{
    if rows.len() == 0 {
        0
    } else {
        sum_over(rows.drop_last(), says) + says(rows.last())
    }
}

/// The counts of a table are those of its partitions added up, within 64 bits: of
/// every value of every column, and both of all values and of the most common
/// ones. A partition that says nothing of a value adds nothing, and a value is
/// counted exactly where some partition says how often it occurs.
pub proof fn lemma_table_counts(rows: Seq<PartitionRow>, col: Seq<char>, v: Seq<char>)
    ensures
        same_in_64_bits(
            held_count(totals(rows).mcv, col, v),
            sum_over(rows, |r: PartitionRow| text_count(r.mcv, col, v)),
        ),
        same_in_64_bits(
            held_count(totals(rows).counts, col, v),
            sum_over(rows, |r: PartitionRow| text_count(r.valcounts, col, v)),
        ),
        holds_count(totals(rows).mcv, col, v) <==> exists|i: int|
            0 <= i < rows.len() && text_tells((#[trigger] rows[i]).mcv, col, v),
        holds_count(totals(rows).counts, col, v) <==> exists|i: int|
            0 <= i < rows.len() && text_tells((#[trigger] rows[i]).valcounts, col, v),
    decreases rows.len(),
{
    let f = |r: PartitionRow| text_count(r.mcv, col, v);
    let g = |r: PartitionRow| text_count(r.valcounts, col, v);
    if rows.len() == 0 {
        lemma_same_itself(0);
        lemma_found_by_name(totals(rows).mcv, col);
        lemma_found_by_name(totals(rows).counts, col);
    } else {
        let front = rows.drop_last();
        let last = rows.last();
        let t = totals(front);
        lemma_table_counts(front, col, v);
        lemma_text_counts(t.mcv, last.mcv, col, v);
        lemma_text_counts(t.counts, last.valcounts, col, v);
        lemma_same_itself(f(last));
        lemma_same_itself(g(last));
        lemma_same_sum(held_count(t.mcv, col, v), sum_over(front, f), f(last), f(last));
        lemma_same_sum(held_count(t.counts, col, v), sum_over(front, g), g(last), g(last));
        lemma_same_chain(
            held_count(totals(rows).mcv, col, v),
            held_count(t.mcv, col, v) + f(last),
            sum_over(rows, f),
        );
        lemma_same_chain(
            held_count(totals(rows).counts, col, v),
            held_count(t.counts, col, v) + g(last),
            sum_over(rows, g),
        );
        assert(rows[rows.len() - 1] == last);
        assert forall|i: int| 0 <= i < front.len() implies rows[i] == #[trigger] front[i] by {}
        assert forall|i: int| 0 <= i < front.len() implies #[trigger] rows[i] == front[i] by {}
    }
}

proof fn lemma_sum_without(rows: Seq<PartitionRow>, k: int, says: spec_fn(PartitionRow) -> int)
    requires
        0 <= k < rows.len(),
    ensures
        sum_over(rows, says) == sum_over(rows.remove(k), says) + says(rows[k]),
    decreases rows.len(),
{
    if k < rows.len() - 1 {
        lemma_sum_without(rows.drop_last(), k, says);
        assert(rows.remove(k).drop_last() =~= rows.drop_last().remove(k));
    } else {
        assert(rows.remove(k) =~= rows.drop_last());
    }
}

proof fn lemma_sum_any_order(
    rows: Seq<PartitionRow>,
    other: Seq<PartitionRow>,
    says: spec_fn(PartitionRow) -> int,
)
    requires
        rows.to_multiset() == other.to_multiset(),
    ensures
        sum_over(rows, says) == sum_over(other, says),
    decreases rows.len(),
{
    broadcast use vstd::seq_lib::group_to_multiset_ensures;

    assert(rows.to_multiset().len() == rows.len() && other.to_multiset().len() == other.len());
    if rows.len() > 0 {
        let last = rows.len() - 1;
        assert(rows.contains(rows[last]));
        assert(other.to_multiset().count(rows[last]) > 0);
        assert(other.contains(rows[last]));
        let k = choose|k: int| 0 <= k < other.len() && other[k] == rows[last];
        assert(rows.remove(last) =~= rows.drop_last());
        lemma_sum_without(other, k, says);
        lemma_sum_any_order(rows.drop_last(), other.remove(k), says);
    }
}

/// The order of the partitions does not matter to the counts of a table.
pub proof fn lemma_table_counts_any_order(
    rows: Seq<PartitionRow>,
    other: Seq<PartitionRow>,
    col: Seq<char>,
    v: Seq<char>,
)
    requires
        rows.to_multiset() == other.to_multiset(),
    ensures
        held_count(totals(rows).mcv, col, v) == held_count(totals(other).mcv, col, v),
        held_count(totals(rows).counts, col, v) == held_count(totals(other).counts, col, v),
        totals(rows).rows == totals(other).rows,
{
    let f = |r: PartitionRow| text_count(r.mcv, col, v);
    let g = |r: PartitionRow| text_count(r.valcounts, col, v);
    let h = |r: PartitionRow| r.row_count as int;
    lemma_sum_any_order(rows, other, f);
    lemma_sum_any_order(rows, other, g);
    lemma_sum_any_order(rows, other, h);
    lemma_table_counts(rows, col, v);
    lemma_table_counts(other, col, v);
    lemma_table_rows(rows);
    lemma_table_rows(other);
    lemma_same_back(held_count(totals(other).mcv, col, v), sum_over(other, f));
    lemma_same_back(held_count(totals(other).counts, col, v), sum_over(other, g));
    lemma_same_back(totals(other).rows as int, sum_over(other, h));
    lemma_same_chain(
        held_count(totals(rows).mcv, col, v),
        sum_over(rows, f),
        held_count(totals(other).mcv, col, v),
    );
    lemma_same_chain(
        held_count(totals(rows).counts, col, v),
        sum_over(rows, g),
        held_count(totals(other).counts, col, v),
    );
    lemma_same_chain(totals(rows).rows as int, sum_over(rows, h), totals(other).rows as int);
    lemma_same_is_equal(totals(rows).rows, totals(other).rows);
    lemma_same_is_equal(
        held_count(totals(rows).mcv, col, v) as i64,
        held_count(totals(other).mcv, col, v) as i64,
    );
    lemma_same_is_equal(
        held_count(totals(rows).counts, col, v) as i64,
        held_count(totals(other).counts, col, v) as i64,
    );
}

proof fn lemma_same_back(a: int, b: int)
    requires
        same_in_64_bits(a, b),
    ensures
        same_in_64_bits(b, a),
{
    let k = choose|k: int| #[trigger] (k * 0x1_0000_0000_0000_0000) == a - b;
    lemma_same(b, a, -k);
}

/// The rows of a table are those of its partitions added up, within 64 bits.
pub proof fn lemma_table_rows(rows: Seq<PartitionRow>)
    ensures
        same_in_64_bits(
            totals(rows).rows as int,
            sum_over(rows, |r: PartitionRow| r.row_count as int),
        ),
    decreases rows.len(),
{
    let h = |r: PartitionRow| r.row_count as int;
    if rows.len() == 0 {
        lemma_same_itself(0);
    } else {
        let front = rows.drop_last();
        let n = rows.last().row_count;
        let t = totals(front).rows;
        lemma_table_rows(front);
        lemma_wrapping(t, n);
        lemma_same_itself(n as int);
        lemma_same_sum(t as int, sum_over(front, h), n as int, n as int);
        lemma_same_chain(totals(rows).rows as int, t + n, sum_over(rows, h));
    }
}

/// Whether a partition lists a value of a column.
pub open spec fn row_lists(r: PartitionRow, col: Seq<char>, v: Seq<char>) -> bool {
    r.valmap matches Some(s) && (json_object(s@) matches Some(o) && exists|i: int|
        0 <= i < o.len() && lists(#[trigger] o[i], col, v))
}

/// The values known of a table's column are those that some partition lists, each
/// once and in order.
pub proof fn lemma_table_values(rows: Seq<PartitionRow>, col: Seq<char>)
    ensures
        texts_ascend(held_values(totals(rows).values, col)),
        forall|v: Seq<char>| #[trigger]
            held_values(totals(rows).values, col).contains(v) <==> exists|i: int|
                0 <= i < rows.len() && row_lists(#[trigger] rows[i], col, v),
    decreases rows.len(),
{
    let all = held_values(totals(rows).values, col);
    if rows.len() == 0 {
        lemma_found_by_name(totals(rows).values, col);
        assert(all =~= Seq::<Seq<char>>::empty());
    } else {
        let front = rows.drop_last();
        let last = rows.last();
        let before = held_values(totals(front).values, col);
        lemma_table_values(front, col);
        match last.valmap {
            Some(s) => match json_object(s@) {
                Some(o) => lemma_values_of_column(totals(front).values, o, col),
                None => {},
            },
            None => {},
        }
        assert forall|v: Seq<char>| #[trigger] all.contains(v) <==> exists|i: int|
            0 <= i < rows.len() && row_lists(#[trigger] rows[i], col, v) by {
            assert(all.contains(v) <==> before.contains(v) || row_lists(last, col, v));
            if before.contains(v) {
                let i = choose|i: int|
                    0 <= i < front.len() && row_lists(#[trigger] front[i], col, v);
                assert(row_lists(rows[i], col, v));
            }
            if row_lists(last, col, v) {
                assert(row_lists(rows[rows.len() - 1], col, v));
            }
            if exists|i: int| 0 <= i < rows.len() && row_lists(#[trigger] rows[i], col, v) {
                let i = choose|i: int| 0 <= i < rows.len() && row_lists(#[trigger] rows[i], col, v);
                if i < front.len() {
                    assert(row_lists(front[i], col, v));
                }
            }
        }
    }
}

/// All that goes by a name, in order.
pub open spec fn all_named<V>(s: Seq<(Seq<char>, V)>, name: Seq<char>) -> Seq<V>
    decreases s.len(),
{
    if s.len() == 0 {
        Seq::empty()
    } else if s.last().0 == name {
        all_named(s.drop_last(), name).push(s.last().1)
    } else {
        all_named(s.drop_last(), name)
    }
}

spec fn or_empty<V>(s: Option<Seq<V>>) -> Seq<V> {
    match s {
        Some(v) => v,
        None => Seq::empty(),
    }
}

proof fn lemma_appended<V>(
    acc: Seq<(Seq<char>, Seq<V>)>,
    more: Seq<(Seq<char>, V)>,
    name: Seq<char>,
)
    ensures
        or_empty(lookup(appended(acc, more), name)) == or_empty(lookup(acc, name)) + all_named(
            more,
            name,
        ),
    decreases more.len(),
{
    if more.len() == 0 {
        assert(or_empty(lookup(acc, name)) + Seq::<V>::empty() =~= or_empty(lookup(acc, name)));
    } else {
        let front = more.drop_last();
        let rest = appended(acc, front);
        let (w, v) = more.last();
        let fresh = match lookup(rest, w) {
            Some(s) => s.push(v),
            None => seq![v],
        };
        lemma_appended(acc, front, name);
        lemma_stored(rest, w, fresh);
        if w == name {
            assert(fresh =~= or_empty(lookup(rest, name)).push(v));
            assert(fresh =~= or_empty(lookup(acc, name)) + all_named(more, name));
        }
    }
}

/// What the partitions say of a column, one after the other.
pub open spec fn ndistinct_of(rows: Seq<PartitionRow>, col: Seq<char>) -> Seq<i64>
    decreases rows.len(),
{
    if rows.len() == 0 {
        Seq::empty()
    } else {
        ndistinct_of(rows.drop_last(), col) + all_named(rows.last().ndistinct@, col)
    }
}

pub open spec fn ranges_of(rows: Seq<PartitionRow>, col: Seq<char>) -> Seq<Range>
    decreases rows.len(),
{
    if rows.len() == 0 {
        Seq::empty()
    } else {
        ranges_of(rows.drop_last(), col) + all_named(rows.last().minmax@, col)
    }
}

/// The lists kept of a table's column hold each partition's number of distinct
/// values and each partition's extremes, and nothing else.
pub proof fn lemma_table_lists(rows: Seq<PartitionRow>, col: Seq<char>)
    ensures
        match lookup(totals(rows).nds, col) {
            Some(s) => s == ndistinct_of(rows, col),
            None => ndistinct_of(rows, col).len() == 0,
        },
        match lookup(totals(rows).ranges, col) {
            Some(s) => s == ranges_of(rows, col),
            None => ranges_of(rows, col).len() == 0,
        },
    decreases rows.len(),
{
    if rows.len() == 0 {
        lemma_found_by_name(totals(rows).nds, col);
        lemma_found_by_name(totals(rows).ranges, col);
    } else {
        let front = rows.drop_last();
        let t = totals(front);
        lemma_table_lists(front, col);
        lemma_appended(t.nds, rows.last().ndistinct@, col);
        lemma_appended(t.ranges, rows.last().minmax@, col);
        assert(or_empty(lookup(t.nds, col)) =~= ndistinct_of(front, col));
        assert(or_empty(lookup(t.ranges, col)) =~= ranges_of(front, col));
        assert(or_empty(lookup(totals(rows).nds, col)) =~= ndistinct_of(rows, col));
        assert(or_empty(lookup(totals(rows).ranges, col)) =~= ranges_of(rows, col));
    }
}

/// Sketches merged one after the other; none where there are none.
pub open spec fn merged_all(s: Seq<Seq<u64>>) -> Option<Seq<u64>>
    decreases s.len(),
{
    if s.len() == 0 {
        None
    } else {
        match merged_all(s.drop_last()) {
            Some(held) => Some(merged_state(held, s.last())),
            None => Some(s.last()),
        }
    }
}

/// The sketches of a column among members, in order.
pub open spec fn sketches_named(
    s: Seq<(Seq<char>, Option<Seq<u64>>)>,
    name: Seq<char>,
) -> Seq<Seq<u64>>
    decreases s.len(),
{
    if s.len() == 0 {
        Seq::empty()
    } else {
        match s.last() {
            (n, Some(k)) => if n == name {
                sketches_named(s.drop_last(), name).push(k)
            } else {
                sketches_named(s.drop_last(), name)
            },
            _ => sketches_named(s.drop_last(), name),
        }
    }
}

proof fn lemma_with_sketches(
    acc: Seq<(Seq<char>, Seq<u64>)>,
    more: Seq<(Seq<char>, Option<Seq<u64>>)>,
    name: Seq<char>,
    done: Seq<Seq<u64>>,
)
    requires
        lookup(acc, name) == merged_all(done),
    ensures
        lookup(with_sketches(acc, more), name) == merged_all(done + sketches_named(more, name)),
    decreases more.len(),
{
    if more.len() == 0 {
        assert(done + sketches_named(more, name) =~= done);
    } else {
        let front = more.drop_last();
        let rest = with_sketches(acc, front);
        lemma_with_sketches(acc, front, name, done);
        let (n, k) = more.last();
        match k {
            Some(s) => {
                let fresh = match lookup(rest, n) {
                    Some(h) => merged_state(h, s),
                    None => s,
                };
                lemma_stored(rest, n, fresh);
                if n == name {
                    let all = done + sketches_named(more, name);
                    assert(all.drop_last() =~= done + sketches_named(front, name));
                }
            },
            None => {},
        }
    }
}

/// The sketches that the partitions give of a column, one after the other.
pub open spec fn sketches_of_rows(rows: Seq<PartitionRow>, col: Seq<char>) -> Seq<Seq<u64>>
    decreases rows.len(),
{
    if rows.len() == 0 {
        Seq::empty()
    } else {
        sketches_of_rows(rows.drop_last(), col) + match rows.last().hll {
            Some(s) => match json_sketches(s@) {
                Some(m) => sketches_named(m, col),
                None => Seq::empty(),
            },
            None => Seq::empty(),
        }
    }
}

/// The sketch of a table's column is that of all its partitions merged; there is
/// one exactly where some partition has one.
pub proof fn lemma_table_sketches(rows: Seq<PartitionRow>, col: Seq<char>)
    ensures
        lookup(totals(rows).sketches, col) == merged_all(sketches_of_rows(rows, col)),
    decreases rows.len(),
{
    if rows.len() == 0 {
        lemma_found_by_name(totals(rows).sketches, col);
    } else {
        let front = rows.drop_last();
        let done = sketches_of_rows(front, col);
        lemma_table_sketches(front, col);
        assert(done + Seq::<Seq<u64>>::empty() =~= done);
        match rows.last().hll {
            Some(s) => match json_sketches(s@) {
                Some(m) => lemma_with_sketches(totals(front).sketches, m, col, done),
                None => {},
            },
            None => {},
        }
    }
}

} // verus!
