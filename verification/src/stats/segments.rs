//! Names of statistics tables, and the smallest values of segments pooled over
//! the partitions of a table.

use vstd::prelude::*;
use vstd::string::*;
use crate::search::lemma_first_where;
use crate::stats::assoc::{is_named, lookup, stored, Assoc};
use crate::stats::estimates::AttrInfo;
use crate::stats::table::list_or_empty;
use crate::text::{holds_text, texts};

verus! {

/// A text with each quotation mark doubled.
pub open spec fn doubled_quotes(s: Seq<char>) -> Seq<char>
    decreases s.len(),
{
    if s.len() == 0 {
        s
    } else if s.last() == '"' {
        doubled_quotes(s.drop_last()) + seq!['"', '"']
    } else {
        doubled_quotes(s.drop_last()).push(s.last())
    }
}

/// An SQL identifier in quotation marks.
pub open spec fn quoted(s: Seq<char>) -> Seq<char> {
    seq!['"'] + doubled_quotes(s) + seq!['"']
}

fn append_doubled(out: &mut String, s: &str)
    ensures
        final(out)@ == old(out)@ + doubled_quotes(s@),
{
    let ghost base = out@;
    let n: usize = s.unicode_len();
    let mut i: usize = 0;
    proof {
        reveal_strlit("\"");
        assert(s@.subrange(0, 0) =~= Seq::<char>::empty());
        assert(base =~= base + doubled_quotes(s@.subrange(0, 0)));
    }
    while i < n
        invariant
            i <= n == s@.len(),
            "\""@ == seq!['"'],
            out@ == base + doubled_quotes(s@.subrange(0, i as int)),
        decreases n - i,
    {
        let ghost head = s@.subrange(0, i as int);
        assert(s@.subrange(0, i + 1).drop_last() =~= head);
        let c = s.substring_char(i, i + 1);
        out.append(c);
        if s.get_char(i) == '"' {
            out.append("\"");
        }
        assert(out@ =~= base + doubled_quotes(s@.subrange(0, i + 1)));
        i += 1;
    }
    assert(s@.subrange(0, i as int) =~= s@);
}

/// An SQL identifier in quotation marks; those inside it are doubled.
pub fn quote_ident(ident: &str) -> (r: String)
    ensures
        r@ == quoted(ident@),
{
    proof {
        reveal_strlit("\"");
    }
    let mut out = "\"".to_owned();
    append_doubled(&mut out, ident);
    out.append("\"");
    assert(out@ =~= quoted(ident@));
    out
}

/// The full name of a table, each part in quotation marks.
pub fn qualified_name(schema: &str, table: &str) -> (r: String)
    ensures
        r@ == quoted(schema@) + seq!['.'] + quoted(table@),
{
    proof {
        reveal_strlit(".");
    }
    let mut out = quote_ident(schema);
    out.append(".");
    out.append(quote_ident(table).as_str());
    assert(out@ =~= quoted(schema@) + seq!['.'] + quoted(table@));
    out
}

/// The full name of the table that holds a partition's segment statistics.
pub open spec fn colstats_name(partition: Seq<char>) -> Seq<char> {
    quoted("_deltax_compressed"@) + seq!['.'] + quoted(partition + "_colstats"@)
}


/// A name in quotation marks stands for one name only.
pub proof fn lemma_quoted_injective(a: Seq<char>, b: Seq<char>)
    requires
        quoted(a) == quoted(b),
    ensures
        a == b,
{
    let x = doubled_quotes(a);
    let y = doubled_quotes(b);
    assert(quoted(a).len() == x.len() + 2);
    assert(quoted(b).len() == y.len() + 2);
    assert(x =~= quoted(a).subrange(1, quoted(a).len() - 1));
    assert(y =~= quoted(b).subrange(1, quoted(b).len() - 1));
    lemma_doubled_injective(a, b);
}

proof fn lemma_doubled_injective(a: Seq<char>, b: Seq<char>)
    requires
        doubled_quotes(a) == doubled_quotes(b),
    ensures
        a == b,
    decreases a.len(),
{
    let x = doubled_quotes(a);
    let y = doubled_quotes(b);
    if a.len() == 0 {
        if b.len() > 0 {
            assert(y.len() > 0);
        }
        assert(a =~= b);
    } else if b.len() == 0 {
        assert(x.len() > 0);
    } else {
        assert(x.last() == a.last());
        assert(y.last() == b.last());
        let p = doubled_quotes(a.drop_last());
        let q = doubled_quotes(b.drop_last());
        if a.last() == '"' {
            assert(p =~= x.subrange(0, x.len() - 2));
            assert(q =~= y.subrange(0, y.len() - 2));
        } else {
            assert(p =~= x.drop_last());
            assert(q =~= y.drop_last());
        }
        lemma_doubled_injective(a.drop_last(), b.drop_last());
        assert(a =~= a.drop_last().push(a.last()));
        assert(b =~= b.drop_last().push(b.last()));
    }
}

/// The full name of the table that holds a partition's segment statistics.
pub fn colstats_fqn(partition: &str) -> (r: String)
    ensures
        r@ == colstats_name(partition@),
{
    let mut table = partition.to_owned();
    table.append("_colstats");
    qualified_name("_deltax_compressed", table.as_str())
}

// ---------------------------------------------------------------------------
// Pooling
// ---------------------------------------------------------------------------

/// The names of the columns that are not segment-by, in the order in which
/// segment statistics number them.
pub open spec fn numbered_names(attrs: Seq<AttrInfo>, segment_by: Seq<Seq<char>>) -> Seq<Seq<char>>
    decreases attrs.len(),
{
    if attrs.len() == 0 {
        Seq::empty()
    } else {
        let rest = numbered_names(attrs.drop_last(), segment_by);
        if segment_by.contains(attrs.last().attname@) {
            rest
        } else {
            rest.push(attrs.last().attname@)
        }
    }
}

fn number_names(attrs: &Vec<AttrInfo>, segment_by: &Vec<String>) -> (r: Vec<String>)
    ensures
        texts(r@) == numbered_names(attrs@, texts(segment_by@)),
{
    let mut out: Vec<String> = Vec::new();
    let mut i: usize = 0;
    assert(attrs@.subrange(0, 0) =~= Seq::<AttrInfo>::empty());
    assert(texts(out@) =~= Seq::<Seq<char>>::empty());
    while i < attrs.len()
        invariant
            i <= attrs.len(),
            texts(out@) == numbered_names(attrs@.subrange(0, i as int), texts(segment_by@)),
        decreases attrs.len() - i,
    {
        assert(attrs@.subrange(0, i + 1).drop_last() =~= attrs@.subrange(0, i as int));
        if !holds_text(segment_by, attrs[i].attname.as_str()) {
            let ghost before = texts(out@);
            out.push(attrs[i].attname.as_str().to_owned());
            assert(texts(out@) =~= before.push(attrs@[i as int].attname@));
        }
        i += 1;
    }
    assert(attrs@.subrange(0, i as int) =~= attrs@);
    out
}

/// Smallest values by column name with those of a partition, which are by column
/// number. Numbers that no column has are passed over.
pub open spec fn pooled(
    acc: Seq<(Seq<char>, Seq<i64>)>,
    names: Seq<Seq<char>>,
    part: Seq<(usize, Vec<i64>)>,
) -> Seq<(Seq<char>, Seq<i64>)>
    decreases part.len(),
{
    if part.len() == 0 {
        acc
    } else {
        let rest = pooled(acc, names, part.drop_last());
        let (i, mins) = part.last();
        if i < names.len() {
            stored(rest, names[i as int], list_or_empty(lookup(rest, names[i as int])) + mins@)
        } else {
            rest
        }
    }
}

/// Smallest values by column name, over partitions.
pub open spec fn all_pooled(names: Seq<Seq<char>>, parts: Seq<Vec<(usize, Vec<i64>)>>) -> Seq<
    (Seq<char>, Seq<i64>),
>
    decreases parts.len(),
{
    if parts.len() == 0 {
        Seq::empty()
    } else {
        pooled(all_pooled(names, parts.drop_last()), names, parts.last()@)
    }
}

fn extend_ints(list: &mut Vec<i64>, more: &Vec<i64>)
    ensures
        final(list)@ == old(list)@ + more@,
{
    let ghost before = list@;
    let mut i: usize = 0;
    while i < more.len()
        invariant
            i <= more.len(),
            list@ =~= before + more@.subrange(0, i as int),
        decreases more.len() - i,
    {
        list.push(more[i]);
        i += 1;
    }
    assert(list@ =~= before + more@);
}

fn extend_named(acc: &mut Assoc<Vec<i64>>, name: &str, mins: &Vec<i64>)
    ensures
        final(acc)@ == stored(
            old(acc)@,
            name@,
            list_or_empty(lookup(old(acc)@, name@)) + mins@,
        ),
{
    let ghost before = acc@;
    match acc.find(name) {
        Some(i) => {
            proof {
                lemma_first_where(before, is_named(name@));
            }
            extend_ints(&mut acc.entries[i].item, mins);
            assert(acc@ =~= before.update(i as int, (name@, before[i as int].1 + mins@)));
        },
        None => {
            let mut fresh: Vec<i64> = Vec::new();
            extend_ints(&mut fresh, mins);
            acc.push(name.to_owned(), fresh);
        },
    }
}

fn pool_partition(
    acc: &mut Assoc<Vec<i64>>,
    names: &Vec<String>,
    part: &Vec<(usize, Vec<i64>)>,
)
    ensures
        final(acc)@ == pooled(old(acc)@, texts(names@), part@),
{
    let ghost before = acc@;
    let mut i: usize = 0;
    assert(part@.subrange(0, 0) =~= Seq::<(usize, Vec<i64>)>::empty());
    while i < part.len()
        invariant
            i <= part.len(),
            acc@ == pooled(before, texts(names@), part@.subrange(0, i as int)),
        decreases part.len() - i,
    {
        assert(part@.subrange(0, i + 1).drop_last() =~= part@.subrange(0, i as int));
        let k: usize = part[i].0;
        assert(texts(names@).len() == names@.len());
        if k < names.len() {
            assert(texts(names@)[k as int] == names@[k as int]@);
            extend_named(acc, names[k].as_str(), &part[i].1);
        }
        i += 1;
    }
    assert(part@.subrange(0, i as int) =~= part@);
}

/// The smallest values of the segments of all partitions, by column.
pub fn pool_segment_mins(
    attrs: &Vec<AttrInfo>,
    segment_by: &Vec<String>,
    parts: &Vec<Vec<(usize, Vec<i64>)>>,
) -> (r: Assoc<Vec<i64>>)
    ensures
        r@ == all_pooled(numbered_names(attrs@, texts(segment_by@)), parts@),
{
    let names = number_names(attrs, segment_by);
    let mut out: Assoc<Vec<i64>> = Assoc::new();
    let mut i: usize = 0;
    assert(parts@.subrange(0, 0) =~= Seq::<Vec<(usize, Vec<i64>)>>::empty());
    while i < parts.len()
        invariant
            i <= parts.len(),
            out@ == all_pooled(texts(names@), parts@.subrange(0, i as int)),
        decreases parts.len() - i,
    {
        assert(parts@.subrange(0, i + 1).drop_last() =~= parts@.subrange(0, i as int));
        pool_partition(&mut out, &names, &parts[i]);
        i += 1;
    }
    assert(parts@.subrange(0, i as int) =~= parts@);
    out
}

} // verus!
