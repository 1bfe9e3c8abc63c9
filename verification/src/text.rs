//! Strings and lists of strings: comparison, copying, and the sequences of
//! characters they stand for.

use vstd::prelude::*;
use vstd::string::*;

verus! {

/// The characters of each string of a list.
pub open spec fn texts(v: Seq<String>) -> Seq<Seq<char>> {
    v.map_values(|s: String| s@)
}

/// The characters of an optional string.
pub open spec fn opt_text(s: Option<String>) -> Option<Seq<char>> {
    match s {
        Some(t) => Some(t@),
        None => None,
    }
}

pub fn text_is(s: &str, lit: &str) -> (r: bool)
    ensures
        r == (s@ == lit@),
{
    s.to_owned() == lit.to_owned()
}

/// Whether two lists hold the same strings in the same order.
pub fn same_texts(a: &Vec<String>, b: &Vec<String>) -> (r: bool)
    ensures
        r == (texts(a@) == texts(b@)),
{
    if a.len() != b.len() {
        assert(texts(a@).len() != texts(b@).len());
        return false;
    }
    let mut i: usize = 0;
    while i < a.len()
        invariant
            i <= a.len() == b.len(),
            forall|j: int| 0 <= j < i ==> #[trigger] a@[j]@ == b@[j]@,
        decreases a.len() - i,
    {
        if a[i] != b[i] {
            assert(texts(a@)[i as int] != texts(b@)[i as int]);
            return false;
        }
        i += 1;
    }
    assert(texts(a@) =~= texts(b@));
    true
}

/// A copy of a list of strings.
pub fn dup_texts(a: &Vec<String>) -> (r: Vec<String>)
    ensures
        r@ == a@,
{
    let mut out: Vec<String> = Vec::new();
    let mut i: usize = 0;
    while i < a.len()
        invariant
            i <= a.len(),
            out@ == a@.subrange(0, i as int),
        decreases a.len() - i,
    {
        out.push(a[i].clone());
        i += 1;
        assert(out@ =~= a@.subrange(0, i as int));
    }
    assert(out@ =~= a@);
    out
}

/// Whether a list of strings holds the given one.
pub fn holds_text(list: &Vec<String>, s: &str) -> (r: bool)
    ensures
        r == texts(list@).contains(s@),
{
    let key: String = s.to_owned();
    let mut i: usize = 0;
    while i < list.len()
        invariant
            i <= list.len(),
            key@ == s@,
            forall|j: int| 0 <= j < i ==> #[trigger] list@[j]@ != s@,
        decreases list.len() - i,
    {
        if list[i] == key {
            assert(texts(list@)[i as int] == s@);
            return true;
        }
        i += 1;
    }
    assert forall|j: int| 0 <= j < texts(list@).len() implies texts(list@)[j] != s@ by {
        assert(list@[j]@ != s@);
    }
    false
}

pub fn dup_opt_text(s: &Option<String>) -> (r: Option<String>)
    ensures
        r == *s,
{
    match s {
        Some(t) => Some(t.clone()),
        None => None,
    }
}

/// `s` without a final `suffix`, where it ends in it.
pub open spec fn without_suffix(s: Seq<char>, suffix: Seq<char>) -> Seq<char> {
    let n = s.len() - suffix.len();
    if n >= 0 && s.subrange(n, s.len() as int) == suffix {
        s.subrange(0, n)
    } else {
        s
    }
}

/// `s` without a final `suffix`, where it ends in it.
pub fn strip_text_suffix(s: &str, suffix: &str) -> (r: String)
    ensures
        r@ == without_suffix(s@, suffix@),
{
    let n: usize = s.unicode_len();
    let k: usize = suffix.unicode_len();
    if n >= k {
        let tail = s.substring_char(n - k, n);
        if text_is(tail, suffix) {
            return s.substring_char(0, n - k).to_owned();
        }
    }
    s.to_owned()
}

/// Two strings, one behind the other.
pub fn joined(a: &str, b: &str) -> (r: String)
    ensures
        r@ == a@ + b@,
{
    let mut out: String = a.to_owned();
    out.append(b);
    out
}

} // verus!
