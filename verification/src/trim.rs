//! Removal of white space around a text.

use vstd::prelude::*;
use vstd::string::*;

verus! {

/// White space, as Unicode defines it.
pub open spec fn is_space(c: char) -> bool {
    let v = c as u32;
    (0x9 <= v <= 0xd) || v == 0x20 || v == 0x85 || v == 0xa0 || v == 0x1680 || (0x2000 <= v
        <= 0x200a) || v == 0x2028 || v == 0x2029 || v == 0x202f || v == 0x205f || v == 0x3000
}

/// A text without the white space in front.
pub open spec fn trimmed_start(s: Seq<char>) -> Seq<char>
    decreases s.len(),
{
    if s.len() > 0 && is_space(s[0]) {
        trimmed_start(s.drop_first())
    } else {
        s
    }
}

/// A text without the white space behind.
pub open spec fn trimmed_end(s: Seq<char>) -> Seq<char>
    decreases s.len(),
{
    if s.len() > 0 && is_space(s.last()) {
        trimmed_end(s.drop_last())
    } else {
        s
    }
}

/// A text without the white space around it.
pub open spec fn trimmed(s: Seq<char>) -> Seq<char> {
    trimmed_end(trimmed_start(s))
}

fn char_is_space(c: char) -> (r: bool)
    ensures
        r == is_space(c),
{
    let v: u32 = c as u32;
    (0x9 <= v && v <= 0xd) || v == 0x20 || v == 0x85 || v == 0xa0 || v == 0x1680 || (0x2000 <= v
        && v <= 0x200a) || v == 0x2028 || v == 0x2029 || v == 0x202f || v == 0x205f || v == 0x3000
}

/// The text without the white space around it.
pub fn trim<'a>(s: &'a str) -> (r: &'a str)
    ensures
        r@ == trimmed(s@),
{
    let n: usize = s.unicode_len();
    let mut i: usize = 0;
    assert(s@.subrange(0, n as int) =~= s@);
    while i < n && char_is_space(s.get_char(i))
        invariant
            i <= n == s@.len(),
            trimmed_start(s@) == trimmed_start(s@.subrange(i as int, n as int)),
        decreases n - i,
    {
        assert(s@.subrange(i as int, n as int).drop_first() =~= s@.subrange(i + 1, n as int));
        i += 1;
    }
    let ghost front = s@.subrange(i as int, n as int);
    assert(trimmed_start(s@) == front);
    let mut j: usize = n;
    while j > i && char_is_space(s.get_char(j - 1))
        invariant
            i <= j <= n == s@.len(),
            trimmed_end(front) == trimmed_end(s@.subrange(i as int, j as int)),
        decreases j - i,
    {
        assert(s@.subrange(i as int, j as int).drop_last() =~= s@.subrange(i as int, j - 1));
        j -= 1;
    }
    s.substring_char(i, j)
}

/// A text that neither begins nor ends in white space stays as it is.
pub proof fn lemma_trim_nothing(s: Seq<char>)
    requires
        s.len() > 0,
        !is_space(s[0]),
        !is_space(s.last()),
    ensures
        trimmed(s) == s,
{
}

/// Whether a text is nothing but white space.
pub open spec fn all_space(s: Seq<char>) -> bool {
    forall|i: int| 0 <= i < s.len() ==> is_space(#[trigger] s[i])
}

proof fn lemma_space_in_front(w: Seq<char>, s: Seq<char>)
    requires
        all_space(w),
    ensures
        trimmed_start(w + s) == trimmed_start(s),
    decreases w.len(),
{
    if w.len() > 0 {
        assert(is_space(w[0]));
        assert((w + s).drop_first() =~= w.drop_first() + s);
        lemma_space_in_front(w.drop_first(), s);
    } else {
        assert(w + s =~= s);
    }
}

proof fn lemma_space_behind(s: Seq<char>, w: Seq<char>)
    requires
        all_space(w),
    ensures
        trimmed_end(s + w) == trimmed_end(s),
    decreases w.len(),
{
    if w.len() > 0 {
        assert(is_space(w[w.len() - 1]));
        assert((s + w).drop_last() =~= s + w.drop_last());
        lemma_space_behind(s, w.drop_last());
    } else {
        assert(s + w =~= s);
    }
}

proof fn lemma_trim_behind(s: Seq<char>, w: Seq<char>)
    requires
        all_space(w),
    ensures
        trimmed(s + w) == trimmed(s),
    decreases s.len(),
{
    if s.len() == 0 {
        assert(s + w =~= w + s);
        lemma_space_in_front(w, s);
    } else if is_space(s[0]) {
        assert((s + w).drop_first() =~= s.drop_first() + w);
        lemma_trim_behind(s.drop_first(), w);
    } else {
        lemma_space_behind(s, w);
    }
}

/// White space around a text, however much of it, makes no difference.
pub proof fn lemma_trim_around(before: Seq<char>, s: Seq<char>, behind: Seq<char>)
    requires
        all_space(before),
        all_space(behind),
    ensures
        trimmed(before + s + behind) == trimmed(s),
{
    assert(before + s + behind =~= before + (s + behind));
    lemma_space_in_front(before, s + behind);
    lemma_trim_behind(s, behind);
}

} // verus!
