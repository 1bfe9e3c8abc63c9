//! Position of the first element of a sequence with a given property.

use vstd::prelude::*;

verus! {

/// Index of the first element of `s` with property `p`.
pub open spec fn first_where<A>(s: Seq<A>, p: spec_fn(A) -> bool) -> Option<int>
    decreases s.len(),
{
    if s.len() == 0 {
        None
    } else if p(s[0]) {
        Some(0int)
    } else {
        match first_where(s.drop_first(), p) {
            Some(i) => Some(i + 1),
            None => None,
        }
    }
}

/// `first_where` is the least index with the property.
pub proof fn lemma_first_where<A>(s: Seq<A>, p: spec_fn(A) -> bool)
    ensures
        match first_where(s, p) {
            Some(i) => 0 <= i < s.len() && p(s[i]) && forall|j: int| 0 <= j < i ==> !p(s[j]),
            None => forall|j: int| 0 <= j < s.len() ==> !p(s[j]),
        },
    decreases s.len(),
{
    if s.len() > 0 && !p(s[0]) {
        let t = s.drop_first();
        lemma_first_where(t, p);
        match first_where(t, p) {
            Some(i) => {
                assert forall|j: int| 0 <= j < i + 1 implies !p(s[j]) by {
                    if j > 0 {
                        assert(s[j] == t[j - 1]);
                    }
                }
            },
            None => {
                assert forall|j: int| 0 <= j < s.len() implies !p(s[j]) by {
                    if j > 0 {
                        assert(s[j] == t[j - 1]);
                    }
                }
            },
        }
    }
}

/// The first element with the property, once one is known to have it and none
/// before it does.
pub proof fn lemma_first_is<A>(s: Seq<A>, p: spec_fn(A) -> bool, i: int)
    requires
        0 <= i < s.len(),
        p(s[i]),
        forall|j: int| 0 <= j < i ==> !p(s[j]),
    ensures
        first_where(s, p) == Some(i),
{
    lemma_first_where(s, p);
}

/// No element has the property.
pub proof fn lemma_first_none<A>(s: Seq<A>, p: spec_fn(A) -> bool)
    requires
        forall|j: int| 0 <= j < s.len() ==> !p(s[j]),
    ensures
        first_where(s, p) == None::<int>,
{
    lemma_first_where(s, p);
}

} // verus!
