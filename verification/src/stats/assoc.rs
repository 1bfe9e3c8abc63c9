//! Things found by name.

use vstd::prelude::*;
use vstd::string::*;
use crate::search::{first_where, lemma_first_is, lemma_first_none, lemma_first_where};
use crate::text::text_is;

verus! {

/// A thing with a name.
pub struct Named<T> {
    pub name: String,
    pub item: T,
}

/// Things by their names.
pub struct Assoc<T> {
    pub entries: Vec<Named<T>>,
}

impl<T: View> View for Named<T> {
    type V = (Seq<char>, T::V);

    open spec fn view(&self) -> (Seq<char>, T::V) {
        (self.name@, self.item@)
    }
}

pub open spec fn views<T: View>(s: Seq<T>) -> Seq<T::V> {
    Seq::new(s.len(), |i: int| s[i]@)
}

impl<T: View> View for Assoc<T> {
    type V = Seq<(Seq<char>, T::V)>;

    open spec fn view(&self) -> Seq<(Seq<char>, T::V)> {
        views(self.entries@)
    }
}

pub open spec fn is_named<V>(name: Seq<char>) -> spec_fn((Seq<char>, V)) -> bool {
    |e: (Seq<char>, V)| e.0 == name
}

/// What goes by a name.
pub open spec fn lookup<V>(s: Seq<(Seq<char>, V)>, name: Seq<char>) -> Option<V> {
    match first_where(s, is_named(name)) {
        Some(i) => Some(s[i].1),
        None => None,
    }
}

/// `s` with `v` under a name, in the place of what went by that name before or
/// else at the end.
pub open spec fn stored<V>(s: Seq<(Seq<char>, V)>, name: Seq<char>, v: V) -> Seq<(Seq<char>, V)> {
    match first_where(s, is_named(name)) {
        Some(i) => s.update(i, (name, v)),
        None => s.push((name, v)),
    }
}

/// Whether no two things go by the same name.
pub open spec fn names_differ<V>(s: Seq<(Seq<char>, V)>) -> bool {
    forall|i: int, j: int| 0 <= i < j < s.len() ==> (#[trigger] s[i]).0 != (#[trigger] s[j]).0
}

/// What is stored under a name is found there, and nothing else changes.
pub proof fn lemma_stored<V>(s: Seq<(Seq<char>, V)>, name: Seq<char>, v: V)
    ensures
        lookup(stored(s, name, v), name) == Some(v),
        forall|n: Seq<char>|
            n != name ==> #[trigger] lookup(stored(s, name, v), n) == lookup(s, n),
        names_differ(s) ==> names_differ(stored(s, name, v)),
{
    let p = is_named::<V>(name);
    let t = stored(s, name, v);
    lemma_first_where(s, p);
    match first_where(s, p) {
        Some(i) => {
            assert forall|j: int| 0 <= j < i implies !p(t[j]) by {
                assert(!p(s[j]));
            }
            lemma_first_is(t, p, i);
        },
        None => {
            assert forall|j: int| 0 <= j < s.len() implies !p(t[j]) by {
                assert(!p(s[j]));
            }
            lemma_first_is(t, p, s.len() as int);
            if names_differ(s) {
                assert forall|i: int, j: int| 0 <= i < j < t.len() implies (#[trigger] t[i]).0 != (
                #[trigger] t[j]).0 by {
                    if j == s.len() {
                        assert(!p(s[i]));
                    } else {
                        assert(s[i].0 != s[j].0);
                    }
                }
            }
        },
    }
    if names_differ(s) && first_where(s, p) is Some {
        assert forall|i: int, j: int| 0 <= i < j < t.len() implies (#[trigger] t[i]).0 != (
        #[trigger] t[j]).0 by {
            assert(s[i].0 != s[j].0);
        }
    }
    assert forall|n: Seq<char>| n != name implies #[trigger] lookup(t, n) == lookup(s, n) by {
        let q = is_named::<V>(n);
        lemma_first_where(s, q);
        match first_where(s, q) {
            Some(k) => {
                assert forall|j: int| 0 <= j < k implies !q(t[j]) by {
                    assert(!q(s[j]));
                }
                lemma_first_is(t, q, k);
            },
            None => {
                assert forall|j: int| 0 <= j < t.len() implies !q(t[j]) by {
                    if j < s.len() {
                        assert(!q(s[j]));
                    }
                }
                lemma_first_none(t, q);
            },
        }
    }
}

/// Where names differ, the last thing is found by its name, and the others as if
/// it were not there.
pub proof fn lemma_lookup_last<V>(s: Seq<(Seq<char>, V)>, name: Seq<char>)
    requires
        names_differ(s),
    ensures
        s.len() == 0 ==> lookup(s, name) is None,
        s.len() > 0 ==> lookup(s, name) == if s.last().0 == name {
            Some(s.last().1)
        } else {
            lookup(s.drop_last(), name)
        },
        s.len() > 0 && s.last().0 == name ==> lookup(s.drop_last(), name) is None,
{
    let p = is_named::<V>(name);
    if s.len() > 0 {
        let front = s.drop_last();
        lemma_first_where(front, p);
        if s.last().0 == name {
            assert forall|j: int| 0 <= j < front.len() implies !p(front[j]) by {
                assert(s[j].0 != s[s.len() - 1].0);
            }
            lemma_first_none(front, p);
            assert forall|j: int| 0 <= j < s.len() - 1 implies !p(s[j]) by {
                assert(!p(front[j]));
            }
            lemma_first_is(s, p, s.len() - 1);
        } else {
            match first_where(front, p) {
                Some(i) => {
                    assert forall|j: int| 0 <= j < i implies !p(s[j]) by {
                        assert(!p(front[j]));
                    }
                    lemma_first_is(s, p, i);
                },
                None => {
                    assert forall|j: int| 0 <= j < s.len() implies !p(s[j]) by {
                        if j < front.len() {
                            assert(!p(front[j]));
                        }
                    }
                    lemma_first_none(s, p);
                },
            }
        }
    }
}

pub proof fn lemma_front_differs<V>(s: Seq<(Seq<char>, V)>)
    requires
        names_differ(s),
        s.len() > 0,
    ensures
        names_differ(s.drop_last()),
{
    let front = s.drop_last();
    assert forall|i: int, j: int| 0 <= i < j < front.len() implies (#[trigger] front[i]).0 != (
    #[trigger] front[j]).0 by {
        assert(s[i].0 != s[j].0);
    }
}

impl<T: View> Assoc<T> {
    pub fn new() -> (r: Assoc<T>)
        ensures
            r@ == Seq::<(Seq<char>, T::V)>::empty(),
    {
        let r = Assoc { entries: Vec::new() };
        assert(r@ =~= Seq::<(Seq<char>, T::V)>::empty());
        r
    }

    /// Where a name stands.
    pub fn find(&self, name: &str) -> (r: Option<usize>)
        ensures
            match r {
                Some(i) => first_where(self@, is_named(name@)) == Some(i as int) && i
                    < self.entries@.len(),
                None => first_where(self@, is_named(name@)) is None,
            },
    {
        let mut i: usize = 0;
        while i < self.entries.len()
            invariant
                i <= self.entries.len(),
                forall|j: int| 0 <= j < i ==> (#[trigger] self@[j]).0 != name@,
            decreases self.entries.len() - i,
        {
            if text_is(self.entries[i].name.as_str(), name) {
                proof {
                    lemma_first_is(self@, is_named(name@), i as int);
                }
                return Some(i);
            }
            i += 1;
        }
        proof {
            lemma_first_none(self@, is_named(name@));
        }
        None
    }

    /// What goes by a name.
    pub fn get(&self, name: &str) -> (r: Option<&T>)
        ensures
            match r {
                Some(t) => lookup(self@, name@) == Some(t@),
                None => lookup(self@, name@) is None,
            },
    {
        match self.find(name) {
            Some(i) => Some(&self.entries[i].item),
            None => None,
        }
    }

    /// Adds a thing at the end.
    pub fn push(&mut self, name: String, item: T)
        ensures
            final(self)@ == old(self)@.push((name@, item@)),
    {
        let ghost before = self@;
        self.entries.push(Named { name, item });
        assert(self@ =~= before.push((name@, item@)));
    }
}

/// Adds an integer to those under a name.
pub fn push_int(list: &mut Assoc<Vec<i64>>, name: &str, v: i64)
    ensures
        final(list)@ == stored(
            old(list)@,
            name@,
            match lookup(old(list)@, name@) {
                Some(s) => s.push(v),
                None => seq![v],
            },
        ),
{
    let ghost before = list@;
    match list.find(name) {
        Some(i) => {
            proof {
                lemma_first_where(before, is_named(name@));
            }
            list.entries[i].item.push(v);
            assert(list@ =~= before.update(i as int, (name@, before[i as int].1.push(v))));
        },
        None => {
            let item: Vec<i64> = vec![v];
            assert(item@ =~= seq![v]);
            list.push(name.to_owned(), item);
        },
    }
}

} // verus!
