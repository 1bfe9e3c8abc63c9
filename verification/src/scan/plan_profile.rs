//! A profile of planning time: how often the parts of planning ran, and how long
//! they took. Times are in nanoseconds.

use vstd::prelude::*;
use vstd::string::*;
use crate::search::{first_where, lemma_first_is, lemma_first_none, lemma_first_where};
use crate::text::text_is;

verus! {

/// The longest time that can be recorded: 2^64 seconds, less one nanosecond.
pub const MAX_TIME: u128 = 18_446_744_073_709_551_615_999_999_999;

/// What was recorded under a label.
pub struct Bucket {
    pub label: String,
    pub calls: u64,
    pub total: u128,
}

pub struct BucketView {
    pub label: Seq<char>,
    pub calls: int,
    pub total: int,
}

impl View for Bucket {
    type V = BucketView;

    open spec fn view(&self) -> BucketView {
        BucketView { label: self.label@, calls: self.calls as int, total: self.total as int }
    }
}

/// A profile of planning. Plannings nest; only the outermost one is profiled.
pub struct Profile {
    pub active: bool,
    pub depth: u32,
    pub started: Option<u128>,
    pub buckets: Vec<Bucket>,
}

pub struct ProfileView {
    pub active: bool,
    pub depth: int,
    pub started: Option<u128>,
    pub buckets: Seq<BucketView>,
}

impl View for Profile {
    type V = ProfileView;

    open spec fn view(&self) -> ProfileView {
        ProfileView {
            active: self.active,
            depth: self.depth as int,
            started: self.started,
            buckets: bucket_views(self.buckets@),
        }
    }
}

pub open spec fn bucket_views(s: Seq<Bucket>) -> Seq<BucketView> {
    Seq::new(s.len(), |i: int| s[i]@)
}

/// The profile of a planning that has ended.
pub struct Report {
    pub total: u128,
    pub buckets: Vec<Bucket>,
}

pub open spec fn is_labelled(label: Seq<char>) -> spec_fn(BucketView) -> bool {
    |b: BucketView| b.label == label
}

/// The time from one moment to a later one.
pub open spec fn elapsed(from: u128, to: u128) -> int {
    if to >= from {
        to - from
    } else {
        0
    }
}

/// The profile when nothing is being planned.
pub open spec fn idle() -> ProfileView {
    ProfileView { active: false, depth: 0, started: None, buckets: Seq::empty() }
}

impl ProfileView {
    /// Whether the profile counts its plannings rightly.
    pub open spec fn wf(self) -> bool {
        &&& self.active == (self.depth >= 1)
        &&& self.active == (self.started is Some)
        &&& self.depth >= 0
        &&& !self.active ==> self.buckets.len() == 0
    }

    /// The profile once another planning has begun at time `now`.
    pub open spec fn begun(self, enabled: bool, now: u128) -> ProfileView {
        if self.active {
            ProfileView { depth: self.depth + 1, ..self }
        } else if enabled {
            ProfileView { active: true, depth: 1, started: Some(now), buckets: Seq::empty() }
        } else {
            idle()
        }
    }

    /// The profile with one more call recorded under a label. Nothing is recorded
    /// while no planning is profiled.
    pub open spec fn recorded(self, label: Seq<char>, time: int) -> ProfileView {
        if !self.active {
            self
        } else {
            ProfileView {
                buckets: match first_where(self.buckets, is_labelled(label)) {
                    Some(i) => self.buckets.update(
                        i,
                        BucketView {
                            label,
                            calls: self.buckets[i].calls + 1,
                            total: self.buckets[i].total + time,
                        },
                    ),
                    None => self.buckets.push(BucketView { label, calls: 1, total: time }),
                },
                ..self
            }
        }
    }

    /// Whether one more call can be recorded under a label.
    pub open spec fn has_room(self, label: Seq<char>, time: int) -> bool {
        match first_where(self.buckets, is_labelled(label)) {
            Some(i) => self.buckets[i].calls < u64::MAX && self.buckets[i].total + time <= MAX_TIME,
            None => true,
        }
    }

    /// The profile once a planning has ended.
    pub open spec fn finished(self) -> ProfileView {
        if !self.active {
            self
        } else if self.depth > 1 {
            ProfileView { depth: self.depth - 1, ..self }
        } else {
            idle()
        }
    }

    /// Calls recorded under a label.
    pub open spec fn calls_of(self, label: Seq<char>) -> int {
        match first_where(self.buckets, is_labelled(label)) {
            Some(i) => self.buckets[i].calls,
            None => 0,
        }
    }

    /// Time recorded under a label.
    pub open spec fn time_of(self, label: Seq<char>) -> int {
        match first_where(self.buckets, is_labelled(label)) {
            Some(i) => self.buckets[i].total,
            None => 0,
        }
    }
}

impl Profile {
    /// The profile of a session that has planned nothing.
    pub fn new() -> (r: Profile)
        ensures
            r@ == idle(),
            r@.wf(),
    {
        let r = Profile { active: false, depth: 0, started: None, buckets: Vec::new() };
        assert(r@.buckets =~= Seq::<BucketView>::empty());
        r
    }

    /// Begins a planning. Answers whether it is the one that is profiled.
    pub fn begin(&mut self, enabled: bool, now: u128) -> (r: bool)
        requires
            old(self).depth < u32::MAX,
            old(self)@.wf(),
        ensures
            final(self)@ == old(self)@.begun(enabled, now),
            final(self)@.wf(),
            r == (enabled && !old(self).active),
    {
        if self.active {
            self.depth = self.depth + 1;
            return false;
        }
        self.active = enabled;
        self.depth = if enabled {
            1
        } else {
            0
        };
        self.started = if enabled {
            Some(now)
        } else {
            None
        };
        self.buckets = Vec::new();
        assert(self@.buckets =~= Seq::<BucketView>::empty());
        enabled
    }

    /// When a part of planning starts, where planning is profiled.
    pub fn scope(&self, now: u128) -> (r: Option<u128>)
        ensures
            r == if self.active {
                Some(now)
            } else {
                None
            },
    {
        if self.active {
            Some(now)
        } else {
            None
        }
    }

    fn find(&self, label: &str) -> (r: Option<usize>)
        ensures
            match r {
                Some(i) => first_where(self@.buckets, is_labelled(label@)) == Some(i as int) && i
                    < self.buckets@.len(),
                None => first_where(self@.buckets, is_labelled(label@)) is None,
            },
    {
        let mut i: usize = 0;
        while i < self.buckets.len()
            invariant
                i <= self.buckets.len(),
                forall|j: int| 0 <= j < i ==> (#[trigger] self@.buckets[j]).label != label@,
            decreases self.buckets.len() - i,
        {
            if text_is(self.buckets[i].label.as_str(), label) {
                proof {
                    lemma_first_is(self@.buckets, is_labelled(label@), i as int);
                }
                return Some(i);
            }
            i += 1;
        }
        proof {
            lemma_first_none(self@.buckets, is_labelled(label@));
        }
        None
    }

    /// Whether one more call can be recorded under a label.
    pub fn can_record(&self, label: &str, time: u128) -> (r: bool)
        requires
            time <= MAX_TIME,
        ensures
            r == self@.has_room(label@, time as int),
    {
        match self.find(label) {
            Some(i) => {
                assert(self@.buckets[i as int] == self.buckets@[i as int]@);
                self.buckets[i].calls < u64::MAX && self.buckets[i].total <= MAX_TIME - time
            },
            None => true,
        }
    }

    /// Records a call under a label.
    pub fn record(&mut self, label: &str, time: u128)
        requires
            time <= MAX_TIME,
            old(self)@.has_room(label@, time as int),
            old(self)@.wf(),
        ensures
            final(self)@ == old(self)@.recorded(label@, time as int),
            final(self)@.wf(),
    {
        if !self.active {
            return;
        }
        let ghost before = self@.buckets;
        match self.find(label) {
            Some(i) => {
                proof {
                    lemma_first_where(before, is_labelled(label@));
                }
                assert(before[i as int] == self.buckets@[i as int]@);
                self.buckets[i].calls = self.buckets[i].calls + 1;
                self.buckets[i].total = self.buckets[i].total + time;
                assert(self@.buckets =~= old(self)@.recorded(label@, time as int).buckets);
            },
            None => {
                self.buckets.push(Bucket { label: label.to_owned(), calls: 1, total: time });
                assert(self@.buckets =~= old(self)@.recorded(label@, time as int).buckets);
            },
        }
    }

    /// Records a call that took no time.
    pub fn count(&mut self, label: &str)
        requires
            old(self)@.has_room(label@, 0),
            old(self)@.wf(),
        ensures
            final(self)@ == old(self)@.recorded(label@, 0),
            final(self)@.wf(),
    {
        self.record(label, 0);
    }

    /// Ends a planning. Answers the profile where it was the one that is profiled.
    pub fn finish(&mut self, now: u128) -> (r: Option<Report>)
        requires
            old(self)@.wf(),
        ensures
            final(self)@ == old(self)@.finished(),
            final(self)@.wf(),
            match r {
                Some(p) => {
                    &&& old(self)@.depth == 1
                    &&& p.total == elapsed(old(self)@.started->0, now)
                    &&& bucket_views(p.buckets@) == old(self)@.buckets
                },
                None => old(self)@.depth != 1,
            },
    {
        if !self.active {
            return None;
        }
        if self.depth > 1 {
            self.depth = self.depth - 1;
            return None;
        }
        let total: u128 = match self.started {
            Some(t) => if now >= t {
                now - t
            } else {
                0
            },
            None => 0,
        };
        let mut buckets: Vec<Bucket> = Vec::new();
        std::mem::swap(&mut self.buckets, &mut buckets);
        self.active = false;
        self.depth = 0;
        self.started = None;
        assert(self@.buckets =~= Seq::<BucketView>::empty());
        Some(Report { total, buckets })
    }
}

/// A planning within another leaves the profile as it was.
pub proof fn lemma_nested_planning(p: ProfileView, enabled: bool, now: u128)
    requires
        p.wf(),
        p.active,
    ensures
        p.begun(enabled, now).finished() == p,
{
}

/// What a planning within another records stays recorded when it ends.
pub proof fn lemma_nested_records(
    p: ProfileView,
    enabled: bool,
    now: u128,
    label: Seq<char>,
    time: int,
)
    requires
        p.wf(),
        p.active,
    ensures
        p.begun(enabled, now).recorded(label, time).finished() == p.recorded(label, time),
{
}

/// After the outermost planning the profile is as before it.
pub proof fn lemma_outermost_planning(
    p: ProfileView,
    enabled: bool,
    now: u128,
    label: Seq<char>,
    time: int,
)
    requires
        p.wf(),
        !p.active,
    ensures
        p.begun(enabled, now).recorded(label, time).finished() == p,
{
    assert(p.buckets =~= Seq::<BucketView>::empty());
}

/// A record counts under its label, and under no other.
pub proof fn lemma_recorded(p: ProfileView, label: Seq<char>, time: int, other: Seq<char>)
    requires
        p.active,
    ensures
        ({
            let q = p.recorded(label, time);
            &&& q.calls_of(label) == p.calls_of(label) + 1
            &&& q.time_of(label) == p.time_of(label) + time
            &&& other != label ==> q.calls_of(other) == p.calls_of(other) && q.time_of(other)
                == p.time_of(other)
        }),
{
    let q = p.recorded(label, time);
    let mine = is_labelled(label);
    let theirs = is_labelled(other);
    lemma_first_where(p.buckets, mine);
    lemma_first_where(p.buckets, theirs);
    match first_where(p.buckets, mine) {
        Some(i) => {
            assert forall|j: int| 0 <= j < i implies !mine(q.buckets[j]) by {
                assert(!mine(p.buckets[j]));
            }
            lemma_first_is(q.buckets, mine, i);
        },
        None => {
            assert forall|j: int| 0 <= j < p.buckets.len() implies !mine(q.buckets[j]) by {
                assert(!mine(p.buckets[j]));
            }
            lemma_first_is(q.buckets, mine, p.buckets.len() as int);
        },
    }
    if other != label {
        match first_where(p.buckets, theirs) {
            Some(i) => {
                assert forall|j: int| 0 <= j < i implies !theirs(q.buckets[j]) by {
                    assert(!theirs(p.buckets[j]));
                }
                lemma_first_is(q.buckets, theirs, i);
            },
            None => {
                assert forall|j: int| 0 <= j < q.buckets.len() implies !theirs(q.buckets[j]) by {
                    if j < p.buckets.len() {
                        assert(!theirs(p.buckets[j]));
                    }
                }
                lemma_first_none(q.buckets, theirs);
            },
        }
    }
}

} // verus!
