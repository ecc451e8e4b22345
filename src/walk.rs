//! The cutoff-bounded history walk: commits are taken in the provider's
//! traversal order, counted while they are at or after the cutoff, and the
//! walk stops for good at the first one that is older.
use vstd::prelude::*;
use crate::time::NormalizedTime;

verus! {

/// Whether the first `n` instants of `times` make up the qualifying prefix:
/// each of them is at or after `cutoff`, and the instant right after them,
/// if any, is older.
pub open spec fn is_qualifying_prefix(times: Seq<NormalizedTime>, cutoff: NormalizedTime, n: int) -> bool {
    &&& 0 <= n <= times.len()
    &&& forall|i: int| 0 <= i < n ==> #[trigger] times[i].utc_seconds >= cutoff.utc_seconds
    &&& n < times.len() ==> times[n].utc_seconds < cutoff.utc_seconds
}

/// The position of the oldest qualifying commit, given the prefix length.
pub open spec fn oldest_of(count: nat) -> Option<nat> {
    if count == 0 {
        None
    } else {
        Some((count - 1) as nat)
    }
}

/// What the walker says of one inspected commit.
#[derive(Clone, Copy, Debug, PartialEq, Eq, Structural)]
pub enum Step {
    /// The commit is at or after the cutoff: it is now the oldest qualifying
    /// commit, and the walk goes on.
    Qualifies,
    /// The commit is older than the cutoff, or the walk had already ended:
    /// inspect nothing further.
    Stop,
}

/// The outcome of a walk: how many commits qualified, and the position in
/// traversal order of the oldest of them.
#[derive(Clone, Copy, Debug, PartialEq, Eq, Structural)]
pub struct WalkResult {
    pub count: u64,
}

impl WalkResult {
    /// Number of consecutive qualifying commits from the start of the walk.
    pub fn count(&self) -> (r: u64)
        ensures
            r == self.count,
    {
        self.count
    }

    /// Position, in traversal order, of the last qualifying commit visited;
    /// `None` when no commit qualified.
    pub fn oldest(&self) -> (r: Option<u64>)
        ensures
            r is None <==> self.count == 0,
            r is Some ==> r->0 == self.count - 1,
    {
        if self.count == 0 {
            None
        } else {
            Some(self.count - 1)
        }
    }

    /// Whether any commit qualified.
    pub fn is_empty(&self) -> (r: bool)
        ensures
            r == (self.count == 0),
    {
        self.count == 0
    }
}

/// A walk in progress, fed one inspected commit time at a time.
pub struct Walker {
    cutoff: NormalizedTime,
    count: u64,
    stopped: bool,
    inspected: Ghost<Seq<NormalizedTime>>,
}

impl Walker {
    /// The instants inspected so far, in traversal order.
    pub closed spec fn inspected(&self) -> Seq<NormalizedTime> {
        self.inspected@
    }

    pub closed spec fn cutoff_spec(&self) -> NormalizedTime {
        self.cutoff
    }

    pub closed spec fn count_spec(&self) -> nat {
        self.count as nat
    }

    pub closed spec fn is_stopped(&self) -> bool {
        self.stopped
    }

    /// The walker's invariant: the count is the qualifying prefix of what was
    /// inspected, and a stopped walk ends with its one older commit.
    pub closed spec fn wf(&self) -> bool {
        &&& self.count <= self.inspected@.len()
        &&& forall|i: int|
            0 <= i < self.count ==> #[trigger] self.inspected@[i].utc_seconds
                >= self.cutoff.utc_seconds
        &&& if self.stopped {
            &&& self.inspected@.len() == self.count + 1
            &&& self.inspected@[self.count as int].utc_seconds < self.cutoff.utc_seconds
        } else {
            self.inspected@.len() == self.count
        }
    }

    /// A walk against `cutoff` that has inspected nothing yet.
    pub fn new(cutoff: NormalizedTime) -> (r: Walker)
        ensures
            r.wf(),
            r.cutoff_spec() == cutoff,
            r.inspected() == Seq::<NormalizedTime>::empty(),
            r.count_spec() == 0,
            !r.is_stopped(),
    {
        Walker { cutoff, count: 0, stopped: false, inspected: Ghost(Seq::empty()) }
    }

    /// Number of qualifying commits so far.
    pub fn count(&self) -> (r: u64)
        ensures
            r == self.count_spec(),
    {
        self.count
    }

    /// Whether the walk has ended.
    pub fn stopped(&self) -> (r: bool)
        ensures
            r == self.is_stopped(),
    {
        self.stopped
    }

    /// Inspects the next commit's instant. A qualifying one is counted and
    /// becomes the oldest qualifying commit; the first older one ends the
    /// walk, and after that nothing is inspected any more.
    pub fn step(&mut self, t: NormalizedTime) -> (r: Step)
        requires
            old(self).wf(),
            old(self).count_spec() < u64::MAX,
        ensures
            final(self).wf(),
            final(self).cutoff_spec() == old(self).cutoff_spec(),
            old(self).is_stopped() ==> r == Step::Stop && *final(self) == *old(self),
            !old(self).is_stopped() ==> final(self).inspected() == old(self).inspected().push(t),
            !old(self).is_stopped() && t.utc_seconds >= old(self).cutoff_spec().utc_seconds ==> {
                &&& r == Step::Qualifies
                &&& final(self).count_spec() == old(self).count_spec() + 1
                &&& !final(self).is_stopped()
            },
            !old(self).is_stopped() && t.utc_seconds < old(self).cutoff_spec().utc_seconds ==> {
                &&& r == Step::Stop
                &&& final(self).count_spec() == old(self).count_spec()
                &&& final(self).is_stopped()
            },
    {
        if self.stopped {
            return Step::Stop;
        }
        self.inspected = Ghost(self.inspected@.push(t));
        if t.is_at_or_after(&self.cutoff) {
            self.count = self.count + 1;
            Step::Qualifies
        } else {
            self.stopped = true;
            Step::Stop
        }
    }

    /// The outcome so far.
    pub fn result(&self) -> (r: WalkResult)
        requires
            self.wf(),
        ensures
            r.count == self.count_spec(),
            self.is_stopped() ==> is_qualifying_prefix(
                self.inspected(),
                self.cutoff_spec(),
                r.count as int,
            ),
            forall|i: int| 0 <= i < r.count ==> #[trigger] self.inspected()[i].utc_seconds
                >= self.cutoff_spec().utc_seconds,
    {
        WalkResult { count: self.count }
    }
}

/// Walks `times`, given in traversal order, against `cutoff`: counts the
/// leading run of instants at or after the cutoff and stops at the first
/// older one.
pub fn walk(times: &Vec<NormalizedTime>, cutoff: NormalizedTime) -> (r: WalkResult)
    ensures
        is_qualifying_prefix(times@, cutoff, r.count as int),
{
    let mut w = Walker::new(cutoff);
    let mut i: usize = 0;
    while i < times.len()
        invariant
            w.wf(),
            w.cutoff_spec() == cutoff,
            i <= times.len(),
            w.inspected() == times@.subrange(0, i as int),
            !w.is_stopped(),
            w.count_spec() == i,
        decreases times.len() - i,
    {
        let s = w.step(times[i]);
        if s == Step::Stop {
            assert(w.inspected()[i as int] == times@[i as int]);
            let r = w.result();
            assert(forall|k: int| 0 <= k < i ==> w.inspected()[k] == times@[k]);
            return r;
        }
        i = i + 1;
        assert(w.inspected() =~= times@.subrange(0, i as int));
    }
    assert(w.inspected() =~= times@);
    w.result()
}

/// A walk counts exactly one qualifying prefix: the count, the commits it
/// includes and the place where it stopped are fixed by the instants alone,
/// and no commit after the first older one is ever counted.
pub proof fn lemma_prefix_unique(times: Seq<NormalizedTime>, cutoff: NormalizedTime, n: int, m: int)
    requires
        is_qualifying_prefix(times, cutoff, n),
        is_qualifying_prefix(times, cutoff, m),
    ensures
        n == m,
{
    if n < m {
        assert(times[n].utc_seconds >= cutoff.utc_seconds);
    } else if m < n {
        assert(times[m].utc_seconds >= cutoff.utc_seconds);
    }
}

/// When every commit of a history is at or after the cutoff, the walk counts
/// them all, and the oldest qualifying commit is the last one visited: the
/// root commit of the history.
pub proof fn lemma_all_recent(times: Seq<NormalizedTime>, cutoff: NormalizedTime, n: int)
    requires
        forall|i: int| 0 <= i < times.len() ==> #[trigger] times[i].utc_seconds >= cutoff.utc_seconds,
        is_qualifying_prefix(times, cutoff, n),
    ensures
        n == times.len(),
        times.len() > 0 ==> oldest_of(n as nat) == Some((times.len() - 1) as nat),
{
    if n < times.len() {
        assert(times[n].utc_seconds >= cutoff.utc_seconds);
    }
}

/// A history whose commits are all older than the cutoff has no qualifying
/// commit, so its repository gets no summary.
pub proof fn lemma_none_recent(times: Seq<NormalizedTime>, cutoff: NormalizedTime, n: int)
    requires
        forall|i: int| 0 <= i < times.len() ==> #[trigger] times[i].utc_seconds < cutoff.utc_seconds,
        is_qualifying_prefix(times, cutoff, n),
    ensures
        n == 0,
        oldest_of(n as nat) is None,
{
    if n > 0 {
        assert(times[0].utc_seconds >= cutoff.utc_seconds);
    }
}

} // verus!
