//! A participant's bounded evidence buffer, and the integer part of its state.
use vstd::prelude::*;
use std::collections::VecDeque;

verus! {

/// How many evidence entries a participant keeps before folding the oldest
/// into its prior.
pub const EVIDENCE_CAP: usize = 50000;

/// Evidence in insertion order, oldest first, never more than its limit.
pub struct EvidenceQueue<T> {
    items: VecDeque<T>,
    limit: usize,
}

impl<T> View for EvidenceQueue<T> {
    type V = Seq<T>;

    closed spec fn view(&self) -> Seq<T> {
        self.items@
    }
}

impl<T> EvidenceQueue<T> {
    /// Holds for every buffer that `new` or `with_limit` made, and every
    /// method keeps it.
    pub closed spec fn wf(&self) -> bool {
        0 < self.limit && self.items@.len() <= self.limit
    }

    /// The most entries the buffer holds.
    pub closed spec fn limit(&self) -> nat {
        self.limit as nat
    }

    /// An empty buffer holding at most `EVIDENCE_CAP` entries.
    pub fn new() -> (r: Self)
        ensures
            r.wf(),
            r@ == Seq::<T>::empty(),
            r.limit() == EVIDENCE_CAP,
    {
        EvidenceQueue { items: VecDeque::new(), limit: EVIDENCE_CAP }
    }

    /// An empty buffer holding at most `limit` entries.
    pub fn with_limit(limit: usize) -> (r: Self)
        requires
            limit > 0,
        ensures
            r.wf(),
            r@ == Seq::<T>::empty(),
            r.limit() == limit,
    {
        EvidenceQueue { items: VecDeque::new(), limit }
    }

    /// How many entries are held; never more than the limit.
    pub fn len(&self) -> (r: usize)
        requires
            self.wf(),
        ensures
            r == self@.len(),
            r <= self.limit(),
    {
        self.items.len()
    }

    pub fn max_len(&self) -> (r: usize)
        ensures
            r == self.limit(),
    {
        self.limit
    }

    /// The entry at `i`, oldest first.
    pub fn get(&self, i: usize) -> (r: &T)
        requires
            i < self@.len(),
        ensures
            *r == self@[i as int],
    {
        &self.items[i]
    }

    /// The newest entry, if any.
    pub fn newest(&self) -> (r: Option<&T>)
        ensures
            match r {
                Some(x) => self@.len() > 0 && *x == self@.last(),
                None => self@.len() == 0,
            },
    {
        let n = self.items.len();
        if n == 0 {
            None
        } else {
            Some(&self.items[n - 1])
        }
    }

    /// Appends `x`. When the buffer is full, the oldest entry leaves first
    /// and is handed back, to be folded into the prior.
    pub fn push(&mut self, x: T) -> (evicted: Option<T>)
        requires
            old(self).wf(),
        ensures
            final(self).wf(),
            final(self).limit() == old(self).limit(),
            final(self)@.len() <= final(self).limit(),
            if old(self)@.len() == old(self).limit() {
                &&& evicted == Some(old(self)@[0])
                &&& final(self)@ == old(self)@.drop_first().push(x)
            } else {
                &&& evicted is None
                &&& final(self)@ == old(self)@.push(x)
            },
    {
        let evicted = if self.items.len() == self.limit {
            self.items.pop_front()
        } else {
            None
        };
        self.items.push_back(x);
        evicted
    }

    /// Replaces every entry `e` by `f(e)`, in place and in order.
    pub fn update_all<F: Fn(T) -> T>(&mut self, f: F)
        requires
            old(self).wf(),
            forall|x: T| #[trigger] f.requires((x,)),
        ensures
            final(self).wf(),
            final(self).limit() == old(self).limit(),
            final(self)@.len() == old(self)@.len(),
            forall|i: int|
                0 <= i < old(self)@.len() ==> f.ensures((#[trigger] old(self)@[i],), final(self)@[i]),
    {
        let n = self.items.len();
        let ghost start = self.items@;
        let mut k: usize = 0;
        while k < n
            invariant
                forall|x: T| #[trigger] f.requires((x,)),
                n == start.len(),
                k <= n,
                self.limit == old(self).limit,
                start == old(self)@,
                self.items@.len() == n,
                forall|i: int| 0 <= i < n - k ==> self.items@[i] == start[i + k],
                forall|i: int|
                    n - k <= i < n ==> f.ensures((#[trigger] start[i - (n - k)],), self.items@[i]),
            decreases n - k,
        {
            let ghost before = self.items@;
            let x = self.items.pop_front().unwrap();
            let y = f(x);
            self.items.push_back(y);
            proof {
                assert forall|i: int| n - (k + 1) <= i < n implies f.ensures(
                    (#[trigger] start[i - (n - (k + 1))],),
                    self.items@[i],
                ) by {
                    if i < n - 1 {
                        assert(self.items@[i] == before[i + 1]);
                        assert(start[i - (n - (k + 1))] == start[(i + 1) - (n - k)]);
                    }
                }
            }
            k = k + 1;
        }
        assert forall|i: int| 0 <= i < n implies f.ensures((#[trigger] start[i],), self.items@[i]) by {
            assert(start[i - (n - k)] == start[i]);
        }
    }
}

/// What a participant keeps besides its beliefs: the evidence buffer (of
/// whatever belief type the rating model uses) and the integer bookkeeping.
pub struct Participant<B> {
    evidence: EvidenceQueue<B>,
    peak_rating: i32,
    last_rating: i32,
    last_event: usize,
}

impl<B> Participant<B> {
    pub closed spec fn evidence_view(&self) -> EvidenceQueue<B> {
        self.evidence
    }

    pub closed spec fn peak(&self) -> i32 {
        self.peak_rating
    }

    pub closed spec fn last_published(&self) -> i32 {
        self.last_rating
    }

    pub closed spec fn latest_event(&self) -> usize {
        self.last_event
    }

    pub open spec fn wf(&self) -> bool {
        self.evidence_view().wf()
    }

    /// A participant seen for the first time: no evidence, every integer at 0.
    pub fn new() -> (r: Self)
        ensures
            r.wf(),
            r.evidence_view()@ == Seq::<B>::empty(),
            r.evidence_view().limit() == EVIDENCE_CAP,
            r.peak() == 0,
            r.last_published() == 0,
            r.latest_event() == 0,
    {
        Participant {
            evidence: EvidenceQueue::new(),
            peak_rating: 0,
            last_rating: 0,
            last_event: 0,
        }
    }

    pub fn evidence(&self) -> (r: &EvidenceQueue<B>)
        ensures
            *r == self.evidence_view(),
    {
        &self.evidence
    }

    pub fn peak_rating(&self) -> (r: i32)
        ensures
            r == self.peak(),
    {
        self.peak_rating
    }

    pub fn last_rating(&self) -> (r: i32)
        ensures
            r == self.last_published(),
    {
        self.last_rating
    }

    pub fn last_event(&self) -> (r: usize)
        ensures
            r == self.latest_event(),
    {
        self.last_event
    }

    /// Adds one evidence entry; when the buffer is full the oldest entry is
    /// handed back, for the caller to fold into its prior.
    pub fn add_evidence(&mut self, b: B) -> (evicted: Option<B>)
        requires
            old(self).wf(),
        ensures
            final(self).wf(),
            final(self).peak() == old(self).peak(),
            final(self).last_published() == old(self).last_published(),
            final(self).latest_event() == old(self).latest_event(),
            final(self).evidence_view().limit() == old(self).evidence_view().limit(),
            if old(self).evidence_view()@.len() == old(self).evidence_view().limit() {
                &&& evicted == Some(old(self).evidence_view()@[0])
                &&& final(self).evidence_view()@ == old(self).evidence_view()@.drop_first().push(b)
            } else {
                &&& evicted is None
                &&& final(self).evidence_view()@ == old(self).evidence_view()@.push(b)
            },
    {
        self.evidence.push(b)
    }

    /// Replaces every evidence entry `e` by `f(e)`, in order.
    pub fn update_evidence<F: Fn(B) -> B>(&mut self, f: F)
        requires
            old(self).wf(),
            forall|x: B| #[trigger] f.requires((x,)),
        ensures
            final(self).wf(),
            final(self).peak() == old(self).peak(),
            final(self).last_published() == old(self).last_published(),
            final(self).latest_event() == old(self).latest_event(),
            final(self).evidence_view().limit() == old(self).evidence_view().limit(),
            final(self).evidence_view()@.len() == old(self).evidence_view()@.len(),
            forall|i: int|
                0 <= i < old(self).evidence_view()@.len() ==> f.ensures(
                    (#[trigger] old(self).evidence_view()@[i],),
                    final(self).evidence_view()@[i],
                ),
    {
        self.evidence.update_all(f)
    }

    /// Records a newly computed displayed rating: the peak becomes the larger
    /// of the two, so it never falls.
    pub fn note_rating(&mut self, rating: i32)
        ensures
            final(self).peak() == if rating > old(self).peak() {
                rating
            } else {
                old(self).peak()
            },
            final(self).peak() >= old(self).peak(),
            final(self).evidence_view() == old(self).evidence_view(),
            final(self).last_published() == old(self).last_published(),
            final(self).latest_event() == old(self).latest_event(),
    {
        if rating > self.peak_rating {
            self.peak_rating = rating;
        }
    }

    /// Records the rating displayed before the next event.
    pub fn publish(&mut self, rating: i32)
        ensures
            final(self).last_published() == rating,
            final(self).evidence_view() == old(self).evidence_view(),
            final(self).peak() == old(self).peak(),
            final(self).latest_event() == old(self).latest_event(),
    {
        self.last_rating = rating;
    }

    /// Records the event the participant last took part in.
    pub fn stamp_event(&mut self, event: usize)
        ensures
            final(self).latest_event() == event,
            final(self).evidence_view() == old(self).evidence_view(),
            final(self).peak() == old(self).peak(),
            final(self).last_published() == old(self).last_published(),
    {
        self.last_event = event;
    }
}

/// Evidence never outgrows its buffer: whatever was pushed, a buffer holds
/// at most its limit.
pub proof fn lemma_evidence_bounded<T>(q: &EvidenceQueue<T>)
    requires
        q.wf(),
    ensures
        q@.len() <= q.limit(),
{
}

} // verus!
