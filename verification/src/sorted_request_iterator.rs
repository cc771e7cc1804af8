//! The bounded-delay reordering buffer.
//!
//! Records may arrive with timestamps slightly out of order.  The buffer
//! holds each record until no later arrival can precede it — a record is
//! safe once its timestamp falls more than `buffer_seconds` (twice the
//! permitted timestamp error) behind the largest timestamp seen — and
//! releases records in non-decreasing timestamp order, preserving every
//! record exactly once and keeping arrival order among equal timestamps.
//! A record that arrives after its slot was already released is a fatal
//! chronology violation.

use std::collections::VecDeque;

use vstd::multiset::Multiset;
use vstd::prelude::*;
use vstd::seq_lib::lemma_multiset_commutative;

use crate::models::{ChronologyError, Config, RecordView, RequestRecord};

verus! {

/// Timestamps are non-decreasing along the sequence.
pub open spec fn sorted_dates(s: Seq<RecordView>) -> bool {
    forall|i: int, j: int| 0 <= i <= j < s.len() ==> (#[trigger] s[i]).date <= (#[trigger] s[j]).date
}

/// The largest timestamp in `s`, or 0 for an empty sequence (the
/// buffer's initial watermark).
pub open spec fn max_date(s: Seq<RecordView>) -> int
    decreases s.len(),
{
    if s.len() == 0 {
        0
    } else if s.last().date >= max_date(s.drop_last()) {
        s.last().date
    } else {
        max_date(s.drop_last())
    }
}

/// The stable insertion point for a record with timestamp `d`: the end
/// of the longest prefix whose timestamps are at most `d`.
pub open spec fn insort_pos(s: Seq<RecordView>, d: int) -> int
    decreases s.len(),
{
    if s.len() == 0 {
        0
    } else if s[0].date <= d {
        1 + insort_pos(s.drop_first(), d)
    } else {
        0
    }
}

/// Stable insertion of `r` into `s`: after every element whose
/// timestamp is at most `r.date`.
pub open spec fn insort(s: Seq<RecordView>, r: RecordView) -> Seq<RecordView> {
    s.insert(insort_pos(s, r.date), r)
}

/// The stable sort of `s` by timestamp: records inserted one by one, in
/// arrival order, each at its stable position.
pub open spec fn stable_sorted(s: Seq<RecordView>) -> Seq<RecordView>
    decreases s.len(),
{
    if s.len() == 0 {
        Seq::empty()
    } else {
        insort(stable_sorted(s.drop_last()), s.last())
    }
}

pub proof fn lemma_insort_pos_bounds(s: Seq<RecordView>, d: int)
    ensures
        0 <= insort_pos(s, d) <= s.len(),
        forall|j: int| 0 <= j < insort_pos(s, d) ==> (#[trigger] s[j]).date <= d,
        insort_pos(s, d) < s.len() ==> s[insort_pos(s, d)].date > d,
    decreases s.len(),
{
    if s.len() > 0 && s[0].date <= d {
        lemma_insort_pos_bounds(s.drop_first(), d);
        let p = insort_pos(s, d);
        assert forall|j: int| 0 <= j < p implies (#[trigger] s[j]).date <= d by {
            if j > 0 {
                assert(s.drop_first()[j - 1] == s[j]);
            }
        }
        if p < s.len() {
            assert(s.drop_first()[p - 1] == s[p]);
        }
    }
}

/// The insertion point is exactly the boundary between a prefix of
/// timestamps at most `d` and a suffix of larger timestamps.
pub proof fn lemma_insort_pos_of_split(s: Seq<RecordView>, d: int, i: int)
    requires
        0 <= i <= s.len(),
        forall|j: int| 0 <= j < i ==> (#[trigger] s[j]).date <= d,
        forall|j: int| i <= j < s.len() ==> (#[trigger] s[j]).date > d,
    ensures
        insort_pos(s, d) == i,
    decreases s.len(),
{
    if s.len() > 0 {
        if i == 0 {
            assert(s[0].date > d);
        } else {
            assert(s[0].date <= d);
            assert forall|j: int| 0 <= j < i - 1 implies (#[trigger] s.drop_first()[j]).date
                <= d by {
                assert(s.drop_first()[j] == s[j + 1]);
            }
            assert forall|j: int| i - 1 <= j < s.drop_first().len() implies (
            #[trigger] s.drop_first()[j]).date > d by {
                assert(s.drop_first()[j] == s[j + 1]);
            }
            lemma_insort_pos_of_split(s.drop_first(), d, i - 1);
        }
    }
}

/// Stable insertion keeps the sequence sorted.
pub proof fn lemma_insort_sorted(s: Seq<RecordView>, r: RecordView)
    requires
        sorted_dates(s),
    ensures
        sorted_dates(insort(s, r)),
{
    lemma_insort_pos_bounds(s, r.date);
    let p = insort_pos(s, r.date);
    let s2 = insort(s, r);
    assert forall|i: int, j: int| 0 <= i <= j < s2.len() implies (#[trigger] s2[i]).date <= (
    #[trigger] s2[j]).date by {
        if p < s.len() {
            assert(s[p].date > r.date);
        }
        if i < p {
            assert(s2[i] == s[i]);
        } else if i > p {
            assert(s2[i] == s[i - 1]);
        }
        if j < p {
            assert(s2[j] == s[j]);
        } else if j > p {
            assert(s2[j] == s[j - 1]);
        }
        if p < s.len() && j > p && i <= p {
            assert(s[p].date <= s[j - 1].date);
        }
    }
}

/// Stable insertion adds exactly the inserted record.
pub proof fn lemma_insort_multiset(s: Seq<RecordView>, r: RecordView)
    ensures
        insort(s, r).to_multiset() == s.to_multiset().insert(r),
{
    broadcast use vstd::seq_lib::group_to_multiset_ensures;

    lemma_insort_pos_bounds(s, r.date);
    let p = insort_pos(s, r.date);
    let s2 = insort(s, r);
    assert(s2 =~= s.take(p) + (seq![r] + s.skip(p)));
    lemma_multiset_commutative(s.take(p), seq![r] + s.skip(p));
    lemma_multiset_commutative(seq![r], s.skip(p));
    assert(s =~= s.take(p) + s.skip(p));
    lemma_multiset_commutative(s.take(p), s.skip(p));
    assert(seq![r].to_multiset() =~= Multiset::<RecordView>::empty().insert(r));
    assert(s2.to_multiset() =~= s.to_multiset().insert(r));
}

/// The ordering half of the reordering guarantee: the stable sort of
/// any arrival sequence is non-decreasing in timestamp.
pub proof fn lemma_stable_sorted_sorted(s: Seq<RecordView>)
    ensures
        sorted_dates(stable_sorted(s)),
    decreases s.len(),
{
    if s.len() > 0 {
        lemma_stable_sorted_sorted(s.drop_last());
        lemma_insort_sorted(stable_sorted(s.drop_last()), s.last());
    }
}

/// The permutation half of the reordering guarantee: the stable sort
/// holds exactly the arrival records, each exactly once.
pub proof fn lemma_stable_sorted_multiset(s: Seq<RecordView>)
    ensures
        stable_sorted(s).to_multiset() == s.to_multiset(),
    decreases s.len(),
{
    broadcast use vstd::seq_lib::group_to_multiset_ensures;

    if s.len() > 0 {
        lemma_stable_sorted_multiset(s.drop_last());
        lemma_insort_multiset(stable_sorted(s.drop_last()), s.last());
        assert(s.drop_last().push(s.last()) =~= s);
    }
}

/// Appending a record moves the maximum up to its timestamp.
pub proof fn lemma_max_date_push(s: Seq<RecordView>, r: RecordView)
    ensures
        max_date(s.push(r)) == if r.date >= max_date(s) {
            r.date
        } else {
            max_date(s)
        },
{
    assert(s.push(r).drop_last() =~= s);
    assert(s.push(r).last() == r);
}

/// Mathematical state of the reordering buffer.
pub struct BufferModel {
    /// Seconds of buffering: twice the permitted timestamp error.
    pub buffer_seconds: int,
    /// The largest timestamp among the records pushed so far.
    pub largest: int,
    /// Whether the raw source was declared exhausted.
    pub finished: bool,
    /// Records whose order is still indeterminate, sorted by timestamp
    /// (stable in arrival order).
    pub pending: Seq<RecordView>,
    /// Records whose order is settled but not yet popped.
    pub ready: Seq<RecordView>,
    /// Every record accepted so far, in arrival order.
    pub pushed: Seq<RecordView>,
    /// Every record popped so far, in pop order.
    pub emitted: Seq<RecordView>,
}

/// Buffers a stream of records so they can be popped in timestamp
/// order.  Fails on a record whose timestamp is more than
/// `buffer_seconds` behind the largest previously seen timestamp.
pub struct SortedRequestIterator {
    /// The number of seconds of records to buffer.
    buffer_seconds: u64,
    /// The maximum timestamp of the records pushed so far.
    largest_timestamp: u32,
    /// Whether the raw source was declared exhausted.
    finished: bool,
    /// Records whose order is still indeterminate.
    pending: Vec<RequestRecord>,
    /// Records whose order is now known, but haven't been popped yet.
    ready: VecDeque<RequestRecord>,
    /// Every record accepted so far, in arrival order.
    pushed: Ghost<Seq<RecordView>>,
    /// Every record popped so far, in pop order.
    emitted: Ghost<Seq<RecordView>>,
}

impl View for SortedRequestIterator {
    type V = BufferModel;

    closed spec fn view(&self) -> BufferModel {
        BufferModel {
            buffer_seconds: self.buffer_seconds as int,
            largest: self.largest_timestamp as int,
            finished: self.finished,
            pending: self.pending@.map_values(|r: RequestRecord| r@),
            ready: self.ready@.map_values(|r: RequestRecord| r@),
            pushed: self.pushed@,
            emitted: self.emitted@,
        }
    }
}

impl SortedRequestIterator {
    /// Everything the buffer still holds, in release order, after what
    /// it has already released.
    pub open spec fn all_records(&self) -> Seq<RecordView> {
        self@.emitted + self@.ready + self@.pending
    }

    /// Nothing stays pending once it is out of reach of future arrivals:
    /// between pushes, the pending set holds exactly the records whose
    /// timestamps are still within the buffered window of the watermark.
    /// Together with `wf` this pins the release boundary exactly.
    pub open spec fn settled(&self) -> bool {
        self@.finished || forall|i: int|
            0 <= i < self@.pending.len() ==> (#[trigger] self@.pending[i]).date
                + self@.buffer_seconds >= self@.largest
    }

    /// Well-formed buffer: what was released and what is held is, in
    /// order, exactly the stable sort of what arrived; the watermark is
    /// the largest arrival timestamp; and nothing leaves the pending
    /// set until it is out of reach of future arrivals.
    pub open spec fn wf(&self) -> bool {
        &&& self.all_records() == stable_sorted(self@.pushed)
        &&& self@.largest == max_date(self@.pushed)
        &&& !self@.finished ==> forall|i: int|
            0 <= i < self@.emitted.len() + self@.ready.len() ==> (#[trigger] self.all_records()[i]).date
                + self@.buffer_seconds < self@.largest
        &&& self@.finished ==> self@.pending.len() == 0
        &&& 0 <= self@.buffer_seconds <= 2 * (u32::MAX as int)
    }

    /// Creates an empty buffer holding `2 × maximum_timestamp_error`
    /// seconds of records.
    pub fn new(config: &Config) -> (it: Self)
        ensures
            it.wf(),
            !it@.finished,
            it@.pushed.len() == 0,
            it@.emitted.len() == 0,
            it@.ready.len() == 0,
            it@.pending.len() == 0,
            it@.buffer_seconds == config.spec_buffer_seconds(),
    {
        let it = SortedRequestIterator {
            buffer_seconds: 2 * (config.maximum_timestamp_error as u64),
            largest_timestamp: 0,
            finished: false,
            pending: Vec::new(),
            ready: VecDeque::new(),
            pushed: Ghost(Seq::empty()),
            emitted: Ghost(Seq::empty()),
        };
        proof {
            assert(it.all_records() =~= Seq::<RecordView>::empty());
        }
        it
    }

    /// Accepts the next raw record.  The record is refused — a fatal
    /// chronology violation, leaving the buffer unchanged — exactly
    /// when its timestamp is more than `buffer_seconds` behind the
    /// watermark, so that its slot may already have been released.
    pub fn push(&mut self, record: &RequestRecord) -> (r: Result<(), ChronologyError>)
        requires
            old(self).wf(),
            !old(self)@.finished,
        ensures
            final(self).wf(),
            r is Ok <==> record@.date + old(self)@.buffer_seconds >= old(self)@.largest,
            r is Err ==> final(self)@ == old(self)@ && r == Err::<(), ChronologyError>(
                ChronologyError { date: record.date, watermark: old(self)@.largest as u32 },
            ),
            r is Ok ==> final(self)@.pushed == old(self)@.pushed.push(record@),
            r is Ok ==> final(self)@.largest == if record@.date >= old(self)@.largest {
                record@.date
            } else {
                old(self)@.largest
            },
            final(self)@.emitted == old(self)@.emitted,
            final(self)@.finished == false,
            final(self)@.buffer_seconds == old(self)@.buffer_seconds,
            r is Ok ==> final(self).settled(),
            r is Err ==> final(self).settled() == old(self).settled(),
    {
        if (record.date as u64) + self.buffer_seconds < (self.largest_timestamp as u64) {
            return Err(ChronologyError { date: record.date, watermark: self.largest_timestamp });
        }
        let ghost m0 = self@;
        let ghost d = record@.date;
        let ghost sorted0 = stable_sorted(m0.pushed);
        if record.date > self.largest_timestamp {
            self.largest_timestamp = record.date;
        }
        proof {
            self.pushed@ = self.pushed@.push(record@);
            lemma_max_date_push(m0.pushed, record@);
            lemma_stable_sorted_sorted(m0.pushed);
        }
        let n = self.pending.len();
        let mut i: usize = n;
        while i > 0 && self.pending[i - 1].date > record.date
            invariant
                0 <= i <= n,
                n == self.pending@.len(),
                d == record@.date,
                forall|j: int| i <= j < n ==> (#[trigger] self@.pending[j]).date > d,
            decreases i,
        {
            proof {
                assert(self@.pending[i - 1] == self.pending@[i - 1]@);
            }
            i = i - 1;
        }
        proof {
            assert(self@.pending == m0.pending);
            assert(forall|j: int| i <= j < n ==> (#[trigger] m0.pending[j]).date > d);
            assert(i > 0 ==> m0.pending[i - 1].date <= d);
        }
        self.pending.insert(i, record.clone());
        proof {
            let pv0 = m0.pending;
            let ec = m0.emitted + m0.ready;
            // the prefix of sorted0 up to |ec| + i is at most d, the rest above d
            assert forall|j: int| 0 <= j < ec.len() + i implies (#[trigger] sorted0[j]).date
                <= d by {
                if j < ec.len() {
                    assert(sorted0[j] == ec[j]);
                    if j < m0.emitted.len() {
                        assert(ec[j] == m0.emitted[j]);
                    } else {
                        assert(ec[j] == m0.ready[j - m0.emitted.len()]);
                    }
                    assert(sorted0[j].date + m0.buffer_seconds < m0.largest);
                } else {
                    assert(sorted0[j] == pv0[j - ec.len()]);
                    assert(sorted0[ec.len() + i - 1] == pv0[i - 1]);
                    assert(sorted0[j].date <= sorted0[ec.len() + i - 1].date);
                }
            }
            assert forall|j: int| ec.len() + i <= j < sorted0.len() implies (
            #[trigger] sorted0[j]).date > d by {
                assert(sorted0[j] == pv0[j - ec.len()]);
            }
            lemma_insort_pos_of_split(sorted0, d, ec.len() + i);
            assert(self.all_records() =~= sorted0.insert(ec.len() + i, record@));
            assert(self.all_records() == insort(sorted0, record@));
            assert(stable_sorted(self@.pushed) == insort(sorted0, record@)) by {
                assert(self@.pushed.drop_last() =~= m0.pushed);
                assert(self@.pushed.last() == record@);
            }
        }
        self.release_settled();
        Ok(())
    }

    /// Moves every pending record that can no longer be overtaken by a
    /// future arrival into the ready queue.
    fn release_settled(&mut self)
        requires
            old(self).wf(),
            !old(self)@.finished,
        ensures
            final(self).wf(),
            final(self).settled(),
            final(self)@.pushed == old(self)@.pushed,
            final(self)@.emitted == old(self)@.emitted,
            final(self)@.finished == old(self)@.finished,
            final(self)@.largest == old(self)@.largest,
            final(self)@.buffer_seconds == old(self)@.buffer_seconds,
    {
        let ghost m0 = self@;
        while self.pending.len() > 0 && (self.pending[0].date as u64) + self.buffer_seconds < (
        self.largest_timestamp as u64)
            invariant
                self.wf(),
                !self@.finished,
                self@.pushed == m0.pushed,
                self@.emitted == m0.emitted,
                self@.largest == m0.largest,
                self@.buffer_seconds == m0.buffer_seconds,
            decreases self.pending@.len(),
        {
            let ghost before = self@;
            let ghost all0 = self.all_records();
            let rec = self.pending.remove(0);
            self.ready.push_back(rec);
            proof {
                assert(self.all_records() =~= all0);
                assert forall|i: int|
                    0 <= i < self@.emitted.len() + self@.ready.len() implies (
                #[trigger] self.all_records()[i]).date + self@.buffer_seconds
                    < self@.largest by {
                    if i < before.emitted.len() + before.ready.len() {
                        assert(all0[i].date + before.buffer_seconds < before.largest);
                    } else {
                        assert(self.all_records()[i] == rec@);
                    }
                }
            }
        }
        proof {
            lemma_stable_sorted_sorted(self@.pushed);
            let base = self@.emitted.len() + self@.ready.len();
            assert forall|i: int| 0 <= i < self@.pending.len() implies (
            #[trigger] self@.pending[i]).date + self@.buffer_seconds >= self@.largest by {
                let all = self.all_records();
                assert(all[base as int] == self@.pending[0]);
                assert(all[base + i] == self@.pending[i]);
                assert(all[base as int].date <= all[base + i].date);
            }
        }
    }

    /// Whether a settled record is waiting to be popped.
    pub fn has_ready(&self) -> (b: bool)
        ensures
            b == (self@.ready.len() > 0),
    {
        self.ready.len() > 0
    }

    /// Pops the next settled record, in non-decreasing timestamp order.
    pub fn pop(&mut self) -> (r: Option<RequestRecord>)
        requires
            old(self).wf(),
        ensures
            final(self).wf(),
            r is Some <==> old(self)@.ready.len() > 0,
            r is None ==> final(self)@ == old(self)@,
            r matches Some(rec) ==> rec@ == old(self)@.ready[0] && final(self)@.ready == old(
                self,
            )@.ready.drop_first() && final(self)@.emitted == old(self)@.emitted.push(rec@),
            final(self)@.pushed == old(self)@.pushed,
            final(self)@.pending == old(self)@.pending,
            final(self)@.finished == old(self)@.finished,
            final(self)@.largest == old(self)@.largest,
            final(self)@.buffer_seconds == old(self)@.buffer_seconds,
    {
        let ghost m0 = self@;
        let ghost all0 = self.all_records();
        match self.ready.pop_front() {
            None => None,
            Some(rec) => {
                proof {
                    assert(m0.ready[0] == rec@);
                    self.emitted@ = self.emitted@.push(rec@);
                    assert(self@.ready =~= m0.ready.drop_first());
                    assert(self.all_records() =~= all0);
                    assert forall|i: int|
                        !self@.finished && 0 <= i < self@.emitted.len() + self@.ready.len()
                            implies (#[trigger] self.all_records()[i]).date
                            + self@.buffer_seconds < self@.largest by {
                        assert(all0[i].date + m0.buffer_seconds < m0.largest);
                    }
                }
                Some(rec)
            },
        }
    }

    /// Declares the raw source exhausted: every still-pending record is
    /// settled (no competitor can arrive any more) and becomes ready,
    /// in timestamp order.
    pub fn finish(&mut self)
        requires
            old(self).wf(),
        ensures
            final(self).wf(),
            final(self)@.finished,
            final(self)@.pending.len() == 0,
            final(self)@.pushed == old(self)@.pushed,
            final(self)@.emitted == old(self)@.emitted,
            final(self)@.ready == old(self)@.ready + old(self)@.pending,
            final(self)@.buffer_seconds == old(self)@.buffer_seconds,
    {
        let ghost m0 = self@;
        while self.pending.len() > 0
            invariant
                self.all_records() == stable_sorted(self@.pushed),
                self@.pushed == m0.pushed,
                self@.emitted == m0.emitted,
                self@.largest == m0.largest,
                self@.finished == m0.finished,
                self@.buffer_seconds == m0.buffer_seconds,
                self@.pending.len() <= m0.pending.len(),
                self@.ready == m0.ready + m0.pending.take(
                    m0.pending.len() - self@.pending.len(),
                ),
                self@.pending == m0.pending.skip(m0.pending.len() - self@.pending.len()),
            decreases self.pending@.len(),
        {
            let ghost all0 = self.all_records();
            let ghost pend0 = self@.pending;
            let ghost pend_exec0 = self.pending@;
            let ghost k = m0.pending.len() - pend0.len();
            let rec = self.pending.remove(0);
            self.ready.push_back(rec);
            proof {
                assert(pend0.len() > 0);
                assert(pend0 == m0.pending.skip(k));
                assert(rec@ == pend_exec0[0]@);
                assert(pend0[0] == pend_exec0[0]@);
                assert(m0.pending.skip(k)[0] == m0.pending[k]);
                assert(self.all_records() =~= all0);
                assert(self@.ready =~= (m0.ready + m0.pending.take(k)).push(rec@));
                assert(m0.pending.take(k + 1) =~= m0.pending.take(k).push(m0.pending[k]));
                assert(self@.ready =~= m0.ready + m0.pending.take(k + 1));
                assert(self@.pending =~= pend0.drop_first());
                assert(m0.pending.skip(k).drop_first() =~= m0.pending.skip(k + 1));
                assert(self@.pending =~= m0.pending.skip(k + 1));
            }
        }
        self.finished = true;
        proof {
            assert(m0.pending.take(m0.pending.len() as int) =~= m0.pending);
            assert(self@.ready =~= m0.ready + m0.pending);
            assert(self.all_records() == stable_sorted(self@.pushed));
        }
    }
}

/// A record is accepted whenever every earlier arrival's timestamp is
/// within `buffer_seconds` of its own — in particular, the buffer never
/// fails on a stream whose records are each at most
/// `maximum_timestamp_error` seconds out of true order.
pub proof fn lemma_jitter_bound_accepts(s: Seq<RecordView>, r: RecordView, buffer: int)
    requires
        forall|j: int| 0 <= j < s.len() ==> (#[trigger] s[j]).date <= r.date + buffer,
        r.date >= 0,
        buffer >= 0,
    ensures
        max_date(s) <= r.date + buffer,
    decreases s.len(),
{
    if s.len() > 0 {
        assert forall|j: int| 0 <= j < s.drop_last().len() implies (
        #[trigger] s.drop_last()[j]).date <= r.date + buffer by {
            assert(s.drop_last()[j] == s[j]);
        }
        lemma_jitter_bound_accepts(s.drop_last(), r, buffer);
        assert(s[s.len() - 1] == s.last());
    }
}

} // verus!
