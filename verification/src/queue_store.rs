//! The consume queues of all queues, found by queue id.

use crate::consume_queue::ConsumeQueue;
use crate::consume_queue::ConsumeQueueEntry;
use crate::consume_queue::DispatchOutcome;
use crate::consume_queue::QueueView;
use crate::error::StoreError;
use vstd::prelude::*;

verus! {

/// The index of the first queue from `i` on that has the id `queue_id`, or
/// the number of queues if none has.
pub open spec fn position(queues: Seq<QueueView>, queue_id: u32, i: int) -> int
    decreases queues.len() - i,
{
    if 0 <= i < queues.len() && queues[i].queue_id != queue_id {
        position(queues, queue_id, i + 1)
    } else {
        i
    }
}

/// Whether a queue with the id `queue_id` exists.
pub open spec fn has_queue(queues: Seq<QueueView>, queue_id: u32) -> bool {
    position(queues, queue_id, 0) < queues.len()
}

/// The queue with the id `queue_id`; one that does not exist yet is empty.
pub open spec fn queue_of(queues: Seq<QueueView>, queue_id: u32) -> QueueView {
    if has_queue(queues, queue_id) {
        queues[position(queues, queue_id, 0)]
    } else {
        QueueView::empty(queue_id)
    }
}

/// Every queue is well-formed and no two have the same id.
pub open spec fn queues_wf(queues: Seq<QueueView>) -> bool {
    &&& forall|i: int| 0 <= i < queues.len() ==> (#[trigger] queues[i]).wf()
    &&& forall|i: int, j: int|
        0 <= i < j < queues.len() ==> (#[trigger] queues[i]).queue_id != (
        #[trigger] queues[j]).queue_id
}

/// The queues with `queue` in the place of the one that has its id, or at
/// the end if none has.
pub open spec fn with_queue(queues: Seq<QueueView>, queue: QueueView) -> Seq<QueueView> {
    let i = position(queues, queue.queue_id, 0);
    if i < queues.len() {
        queues.update(i, queue)
    } else {
        queues.push(queue)
    }
}

/// The queues after a dispatch to the queue `queue_id`. A queue that does
/// not exist yet is made, unless it would not accept the entry.
pub open spec fn with_dispatch(queues: Seq<QueueView>, queue_id: u32, entry: ConsumeQueueEntry) -> Seq<
    QueueView,
> {
    let queue = queue_of(queues, queue_id);
    if queue.accepts(entry.physical_offset, entry.size) {
        with_queue(queues, queue.dispatch(entry))
    } else {
        queues
    }
}

/// The largest offset at which an entry of the first `n` queues ends; 0 if
/// they hold no entry.
pub open spec fn max_dispatched(queues: Seq<QueueView>, n: int) -> nat
    decreases n,
{
    if n <= 0 || n > queues.len() {
        0
    } else {
        let rest = max_dispatched(queues, n - 1);
        if queues[n - 1].entries.len() > 0 && queues[n - 1].max_physical > rest {
            queues[n - 1].max_physical
        } else {
            rest
        }
    }
}

/// The place that `position` names holds the queue asked for, and no place
/// before it does.
pub proof fn lemma_position(queues: Seq<QueueView>, queue_id: u32, i: int)
    requires
        0 <= i <= queues.len(),
    ensures
        i <= position(queues, queue_id, i) <= queues.len(),
        position(queues, queue_id, i) < queues.len() ==> queues[position(
            queues,
            queue_id,
            i,
        )].queue_id == queue_id,
        forall|j: int| i <= j < position(queues, queue_id, i) ==> queues[j].queue_id != queue_id,
    decreases queues.len() - i,
{
    if i < queues.len() && queues[i].queue_id != queue_id {
        lemma_position(queues, queue_id, i + 1);
    }
}

/// Putting a queue in its place touches no queue with another id, and makes
/// it the queue of its id.
pub proof fn lemma_with_queue(queues: Seq<QueueView>, queue: QueueView, other: u32)
    requires
        queues_wf(queues),
        queue.wf(),
    ensures
        queues_wf(with_queue(queues, queue)),
        has_queue(with_queue(queues, queue), queue.queue_id),
        queue_of(with_queue(queues, queue), queue.queue_id) == queue,
        other != queue.queue_id ==> queue_of(with_queue(queues, queue), other) == queue_of(
            queues,
            other,
        ) && has_queue(with_queue(queues, queue), other) == has_queue(queues, other),
{
    let after = with_queue(queues, queue);
    let i = position(queues, queue.queue_id, 0);
    lemma_position(queues, queue.queue_id, 0);
    lemma_position(after, queue.queue_id, 0);
    assert(after[i] == queue);
    assert forall|a: int, b: int| 0 <= a < b < after.len() implies (#[trigger] after[a]).queue_id
        != (#[trigger] after[b]).queue_id by {
        if a < queues.len() {
            assert(after[a].queue_id == queues[a].queue_id);
        }
        if b < queues.len() {
            assert(after[b].queue_id == queues[b].queue_id);
        }
    }
    assert(position(after, queue.queue_id, 0) == i);
    if other != queue.queue_id {
        lemma_position(queues, other, 0);
        lemma_position(after, other, 0);
        let p = position(queues, other, 0);
        let r = position(after, other, 0);
        if p < queues.len() {
            assert(after[p] == queues[p]);
            assert(r <= p);
            if r < p {
                assert(queues[r].queue_id == after[r].queue_id);
            }
        } else {
            if r < after.len() {
                if r < queues.len() {
                    assert(queues[r].queue_id == after[r].queue_id);
                }
            }
        }
    }
}

/// The consume queues of a store.
#[derive(Debug)]
pub struct ConsumeQueueStore {
    queues: Vec<ConsumeQueue>,
}

impl View for ConsumeQueueStore {
    type V = Seq<QueueView>;

    closed spec fn view(&self) -> Seq<QueueView> {
        Seq::new(self.queues@.len(), |i: int| self.queues@[i]@)
    }
}

impl ConsumeQueueStore {
    /// Whether the store is in a state that its operations keep.
    pub open spec fn wf(&self) -> bool {
        queues_wf(self@)
    }

    /// A store without queues.
    pub fn new() -> (store: Self)
        ensures
            store.wf(),
            store@ == Seq::<QueueView>::empty(),
    {
        let store = ConsumeQueueStore { queues: Vec::new() };
        assert(store@ =~= Seq::<QueueView>::empty());
        store
    }

    /// How many queues exist.
    pub fn queue_count(&self) -> (count: usize)
        ensures
            count == self@.len(),
    {
        self.queues.len()
    }

    /// The `i`-th queue, in the order in which the queues were made.
    pub fn queue_at(&self, i: usize) -> (queue: &ConsumeQueue)
        requires
            i < self@.len(),
        ensures
            queue@ == self@[i as int],
    {
        assert(self@[i as int] == self.queues@[i as int]@);
        &self.queues[i]
    }

    /// The id of the `i`-th queue, in the order in which the queues were made.
    pub fn queue_id_at(&self, i: usize) -> (id: u32)
        requires
            i < self@.len(),
        ensures
            id == self@[i as int].queue_id,
    {
        assert(self@[i as int] == self.queues@[i as int]@);
        self.queues[i].queue_id()
    }

    fn find(&self, queue_id: u32) -> (i: usize)
        ensures
            i == position(self@, queue_id, 0),
            i <= self@.len(),
    {
        let n = self.queues.len();
        let mut i: usize = 0;
        while i < n
            invariant
                i <= n,
                n == self.queues@.len(),
                position(self@, queue_id, 0) == position(self@, queue_id, i as int),
            decreases n - i,
        {
            assert(self@[i as int] == self.queues@[i as int]@);
            if self.queues[i].queue_id() == queue_id {
                return i;
            }
            i += 1;
        }
        i
    }

    /// Whether a queue with the id `queue_id` exists.
    pub fn has_queue(&self, queue_id: u32) -> (has: bool)
        ensures
            has == has_queue(self@, queue_id),
    {
        self.find(queue_id) < self.queues.len()
    }

    /// The smallest logical offset that queue `queue_id` reports; 0 for a
    /// queue that does not exist yet.
    pub fn min_offset(&self, queue_id: u32) -> (offset: u64)
        ensures
            offset == queue_of(self@, queue_id).min_offset,
    {
        let i = self.find(queue_id);
        if i < self.queues.len() {
            assert(self@[i as int] == self.queues@[i as int]@);
            self.queues[i].min_offset()
        } else {
            0
        }
    }

    /// The logical offset that the next entry of queue `queue_id` gets; 0
    /// for a queue that does not exist yet.
    pub fn max_offset(&self, queue_id: u32) -> (offset: u64)
        requires
            self.wf(),
        ensures
            offset == queue_of(self@, queue_id).max_offset(),
    {
        let i = self.find(queue_id);
        if i < self.queues.len() {
            assert(self@[i as int] == self.queues@[i as int]@);
            assert(self@[i as int].wf());
            self.queues[i].max_offset()
        } else {
            0
        }
    }

    /// The largest offset in the commit log at which an entry of any queue
    /// ends: where a replay of the log has to start to find what the queues
    /// miss.
    pub fn last_dispatched_offset(&self) -> (offset: u64)
        ensures
            offset == max_dispatched(self@, self@.len() as int),
    {
        let n = self.queues.len();
        let mut best: u64 = 0;
        let mut i: usize = 0;
        while i < n
            invariant
                i <= n,
                n == self.queues@.len(),
                best == max_dispatched(self@, i as int),
            decreases n - i,
        {
            assert(self@[i as int] == self.queues@[i as int]@);
            let m = self.queues[i].max_physical_offset();
            if self.queues[i].entry_count() > 0 && m > best {
                best = m;
            }
            i += 1;
        }
        best
    }

    /// Dispatches the record of `size` bytes at `physical_offset` to queue
    /// `queue_id`: appends one entry to that queue, which is made if it does
    /// not exist yet. A record that the queue covers already is left out.
    /// Fails with `OffsetOutOfRange`, changing nothing, exactly if the queue
    /// does not accept the entry.
    pub fn dispatch(
        &mut self,
        physical_offset: u64,
        size: u32,
        tag_hash_code: i64,
        queue_id: u32,
    ) -> (result: Result<DispatchOutcome, StoreError>)
        requires
            old(self).wf(),
        ensures
            final(self).wf(),
            final(self)@ == with_dispatch(
                old(self)@,
                queue_id,
                ConsumeQueueEntry { physical_offset, size, tag_hash_code },
            ),
            ({
                let queue = queue_of(old(self)@, queue_id);
                &&& !queue.accepts(physical_offset, size) ==> result == Err::<
                    DispatchOutcome,
                    StoreError,
                >(StoreError::OffsetOutOfRange)
                &&& queue.accepts(physical_offset, size) && queue.covers(physical_offset, size)
                    ==> result == Ok::<DispatchOutcome, StoreError>(DispatchOutcome::Repeated)
                &&& queue.accepts(physical_offset, size) && !queue.covers(physical_offset, size)
                    ==> result == Ok::<DispatchOutcome, StoreError>(
                    DispatchOutcome::Appended(queue.max_offset() as u64),
                )
            }),
    {
        let ghost before = self@;
        let ghost entry = ConsumeQueueEntry { physical_offset, size, tag_hash_code };
        let i = self.find(queue_id);
        proof {
            lemma_position(before, queue_id, 0);
        }
        if i < self.queues.len() {
            assert(before[i as int] == self.queues@[i as int]@);
            assert(before[i as int].wf());
            let result = self.queues[i].dispatch(physical_offset, size, tag_hash_code);
            proof {
                let queue = before[i as int];
                crate::consume_queue::lemma_dispatch_idempotent(queue, entry);
                lemma_with_queue(before, queue.dispatch(entry), queue_id);
                assert(queue.dispatch(entry).queue_id == queue_id);
                if queue.accepts(physical_offset, size) {
                    assert(self@ =~= with_queue(before, queue.dispatch(entry)));
                } else {
                    assert(self@ =~= before);
                }
            }
            result
        } else {
            let mut queue = ConsumeQueue::new(queue_id);
            let result = queue.dispatch(physical_offset, size, tag_hash_code);
            if result.is_ok() {
                proof {
                    lemma_with_queue(before, queue@, queue_id);
                }
                self.queues.push(queue);
                assert(self@ =~= with_queue(before, QueueView::empty(queue_id).dispatch(entry)));
            }
            result
        }
    }

    /// Makes the queue `queue_id` so that its next entry gets the logical
    /// offset `first` and points at or above `physical`. Does nothing and
    /// returns `false` if the queue exists, or if `first` is larger than
    /// `physical`.
    pub fn open_queue(&mut self, queue_id: u32, first: u64, physical: u64) -> (opened: bool)
        requires
            old(self).wf(),
        ensures
            final(self).wf(),
            opened == (!has_queue(old(self)@, queue_id) && first <= physical),
            opened ==> final(self)@ == old(self)@.push(
                QueueView {
                    queue_id,
                    first: first as nat,
                    entries: Seq::empty(),
                    min_offset: first as nat,
                    max_physical: physical as nat,
                },
            ),
            !opened ==> final(self)@ == old(self)@,
    {
        let ghost before = self@;
        let i = self.find(queue_id);
        if i < self.queues.len() {
            return false;
        }
        match ConsumeQueue::starting_at(queue_id, first, physical) {
            Some(queue) => {
                proof {
                    lemma_position(before, queue_id, 0);
                    lemma_with_queue(before, queue@, queue_id);
                }
                self.queues.push(queue);
                assert(self@ =~= with_queue(before, queue@));
                true
            },
            None => false,
        }
    }

    /// Takes in a queue that was made elsewhere. Does nothing and returns
    /// `false` if a queue with its id exists.
    pub fn insert_queue(&mut self, queue: ConsumeQueue) -> (inserted: bool)
        requires
            old(self).wf(),
            queue.wf(),
        ensures
            final(self).wf(),
            inserted == !has_queue(old(self)@, queue@.queue_id),
            inserted ==> final(self)@ == old(self)@.push(queue@),
            !inserted ==> final(self)@ == old(self)@,
    {
        let ghost before = self@;
        let i = self.find(queue.queue_id());
        if i < self.queues.len() {
            return false;
        }
        proof {
            lemma_position(before, queue@.queue_id, 0);
            lemma_with_queue(before, queue@, queue@.queue_id);
        }
        self.queues.push(queue);
        assert(self@ =~= with_queue(before, queue@));
        true
    }

    /// The entry at logical offset `logical` of queue `queue_id`. Fails with
    /// `OffsetOutOfRange` exactly if that offset lies below the queue's
    /// reported minimum or at or above its end; a queue that does not exist
    /// has no entry.
    pub fn get_entry(&self, queue_id: u32, logical: u64) -> (result: Result<
        ConsumeQueueEntry,
        StoreError,
    >)
        requires
            self.wf(),
        ensures
            ({
                let queue = queue_of(self@, queue_id);
                &&& queue.min_offset <= logical < queue.max_offset() ==> result == Ok::<
                    ConsumeQueueEntry,
                    StoreError,
                >(queue.entries[logical - queue.first])
                &&& !(queue.min_offset <= logical < queue.max_offset()) ==> result == Err::<
                    ConsumeQueueEntry,
                    StoreError,
                >(StoreError::OffsetOutOfRange)
            }),
    {
        let i = self.find(queue_id);
        if i < self.queues.len() {
            assert(self@[i as int] == self.queues@[i as int]@);
            assert(self@[i as int].wf());
            self.queues[i].get_entry(logical)
        } else {
            Err(StoreError::OffsetOutOfRange)
        }
    }

    /// Drops, in every queue, the entries that point below `min_physical`.
    pub fn delete_expired(&mut self, min_physical: u64)
        requires
            old(self).wf(),
        ensures
            final(self).wf(),
            final(self)@ == old(self)@.map_values(
                |q: QueueView| q.delete_expired(min_physical as nat),
            ),
    {
        let ghost before = self@;
        let ghost f = |q: QueueView| q.delete_expired(min_physical as nat);
        let n = self.queues.len();
        let mut i: usize = 0;
        while i < n
            invariant
                i <= n,
                n == self.queues@.len(),
                before.len() == n,
                queues_wf(before),
                f == |q: QueueView| q.delete_expired(min_physical as nat),
                forall|j: int| 0 <= j < i ==> #[trigger] self@[j] == f(before[j]),
                forall|j: int| i <= j < n ==> #[trigger] self@[j] == before[j],
                forall|j: int| 0 <= j < n ==> (#[trigger] self@[j]).wf(),
            decreases n - i,
        {
            let ghost mid = self@;
            assert(mid[i as int] == self.queues@[i as int]@);
            assert(mid[i as int].wf());
            let _ = self.queues[i].delete_expired(min_physical);
            proof {
                assert forall|j: int| 0 <= j < n implies (#[trigger] self@[j]).wf() && (j != i
                    ==> self@[j] == mid[j]) by {
                    if j != i {
                        assert(self@[j] == self.queues@[j]@);
                        assert(mid[j] == self@[j]);
                    }
                }
            }
            i += 1;
        }
        proof {
            assert(self@ =~= before.map_values(f));
            assert forall|a: int, b: int| 0 <= a < b < self@.len() implies (
            #[trigger] self@[a]).queue_id != (#[trigger] self@[b]).queue_id by {
                assert(before[a].queue_id != before[b].queue_id);
            }
        }
    }

    /// Sets, in every queue, the reported minimum to the first entry that
    /// points at or above `min_physical`.
    pub fn correct_min_offset(&mut self, min_physical: u64)
        requires
            old(self).wf(),
        ensures
            final(self).wf(),
            final(self)@ == old(self)@.map_values(
                |q: QueueView| q.correct_min_offset(min_physical as nat),
            ),
    {
        let ghost before = self@;
        let ghost f = |q: QueueView| q.correct_min_offset(min_physical as nat);
        let n = self.queues.len();
        let mut i: usize = 0;
        while i < n
            invariant
                i <= n,
                n == self.queues@.len(),
                before.len() == n,
                queues_wf(before),
                f == |q: QueueView| q.correct_min_offset(min_physical as nat),
                forall|j: int| 0 <= j < i ==> #[trigger] self@[j] == f(before[j]),
                forall|j: int| i <= j < n ==> #[trigger] self@[j] == before[j],
                forall|j: int| 0 <= j < n ==> (#[trigger] self@[j]).wf(),
            decreases n - i,
        {
            let ghost mid = self@;
            assert(mid[i as int] == self.queues@[i as int]@);
            assert(mid[i as int].wf());
            self.queues[i].correct_min_offset(min_physical);
            proof {
                assert forall|j: int| 0 <= j < n implies (#[trigger] self@[j]).wf() && (j != i
                    ==> self@[j] == mid[j]) by {
                    if j != i {
                        assert(self@[j] == self.queues@[j]@);
                        assert(mid[j] == self@[j]);
                    }
                }
            }
            i += 1;
        }
        proof {
            assert(self@ =~= before.map_values(f));
            assert forall|a: int, b: int| 0 <= a < b < self@.len() implies (
            #[trigger] self@[a]).queue_id != (#[trigger] self@[b]).queue_id by {
                assert(before[a].queue_id != before[b].queue_id);
            }
        }
    }

    /// Drops, in every queue, the entries that end above `physical`.
    pub fn truncate(&mut self, physical: u64)
        requires
            old(self).wf(),
        ensures
            final(self).wf(),
            final(self)@ == old(self)@.map_values(|q: QueueView| q.truncate(physical as nat)),
    {
        let ghost before = self@;
        let ghost f = |q: QueueView| q.truncate(physical as nat);
        let n = self.queues.len();
        let mut i: usize = 0;
        while i < n
            invariant
                i <= n,
                n == self.queues@.len(),
                before.len() == n,
                queues_wf(before),
                f == |q: QueueView| q.truncate(physical as nat),
                forall|j: int| 0 <= j < i ==> #[trigger] self@[j] == f(before[j]),
                forall|j: int| i <= j < n ==> #[trigger] self@[j] == before[j],
                forall|j: int| 0 <= j < n ==> (#[trigger] self@[j]).wf(),
            decreases n - i,
        {
            let ghost mid = self@;
            assert(mid[i as int] == self.queues@[i as int]@);
            assert(mid[i as int].wf());
            self.queues[i].truncate(physical);
            proof {
                assert forall|j: int| 0 <= j < n implies (#[trigger] self@[j]).wf() && (j != i
                    ==> self@[j] == mid[j]) by {
                    if j != i {
                        assert(self@[j] == self.queues@[j]@);
                        assert(mid[j] == self@[j]);
                    }
                }
            }
            i += 1;
        }
        proof {
            assert(self@ =~= before.map_values(f));
            assert forall|a: int, b: int| 0 <= a < b < self@.len() implies (
            #[trigger] self@[a]).queue_id != (#[trigger] self@[b]).queue_id by {
                assert(before[a].queue_id != before[b].queue_id);
            }
        }
    }
}

} // verus!
