//! The message store: the commit log together with the consume queues that
//! index it, kept so that every entry of every queue leads to a record of
//! that queue.

use crate::commit_log::AppendResult;
use crate::commit_log::CommitLog;
use crate::commit_log::LogView;
use crate::commit_log::RecoveryOutcome;
use crate::consume_queue::ConsumeQueueEntry;
use crate::consume_queue::QueueView;
use crate::error::StoreError;
use crate::log_laws::lemma_append_wf;
use crate::log_laws::lemma_position;
use crate::log_laws::lemma_segment_ends;
use crate::queue_store::ConsumeQueueStore;
use crate::queue_store::has_queue;
use crate::queue_store::position;
use crate::queue_store::queue_of;
use crate::queue_store::queues_wf;
use crate::queue_store::with_dispatch;
use crate::record::Message;
use crate::record::MessageView;
use crate::record::Record;
use crate::record::record_size;
use crate::store_laws::lemma_correct_keeps_wf;
use crate::store_laws::lemma_expire;
use crate::store_laws::lemma_expire_keeps_wf;
use crate::store_laws::lemma_index_record;
use crate::store_laws::lemma_load_step;
use crate::store_laws::lemma_positions_keep_consistency;
use crate::store_laws::lemma_put_keeps_wf;
use crate::store_laws::lemma_record_found;
use crate::store_laws::lemma_same_records;
use crate::store_laws::lemma_segment_end_is_ahead;
use crate::store_laws::lemma_truncate_keeps_indexed;
use vstd::prelude::*;

verus! {

/// Whether entry `entry`, at logical offset `logical` of queue `queue_id`,
/// leads to a record of that queue: a valid record starts where the entry
/// points, it belongs to the queue and has that very queue offset, and the
/// entry has its length and its tags code.
pub open spec fn resolves(log: LogView, queue_id: u32, logical: int, entry: ConsumeQueueEntry) -> bool {
    let record = log.record_view_at(entry.physical_offset as int);
    &&& log.record_starts_at(entry.physical_offset as int, false)
    &&& record.message.queue_id == queue_id
    &&& record.queue_offset == logical
    &&& record.length == entry.size
    &&& record.message.tags_code == entry.tag_hash_code
}

/// Whether a queue fits the log: nothing was dispatched to it beyond the end
/// of the log, each of its entries that points into what the log still holds
/// resolves, and the log gives the queue's next message the logical offset
/// that the queue gives its next entry.
pub open spec fn queue_consistent(log: LogView, queue: QueueView) -> bool {
    &&& queue.max_physical <= log.max_offset()
    &&& forall|j: int|
        0 <= j < queue.entries.len() && (#[trigger] queue.entries[j]).physical_offset
            >= log.min_offset() ==> resolves(log, queue.queue_id, queue.first + j, queue.entries[j])
    &&& log.next_queue_offset(queue.queue_id) == queue.max_offset()
}

/// Whether all queues fit the log, and the log has handed out no offset for
/// a queue that does not exist.
pub open spec fn consistent(log: LogView, queues: Seq<QueueView>) -> bool {
    &&& forall|i: int| 0 <= i < queues.len() ==> queue_consistent(log, #[trigger] queues[i])
    &&& forall|q: u32| !(#[trigger] has_queue(queues, q)) ==> log.next_queue_offset(q) == 0
}

/// The store as a value.
pub struct StoreView {
    pub log: LogView,
    pub queues: Seq<QueueView>,
}

impl StoreView {
    pub open spec fn wf(self) -> bool {
        &&& self.log.wf()
        &&& queues_wf(self.queues)
        &&& consistent(self.log, self.queues)
    }

    /// The entry that a message gets when it is appended to this store.
    pub open spec fn entry_for(self, message: MessageView) -> ConsumeQueueEntry {
        ConsumeQueueEntry {
            physical_offset: self.log.append_offset(record_size(message)) as u64,
            size: record_size(message) as u32,
            tag_hash_code: message.tags_code,
        }
    }

    /// The store after `message` was put: appended to the log and dispatched
    /// to its queue.
    pub open spec fn put(self, message: MessageView) -> StoreView {
        StoreView {
            log: self.log.append_message(message),
            queues: with_dispatch(self.queues, message.queue_id, self.entry_for(message)),
        }
    }
}

/// Whether the queues index the log: nothing was dispatched beyond the end
/// of the log, and every entry that points into what the log still holds
/// resolves.
pub open spec fn indexed(log: LogView, queues: Seq<QueueView>) -> bool {
    forall|i: int|
        0 <= i < queues.len() ==> {
            &&& (#[trigger] queues[i]).max_physical <= log.max_offset()
            &&& forall|j: int|
                0 <= j < queues[i].entries.len() && (#[trigger] queues[i].entries[j]).physical_offset
                    >= log.min_offset() ==> resolves(
                    log,
                    queues[i].queue_id,
                    queues[i].first + j,
                    queues[i].entries[j],
                )
        }
}

/// The entry that indexes `record`.
pub open spec fn entry_of(record: crate::record::RecordView) -> ConsumeQueueEntry {
    ConsumeQueueEntry {
        physical_offset: record.physical_offset,
        size: record.length,
        tag_hash_code: record.message.tags_code,
    }
}

/// The queues after `record` was indexed. The first record found of a queue
/// opens the queue at the record's queue offset. A later record is
/// dispatched if its queue offset is the queue's next logical offset, and is
/// left out if it is not.
pub open spec fn index_record(queues: Seq<QueueView>, record: crate::record::RecordView) -> Seq<
    QueueView,
> {
    let q = record.message.queue_id;
    if !has_queue(queues, q) {
        with_dispatch(
            queues.push(
                QueueView {
                    queue_id: q,
                    first: record.queue_offset as nat,
                    entries: Seq::empty(),
                    min_offset: record.queue_offset as nat,
                    max_physical: record.physical_offset as nat,
                },
            ),
            q,
            entry_of(record),
        )
    } else if queue_of(queues, q).max_offset() == record.queue_offset {
        with_dispatch(queues, q, entry_of(record))
    } else {
        queues
    }
}

/// The offset at which the segment that holds `offset` ends.
pub open spec fn segment_end_of(log: LogView, offset: int) -> int {
    log.base_offset + ((offset - log.base_offset) / log.segment_size as int + 1)
        * log.segment_size
}

/// The queues after the log was replayed from `offset` on: every record
/// found is indexed; where no valid record starts, the replay goes on in the
/// next segment. (Both steps lead upwards and a record ends inside the log,
/// as `lemma_record_found` and `lemma_segment_end_is_ahead` show.)
pub open spec fn index_from(log: LogView, offset: int, queues: Seq<QueueView>) -> Seq<QueueView>
    decreases log.max_offset() - offset,
{
    if log.min_offset() <= offset < log.max_offset() {
        let record = log.record_view_at(offset);
        let end = segment_end_of(log, offset);
        if log.record_starts_at(offset, false) {
            if record.length > 0 && offset + record.length <= log.max_offset() {
                index_from(log, offset + record.length, index_record(queues, record))
            } else {
                queues
            }
        } else if offset < end < log.max_offset() {
            index_from(log, end, queues)
        } else {
            queues
        }
    } else {
        queues
    }
}

/// A consume queue as it was found in storage.
#[derive(Debug)]
pub struct SavedQueue {
    pub queue_id: u32,
    /// The logical offset of the first entry.
    pub first_offset: u64,
    pub entries: Vec<ConsumeQueueEntry>,
}

/// Whether `entry` can be taken in as the next entry of `queue`: it lies
/// behind what the queue holds and resolves as the queue's next logical
/// offset.
pub open spec fn loadable(log: LogView, queue: QueueView, entry: ConsumeQueueEntry) -> bool {
    &&& entry.physical_offset >= queue.max_physical
    &&& resolves(log, queue.queue_id, queue.max_offset() as int, entry)
}

/// The queue after the entries from `j` on were taken in, one after the
/// other, up to the first that cannot be.
pub open spec fn load_entries(
    log: LogView,
    queue: QueueView,
    entries: Seq<ConsumeQueueEntry>,
    j: int,
) -> QueueView
    decreases entries.len() - j,
{
    if 0 <= j < entries.len() && loadable(log, queue, entries[j]) {
        load_entries(log, queue.dispatch(entries[j]), entries, j + 1)
    } else {
        queue
    }
}

/// The queues after a saved queue was taken in. Its entries that point
/// below what the log still holds are passed over; of the others, those up
/// to the first that does not resolve are kept. A saved queue of which no
/// entry is kept, or whose id is taken, adds nothing.
pub open spec fn load_queue(
    log: LogView,
    queues: Seq<QueueView>,
    queue_id: u32,
    first: u64,
    entries: Seq<ConsumeQueueEntry>,
) -> Seq<QueueView> {
    let d = crate::consume_queue::leading_below(entries, log.min_offset() as int, 0);
    if has_queue(queues, queue_id) || d >= entries.len() || first + d > u64::MAX || !resolves(
        log,
        queue_id,
        first + d,
        entries[d],
    ) {
        queues
    } else {
        queues.push(
            load_entries(
                log,
                QueueView {
                    queue_id,
                    first: (first + d) as nat,
                    entries: Seq::empty(),
                    min_offset: (first + d) as nat,
                    max_physical: entries[d].physical_offset as nat,
                },
                entries,
                d,
            ),
        )
    }
}

/// The queues after the first `n` saved queues were taken in.
pub open spec fn load_all(log: LogView, saved: Seq<SavedQueue>, n: int) -> Seq<QueueView>
    decreases n,
{
    if n <= 0 || n > saved.len() {
        Seq::empty()
    } else {
        load_queue(
            log,
            load_all(log, saved, n - 1),
            saved[n - 1].queue_id,
            saved[n - 1].first_offset,
            saved[n - 1].entries@,
        )
    }
}

/// The message store.
pub struct MessageStore {
    log: CommitLog,
    queues: ConsumeQueueStore,
}

impl View for MessageStore {
    type V = StoreView;

    closed spec fn view(&self) -> StoreView {
        StoreView { log: self.log@, queues: self.queues@ }
    }
}

impl MessageStore {
    /// Whether the store is in a state that its operations keep.
    pub open spec fn wf(&self) -> bool {
        self@.wf()
    }

    /// An empty store: a log with one empty segment at `base_offset`, and no
    /// queue. There is none where there is no such log.
    pub fn new(
        base_offset: u64,
        segment_size: usize,
        max_segments: usize,
        max_message_size: usize,
        transient: bool,
    ) -> (store: Option<Self>)
        ensures
            store is Some <==> segment_size > 0 && max_segments >= 1 && base_offset + segment_size
                <= u64::MAX,
            store matches Some(s) ==> crate::replay_laws::complete(s@) && s@.log.recoverable(true)
                && s@.log.recoverable(false),
            store matches Some(s) ==> s.wf() && s@.queues == Seq::<QueueView>::empty()
                && s@.log.base_offset == base_offset && s@.log.segment_size == segment_size
                && s@.log.segments == seq![
                crate::segment::SegmentView::empty(
                    base_offset as nat,
                    segment_size as nat,
                    transient,
                ),
            ] && s@.log.max_segments == max_segments && s@.log.max_message_size
                == max_message_size && s@.log.transient == transient && s@.log.queue_offsets
                == Map::<u32, u64>::empty(),
    {
        match CommitLog::new(base_offset, segment_size, max_segments, max_message_size, transient) {
            Some(log) => {
                let queues = ConsumeQueueStore::new();
                let store = MessageStore { log, queues };
                proof {
                    crate::log_laws::lemma_new_recoverable(store@.log, true);
                    crate::log_laws::lemma_new_recoverable(store@.log, false);
                    crate::replay_laws::lemma_empty_is_complete(store@);
                }
                Some(store)
            },
            None => None,
        }
    }

    /// An empty store with the tunables of `config`, whose log starts at
    /// `base_offset` and may hold `max_segments` segments. There is none if
    /// the tunables are not valid or no such log exists.
    pub fn open(config: &crate::config::MessageStoreConfig, base_offset: u64, max_segments: usize) -> (store:
        Option<Self>)
        ensures
            store is Some <==> config.spec_is_valid() && max_segments >= 1 && base_offset
                + config.mapped_file_size_commit_log <= u64::MAX,
            store matches Some(s) ==> crate::replay_laws::complete(s@) && s@.log.recoverable(true)
                && s@.log.recoverable(false),
            store matches Some(s) ==> s.wf() && s@.queues == Seq::<QueueView>::empty()
                && s@.log.base_offset == base_offset && s@.log.segment_size
                == config.mapped_file_size_commit_log && s@.log.segments == seq![
                crate::segment::SegmentView::empty(
                    base_offset as nat,
                    config.mapped_file_size_commit_log as nat,
                    config.transient_store_pool_enable,
                ),
            ] && s@.log.max_segments == max_segments && s@.log.max_message_size
                == config.max_message_size && s@.log.transient
                == config.transient_store_pool_enable && s@.log.queue_offsets == Map::<
                u32,
                u64,
            >::empty(),
    {
        if !config.is_valid() {
            return None;
        }
        Self::new(
            base_offset,
            config.mapped_file_size_commit_log,
            max_segments,
            config.max_message_size,
            config.transient_store_pool_enable,
        )
    }

    /// The commit log of the store.
    pub fn log(&self) -> (log: &CommitLog)
        ensures
            log@ == self@.log,
    {
        &self.log
    }

    /// The consume queues of the store.
    pub fn queues(&self) -> (queues: &ConsumeQueueStore)
        ensures
            queues@ == self@.queues,
    {
        &self.queues
    }

    /// Appends `message` to the commit log and dispatches it to its queue.
    /// Fails, changing nothing, exactly where the commit log turns the
    /// message away, with the log's error.
    pub fn put_message(&mut self, message: &Message) -> (result: Result<AppendResult, StoreError>)
        requires
            old(self).wf(),
        ensures
            final(self).wf(),
            crate::replay_laws::complete(old(self)@) ==> crate::replay_laws::complete(final(self)@),
            old(self)@.log.recoverable(true) ==> final(self)@.log.recoverable(true),
            old(self)@.log.recoverable(false) ==> final(self)@.log.recoverable(false),
            match result {
                Ok(done) => {
                    &&& old(self)@.log.rejection(record_size(message@)) is None
                    &&& done.physical_offset == old(self)@.log.append_offset(
                        record_size(message@),
                    )
                    &&& done.queue_offset == old(self)@.log.next_queue_offset(message.queue_id)
                    &&& done.wrote_bytes == record_size(message@)
                    &&& done.physical_offset + done.wrote_bytes == final(self)@.log.max_offset()
                    &&& done.physical_offset + done.wrote_bytes <= u64::MAX
                    &&& final(self)@ == old(self)@.put(message@)
                },
                Err(e) => {
                    &&& old(self)@.log.rejection(record_size(message@)) == Some(e)
                    &&& final(self)@ == old(self)@
                },
            },
    {
        let ghost before = self@;
        proof {
            if before.log.rejection(record_size(message@)) is None {
                lemma_append_wf(before.log, message@);
                lemma_segment_ends(before.log.append_message(message@), 0);
                if crate::replay_laws::complete(before) {
                    crate::replay_laws::lemma_put_keeps_complete(before, message@);
                }
                if before.log.recoverable(true) {
                    crate::log_laws::lemma_append_keeps_recoverable(before.log, message@, 0, true);
                }
                if before.log.recoverable(false) {
                    crate::log_laws::lemma_append_keeps_recoverable(
                        before.log,
                        message@,
                        0,
                        false,
                    );
                }
            }
        }
        match self.log.append_message(message) {
            Ok(done) => {
                proof {
                    lemma_put_keeps_wf(before, message@);
                }
                let _ = self.queues.dispatch(
                    done.physical_offset,
                    done.wrote_bytes as u32,
                    message.tags_code,
                    message.queue_id,
                );
                Ok(done)
            },
            Err(e) => Err(e),
        }
    }

    /// Puts `message` unless the append point counts as busy: where an
    /// earlier append has held it since `held_since_ms` for longer than
    /// `busy_timeout_ms`, the message is turned away with `PageCacheBusy`
    /// and nothing changes.
    pub fn put_message_at(
        &mut self,
        message: &Message,
        held_since_ms: Option<u64>,
        now_ms: u64,
        busy_timeout_ms: u64,
    ) -> (result: Result<AppendResult, StoreError>)
        requires
            old(self).wf(),
        ensures
            final(self).wf(),
            crate::replay_laws::complete(old(self)@) ==> crate::replay_laws::complete(final(self)@),
            old(self)@.log.recoverable(true) ==> final(self)@.log.recoverable(true),
            old(self)@.log.recoverable(false) ==> final(self)@.log.recoverable(false),
            crate::flush::page_cache_busy(held_since_ms, now_ms, busy_timeout_ms) ==> result
                == Err::<AppendResult, StoreError>(StoreError::PageCacheBusy) && final(self)@
                == old(self)@,
            !crate::flush::page_cache_busy(held_since_ms, now_ms, busy_timeout_ms) ==> match result {
                Ok(done) => {
                    &&& old(self)@.log.rejection(record_size(message@)) is None
                    &&& done.physical_offset == old(self)@.log.append_offset(
                        record_size(message@),
                    )
                    &&& done.queue_offset == old(self)@.log.next_queue_offset(message.queue_id)
                    &&& done.wrote_bytes == record_size(message@)
                    &&& done.physical_offset + done.wrote_bytes <= u64::MAX
                    &&& final(self)@ == old(self)@.put(message@)
                },
                Err(e) => {
                    &&& old(self)@.log.rejection(record_size(message@)) == Some(e)
                    &&& final(self)@ == old(self)@
                },
            },
    {
        if crate::flush::is_page_cache_busy(held_since_ms, now_ms, busy_timeout_ms) {
            return Err(StoreError::PageCacheBusy);
        }
        self.put_message(message)
    }

    /// Where an append stands that waits for its flush: done as soon as the
    /// log is durable up to the end of its record, timed out at its
    /// deadline, pending else.
    pub fn flush_status(&self, request: &crate::flush::GroupCommitRequest, now_ms: u64) -> (status:
        crate::flush::WaitStatus)
        requires
            self.wf(),
        ensures
            status == request.spec_status(self@.log.flushed_offset() as u64, now_ms),
    {
        proof {
            crate::log_laws::lemma_first_waiting_exists(self@.log, 0);
            let k = self@.log.first_unflushed(0);
            assert(self@.log.segments[k].wf());
        }
        request.status(self.log.flushed_offset(), now_ms)
    }

    /// The `size` bytes at `offset` of the commit log. Fails with
    /// `OffsetOutOfRange` exactly if they do not all lie in the log.
    pub fn get_message(&self, offset: u64, size: usize) -> (result: Result<Vec<u8>, StoreError>)
        requires
            self.wf(),
        ensures
            self@.log.in_range(offset as int, size as int) ==> result is Ok && result->Ok_0@
                == self@.log.read(offset as int, size as int),
            !self@.log.in_range(offset as int, size as int) ==> result == Err::<
                Vec<u8>,
                StoreError,
            >(StoreError::OffsetOutOfRange),
    {
        self.log.get_message(offset, size)
    }

    /// The entry at logical offset `logical` of queue `queue_id`. Fails with
    /// `OffsetOutOfRange` exactly if the queue has no such offset.
    pub fn get_entry(&self, queue_id: u32, logical: u64) -> (result: Result<
        ConsumeQueueEntry,
        StoreError,
    >)
        requires
            self.wf(),
        ensures
            ({
                let queue = queue_of(self@.queues, queue_id);
                &&& queue.min_offset <= logical < queue.max_offset() ==> result == Ok::<
                    ConsumeQueueEntry,
                    StoreError,
                >(queue.entries[logical - queue.first])
                &&& !(queue.min_offset <= logical < queue.max_offset()) ==> result == Err::<
                    ConsumeQueueEntry,
                    StoreError,
                >(StoreError::OffsetOutOfRange)
            }),
    {
        self.queues.get_entry(queue_id, logical)
    }

    /// The smallest logical offset that queue `queue_id` reports.
    pub fn min_offset(&self, queue_id: u32) -> (offset: u64)
        ensures
            offset == queue_of(self@.queues, queue_id).min_offset,
    {
        self.queues.min_offset(queue_id)
    }

    /// The logical offset that the next message of queue `queue_id` gets.
    pub fn max_offset(&self, queue_id: u32) -> (offset: u64)
        requires
            self.wf(),
        ensures
            offset == queue_of(self@.queues, queue_id).max_offset(),
    {
        self.queues.max_offset(queue_id)
    }

    /// The message at logical offset `logical` of queue `queue_id`, read
    /// from the commit log by way of the queue's entry. What comes back
    /// belongs to that queue and has that logical offset. Fails with
    /// `OffsetOutOfRange` exactly if the queue has no such offset or the
    /// entry points below what the log still holds.
    pub fn consume(&self, queue_id: u32, logical: u64) -> (result: Result<Record, StoreError>)
        requires
            self.wf(),
        ensures
            ({
                let queue = queue_of(self@.queues, queue_id);
                let entry = queue.entries[logical - queue.first];
                let found = queue.min_offset <= logical < queue.max_offset()
                    && entry.physical_offset >= self@.log.min_offset();
                &&& found ==> result is Ok && result->Ok_0@ == self@.log.record_view_at(
                    entry.physical_offset as int,
                ) && result->Ok_0.message.queue_id == queue_id && result->Ok_0.queue_offset
                    == logical && result->Ok_0.physical_offset == entry.physical_offset
                &&& !found ==> result is Err && result->Err_0 == StoreError::OffsetOutOfRange
            }),
    {
        proof {
            crate::queue_store::lemma_position(self@.queues, queue_id, 0);
        }
        match self.queues.get_entry(queue_id, logical) {
            Ok(entry) => {
                proof {
                    let queue = queue_of(self@.queues, queue_id);
                    assert(has_queue(self@.queues, queue_id));
                    assert(queue_consistent(self@.log, queue));
                    assert(entry == queue.entries[logical - queue.first]);
                }
                match self.log.read_record(entry.physical_offset, false) {
                    Some(record) => Ok(record),
                    None => Err(StoreError::OffsetOutOfRange),
                }
            },
            Err(e) => Err(e),
        }
    }

    /// Gives up the oldest segments of the log that end at or below
    /// `offset`, and in every queue the entries that point below what the log
    /// then holds. Returns how many segments were given up.
    pub fn delete_expired(&mut self, offset: u64) -> (dropped: usize)
        requires
            old(self).wf(),
        ensures
            final(self).wf(),
            final(self)@.log == old(self)@.log.expire(offset as nat),
            final(self)@.queues == old(self)@.queues.map_values(
                |q: QueueView| q.delete_expired(final(self)@.log.min_offset()),
            ),
            dropped == old(self)@.log.segments.len() - final(self)@.log.segments.len(),
    {
        let ghost before = self@;
        let dropped = self.log.delete_expired(offset);
        let min = self.log.min_offset();
        proof {
            lemma_expire_keeps_wf(before, offset as nat);
            lemma_expire(before.log, offset as nat);
        }
        self.queues.delete_expired(min);
        dropped
    }

    /// Sets the reported minimum of every queue to its first entry that
    /// points into what the log still holds.
    pub fn correct_min_offset(&mut self)
        requires
            old(self).wf(),
        ensures
            final(self).wf(),
            final(self)@.log == old(self)@.log,
            final(self)@.queues == old(self)@.queues.map_values(
                |q: QueueView| q.correct_min_offset(old(self)@.log.min_offset()),
            ),
    {
        let ghost before = self@;
        let min = self.log.min_offset();
        proof {
            lemma_correct_keeps_wf(before, min as nat);
        }
        self.queues.correct_min_offset(min);
    }

    /// Replays the log from `from` on and indexes every record found.
    fn replay(log: &CommitLog, queues: &mut ConsumeQueueStore, from: u64)
        requires
            log.wf(),
            old(queues).wf(),
            indexed(log@, old(queues)@),
        ensures
            final(queues).wf(),
            final(queues)@ == index_from(log@, from as int, old(queues)@),
            indexed(log@, final(queues)@),
    {
        let min = log.min_offset();
        let max = log.max_offset();
        if from < min {
            return ;
        }
        let mut offset: u64 = from;
        while offset < max
            invariant
                log.wf(),
                min == log@.min_offset(),
                max == log@.max_offset(),
                min <= offset,
                queues.wf(),
                indexed(log@, queues@),
                index_from(log@, from as int, old(queues)@) == index_from(
                    log@,
                    offset as int,
                    queues@,
                ),
            decreases u64::MAX - offset,
        {
            match log.read_record(offset, false) {
                Some(record) => {
                    proof {
                        lemma_record_found(log@, offset as int);
                        lemma_index_record(log@, queues@, offset as int);
                        crate::queue_store::lemma_position(
                            queues@,
                            record.message.queue_id,
                            0,
                        );
                    }
                    let queue_id = record.message.queue_id;
                    if !queues.has_queue(queue_id) {
                        let _ = queues.open_queue(queue_id, record.queue_offset, offset);
                        let _ = queues.dispatch(
                            offset,
                            record.length,
                            record.message.tags_code,
                            queue_id,
                        );
                    } else if queues.max_offset(queue_id) == record.queue_offset {
                        let _ = queues.dispatch(
                            offset,
                            record.length,
                            record.message.tags_code,
                            queue_id,
                        );
                    }
                    offset = offset + record.length as u64;
                },
                None => {
                    proof {
                        lemma_segment_end_is_ahead(log@, offset as int);
                    }
                    offset = log.segment_end(offset);
                },
            }
        }
    }

    /// Gives every queue, in the log, the next offset that its index tells,
    /// and no offset to any queue that does not exist.
    fn align_counters(log: &mut CommitLog, queues: &ConsumeQueueStore)
        requires
            old(log).wf(),
            queues.wf(),
            indexed(old(log)@, queues@),
        ensures
            final(log).wf(),
            final(log)@.base_offset == old(log)@.base_offset,
            final(log)@.segment_size == old(log)@.segment_size,
            final(log)@.segments == old(log)@.segments,
            final(log)@.max_segments == old(log)@.max_segments,
            final(log)@.max_message_size == old(log)@.max_message_size,
            final(log)@.transient == old(log)@.transient,
            consistent(final(log)@, queues@),
    {
        let ghost found_log = log@;
        log.clear_queue_offsets();
        let n = queues.queue_count();
        let mut i: usize = 0;
        proof {
            assert forall|q: u32|
                log@.next_queue_offset(q) == 0 && #[trigger] position(queues@, q, 0) >= 0 by {
                crate::queue_store::lemma_position(queues@, q, 0);
            }
        }
        while i < n
            invariant
                i <= n,
                n == queues@.len(),
                queues.wf(),
                found_log.wf(),
                log.wf(),
                indexed(found_log, queues@),
                log@.base_offset == found_log.base_offset,
                log@.segment_size == found_log.segment_size,
                log@.segments == found_log.segments,
                log@.max_segments == found_log.max_segments,
                log@.max_message_size == found_log.max_message_size,
                log@.transient == found_log.transient,
                forall|q: u32|
                    log@.next_queue_offset(q) == (if #[trigger] position(queues@, q, 0) < i {
                        queue_of(queues@, q).max_offset() as int
                    } else {
                        0
                    }),
            decreases n - i,
        {
            let id = queues.queue_id_at(i);
            let next = queues.max_offset(id);
            proof {
                crate::queue_store::lemma_position(queues@, id, 0);
                assert(position(queues@, id, 0) == i) by {
                    let p = position(queues@, id, 0);
                    if p < i {
                        assert(queues@[p].queue_id != queues@[i as int].queue_id);
                    }
                }
                assert(queues@[i as int].wf());
            }
            let ghost before = log@;
            let _ = log.set_queue_offset(id, next);
            proof {
                assert forall|q: u32|
                    log@.next_queue_offset(q) == (if #[trigger] position(queues@, q, 0) < i + 1 {
                        queue_of(queues@, q).max_offset() as int
                    } else {
                        0
                    }) by {
                    crate::queue_store::lemma_position(queues@, q, 0);
                    if q != id {
                        assert(before.next_queue_offset(q) == log@.next_queue_offset(q));
                    }
                }
            }
            i += 1;
        }
        proof {
            let view = log@;
            let all = queues@;
            assert forall|k: int| 0 <= k < all.len() implies queue_consistent(
                view,
                #[trigger] all[k],
            ) by {
                let queue = all[k];
                crate::queue_store::lemma_position(all, queue.queue_id, 0);
                assert(position(all, queue.queue_id, 0) == k) by {
                    let p = position(all, queue.queue_id, 0);
                    if p < k {
                        assert(all[p].queue_id != all[k].queue_id);
                    }
                }
                assert forall|j: int|
                    0 <= j < queue.entries.len() && (#[trigger] queue.entries[j]).physical_offset
                        >= view.min_offset() implies resolves(
                    view,
                    queue.queue_id,
                    queue.first + j,
                    queue.entries[j],
                ) by {
                    lemma_same_records(
                        found_log,
                        view,
                        queue.queue_id,
                        queue.first + j,
                        queue.entries[j],
                    );
                }
            }
            assert forall|q: u32| !(#[trigger] has_queue(all, q)) implies view.next_queue_offset(
                q,
            ) == 0 by {
                assert(position(all, q, 0) >= n);
            }
        }
    }

    /// Whether `entry`, at logical offset `logical` of queue `queue_id`,
    /// resolves in `log`.
    fn entry_resolves(log: &CommitLog, queue_id: u32, logical: u64, entry: &ConsumeQueueEntry) -> (yes:
        bool)
        requires
            log.wf(),
        ensures
            yes == resolves(log@, queue_id, logical as int, *entry),
    {
        match log.read_record(entry.physical_offset, false) {
            Some(record) => record.message.queue_id == queue_id && record.queue_offset == logical
                && record.length == entry.size && record.message.tags_code
                == entry.tag_hash_code,
            None => false,
        }
    }

    /// Takes in a consume queue that was found in storage.
    fn load(log: &CommitLog, queues: &mut ConsumeQueueStore, saved: &SavedQueue)
        requires
            log.wf(),
            old(queues).wf(),
            indexed(log@, old(queues)@),
        ensures
            final(queues).wf(),
            indexed(log@, final(queues)@),
            final(queues)@ == load_queue(
                log@,
                old(queues)@,
                saved.queue_id,
                saved.first_offset,
                saved.entries@,
            ),
    {
        let n = saved.entries.len();
        let min = log.min_offset();
        let mut d: usize = 0;
        while d < n && saved.entries[d].physical_offset < min
            invariant
                d <= n,
                n == saved.entries@.len(),
                crate::consume_queue::leading_below(saved.entries@, min as int, 0) == d
                    + crate::consume_queue::leading_below(saved.entries@, min as int, d as int),
            decreases n - d,
        {
            d += 1;
        }
        if queues.has_queue(saved.queue_id) || d >= n || saved.first_offset > u64::MAX - d as u64 {
            return ;
        }
        let first = saved.first_offset + d as u64;
        if !Self::entry_resolves(log, saved.queue_id, first, &saved.entries[d]) {
            return ;
        }
        proof {
            lemma_record_found(log@, saved.entries@[d as int].physical_offset as int);
        }
        let mut queue = match crate::consume_queue::ConsumeQueue::starting_at(
            saved.queue_id,
            first,
            saved.entries[d].physical_offset,
        ) {
            Some(queue) => queue,
            None => {
                return ;
            },
        };
        let ghost start = queue@;
        let mut j: usize = d;
        while j < n
            invariant_except_break
                load_entries(log@, start, saved.entries@, d as int) == load_entries(
                    log@,
                    queue@,
                    saved.entries@,
                    j as int,
                ),
            invariant
                d <= j <= n,
                n == saved.entries@.len(),
                log.wf(),
                queue.wf(),
                queue@.queue_id == saved.queue_id,
                queue@.first == start.first,
                queue@.max_physical <= log@.max_offset(),
                forall|k: int|
                    0 <= k < queue@.entries.len() ==> resolves(
                        log@,
                        queue@.queue_id,
                        queue@.first + k,
                        #[trigger] queue@.entries[k],
                    ),
            ensures
                queue@ == load_entries(log@, start, saved.entries@, d as int),
            decreases n - j,
        {
            let entry = saved.entries[j];
            let logical = queue.max_offset();
            if entry.physical_offset < queue.max_physical_offset() || !Self::entry_resolves(
                log,
                saved.queue_id,
                logical,
                &entry,
            ) {
                break ;
            }
            proof {
                lemma_load_step(log@, queue@, entry);
            }
            let _ = queue.dispatch(entry.physical_offset, entry.size, entry.tag_hash_code);
            j += 1;
        }
        let ghost before = queues@;
        let _ = queues.insert_queue(queue);
        proof {
            let after = queues@;
            assert forall|i: int| 0 <= i < after.len() implies {
                &&& (#[trigger] after[i]).max_physical <= log@.max_offset()
                &&& forall|k: int|
                    0 <= k < after[i].entries.len() && (
                    #[trigger] after[i].entries[k]).physical_offset >= log@.min_offset()
                        ==> resolves(
                        log@,
                        after[i].queue_id,
                        after[i].first + k,
                        after[i].entries[k],
                    )
            } by {
                if i < before.len() {
                    assert(after[i] == before[i]);
                }
            }
        }
    }

    /// Rebuilds the store from the segment images and the consume queues
    /// found in storage. The commit log is recovered first. Of every saved
    /// queue the entries are kept that lead to records of that queue in the
    /// recovered log, up to the first that does not; then the log is
    /// replayed to index every record that the saved queues miss, and every
    /// queue gets the next offset that its index tells. Fails with
    /// `Corrupted` exactly if the images cannot be recovered at all; what is
    /// wrong with a saved queue only shortens it.
    pub fn recover_with_queues(
        images: &Vec<Vec<u8>>,
        saved: &Vec<SavedQueue>,
        base_offset: u64,
        segment_size: usize,
        max_segments: usize,
        max_message_size: usize,
        transient: bool,
        check_crc: bool,
    ) -> (result: Result<(MessageStore, RecoveryOutcome), StoreError>)
        ensures
            match result {
                Ok((store, outcome)) => {
                    let found = crate::commit_log::image_seqs(images@);
                    let log = crate::commit_log::recovered(
                        found,
                        base_offset as nat,
                        segment_size as nat,
                        max_segments as nat,
                        max_message_size as nat,
                        transient,
                        check_crc,
                    );
                    &&& crate::commit_log::recovery_input_ok(
                        found,
                        base_offset as nat,
                        segment_size as nat,
                        max_segments as nat,
                    )
                    &&& store.wf()
                    &&& store@.log.segments == log.segments
                    &&& store@.log.base_offset == log.base_offset
                    &&& store@.log.segment_size == log.segment_size
                    &&& store@.log.max_segments == log.max_segments
                    &&& store@.log.max_message_size == log.max_message_size
                    &&& store@.log.transient == log.transient
                    &&& store@.queues == index_from(
                        log,
                        log.min_offset() as int,
                        load_all(log, saved@, saved@.len() as int),
                    )
                    &&& outcome.last_valid_offset == store@.log.max_offset()
                    &&& outcome.last_valid_offset == crate::recovery::last_valid_offset(
                        found,
                        base_offset as int,
                        segment_size as int,
                        check_crc,
                    )
                    &&& outcome.kept_segments == store@.log.segments.len()
                    &&& outcome.kept_segments + outcome.dropped_segments == images@.len()
                    &&& outcome.wiped == crate::commit_log::holds_data_from(
                        found[store@.log.segments.len() - 1],
                        store@.log.last().write_position as int,
                    )
                },
                Err(e) => {
                    &&& e == StoreError::Corrupted
                    &&& !crate::commit_log::recovery_input_ok(
                        crate::commit_log::image_seqs(images@),
                        base_offset as nat,
                        segment_size as nat,
                        max_segments as nat,
                    )
                },
            },
    {
        let (log, outcome) = match CommitLog::recover(
            images,
            base_offset,
            segment_size,
            max_segments,
            max_message_size,
            transient,
            check_crc,
        ) {
            Ok(pair) => pair,
            Err(e) => {
                return Err(e);
            },
        };
        let mut log = log;
        let mut queues = ConsumeQueueStore::new();
        let n = saved.len();
        let mut i: usize = 0;
        while i < n
            invariant
                i <= n,
                n == saved@.len(),
                log.wf(),
                queues.wf(),
                indexed(log@, queues@),
                queues@ == load_all(log@, saved@, i as int),
            decreases n - i,
        {
            Self::load(&log, &mut queues, &saved[i]);
            i += 1;
        }
        let min = log.min_offset();
        Self::replay(&log, &mut queues, min);
        Self::align_counters(&mut log, &queues);
        let store = MessageStore { log, queues };
        Ok((store, outcome))
    }

    /// Goes back to a checkpoint: in every queue the entries that end above
    /// `checkpoint` are dropped; then the log is replayed from the end of the
    /// last entry that is left (or from the log's first offset, if that lies
    /// above) to index every record found from there on, and every queue gets
    /// the next offset that its index tells.
    pub fn redispatch_from(&mut self, checkpoint: u64)
        requires
            old(self).wf(),
        ensures
            final(self).wf(),
            final(self)@.log.base_offset == old(self)@.log.base_offset,
            final(self)@.log.segment_size == old(self)@.log.segment_size,
            final(self)@.log.segments == old(self)@.log.segments,
            final(self)@.log.max_segments == old(self)@.log.max_segments,
            final(self)@.log.max_message_size == old(self)@.log.max_message_size,
            final(self)@.log.transient == old(self)@.log.transient,
            ({
                let cut = old(self)@.queues.map_values(
                    |q: QueueView| q.truncate(checkpoint as nat),
                );
                let last = crate::queue_store::max_dispatched(cut, cut.len() as int);
                final(self)@.queues == index_from(
                    old(self)@.log,
                    if last < old(self)@.log.min_offset() {
                        old(self)@.log.min_offset() as int
                    } else {
                        last as int
                    },
                    cut,
                )
            }),
    {
        let ghost before = self@;
        proof {
            lemma_truncate_keeps_indexed(before.log, before.queues, checkpoint as nat);
        }
        self.queues.truncate(checkpoint);
        let min = self.log.min_offset();
        let last = self.queues.last_dispatched_offset();
        let from = if last < min {
            min
        } else {
            last
        };
        Self::replay(&self.log, &mut self.queues, from);
        Self::align_counters(&mut self.log, &self.queues);
    }

    /// Rebuilds the store from the segment images found in storage: recovers
    /// the commit log, replays it to index every record in its queue, and
    /// gives every queue the next offset that its index tells. Fails with
    /// `Corrupted` exactly if the images cannot be recovered at all.
    pub fn recover(
        images: &Vec<Vec<u8>>,
        base_offset: u64,
        segment_size: usize,
        max_segments: usize,
        max_message_size: usize,
        transient: bool,
        check_crc: bool,
    ) -> (result: Result<(MessageStore, RecoveryOutcome), StoreError>)
        ensures
            match result {
                Ok((store, outcome)) => {
                    let found = crate::commit_log::image_seqs(images@);
                    let log = crate::commit_log::recovered(
                        found,
                        base_offset as nat,
                        segment_size as nat,
                        max_segments as nat,
                        max_message_size as nat,
                        transient,
                        check_crc,
                    );
                    &&& crate::commit_log::recovery_input_ok(
                        found,
                        base_offset as nat,
                        segment_size as nat,
                        max_segments as nat,
                    )
                    &&& store.wf()
                    &&& crate::replay_laws::complete(store@)
                    &&& store@.log.recoverable(check_crc)
                    &&& store@.log.segments == log.segments
                    &&& store@.log.base_offset == log.base_offset
                    &&& store@.log.segment_size == log.segment_size
                    &&& store@.log.max_segments == log.max_segments
                    &&& store@.log.max_message_size == log.max_message_size
                    &&& store@.log.transient == log.transient
                    &&& store@.queues == index_from(
                        log,
                        log.min_offset() as int,
                        Seq::<QueueView>::empty(),
                    )
                    &&& outcome.last_valid_offset == store@.log.max_offset()
                    &&& outcome.last_valid_offset == crate::recovery::last_valid_offset(
                        found,
                        base_offset as int,
                        segment_size as int,
                        check_crc,
                    )
                    &&& outcome.kept_segments == store@.log.segments.len()
                    &&& outcome.kept_segments + outcome.dropped_segments == images@.len()
                    &&& outcome.wiped == crate::commit_log::holds_data_from(
                        found[store@.log.segments.len() - 1],
                        store@.log.last().write_position as int,
                    )
                },
                Err(e) => {
                    &&& e == StoreError::Corrupted
                    &&& !crate::commit_log::recovery_input_ok(
                        crate::commit_log::image_seqs(images@),
                        base_offset as nat,
                        segment_size as nat,
                        max_segments as nat,
                    )
                },
            },
    {
        let (log, outcome) = match CommitLog::recover(
            images,
            base_offset,
            segment_size,
            max_segments,
            max_message_size,
            transient,
            check_crc,
        ) {
            Ok(pair) => pair,
            Err(e) => {
                return Err(e);
            },
        };
        let mut log = log;
        let ghost found_log = log@;
        let mut queues = ConsumeQueueStore::new();
        let min = log.min_offset();
        Self::replay(&log, &mut queues, min);
        Self::align_counters(&mut log, &queues);
        let store = MessageStore { log, queues };
        proof {
            crate::log_laws::lemma_recovered_is_recoverable(
                crate::commit_log::image_seqs(images@),
                base_offset as nat,
                segment_size as nat,
                max_segments as nat,
                max_message_size as nat,
                transient,
                0,
                check_crc,
            );
            assert(store@.log.images() =~= found_log.images());
            crate::replay_laws::lemma_replay_same_records(
                found_log,
                store@.log,
                found_log.min_offset() as int,
                Seq::<QueueView>::empty(),
            );
            crate::replay_laws::lemma_rebuilt_is_complete(store@, check_crc);
        }
        Ok((store, outcome))
    }

    /// Takes a data frame from the master into a slave's store: the frame is
    /// taken into the log as `ha::apply_frame` says, the log is replayed
    /// from the end of the last entry on to index the records that have
    /// become whole, and every queue gets the next offset that its index
    /// tells. A record of which only a part has come is indexed once the
    /// rest has come.
    pub fn apply_frame(&mut self, header: crate::ha::FrameHeader, body: &[u8]) -> (result: Result<
        u64,
        StoreError,
    >)
        requires
            old(self).wf(),
        ensures
            final(self).wf(),
            ({
                let log = old(self)@.log;
                let taken = header.physical_offset == log.max_offset() && header.body_length
                    == body@.len();
                let after = if taken {
                    log.append_raw(body@)
                } else {
                    log
                };
                let last = crate::queue_store::max_dispatched(
                    old(self)@.queues,
                    old(self)@.queues.len() as int,
                );
                &&& final(self)@.log.segments == after.segments
                &&& final(self)@.log.base_offset == log.base_offset
                &&& final(self)@.log.segment_size == log.segment_size
                &&& final(self)@.log.max_segments == log.max_segments
                &&& final(self)@.log.max_message_size == log.max_message_size
                &&& final(self)@.log.transient == log.transient
                &&& final(self)@.queues == index_from(
                    after,
                    if last < log.min_offset() {
                        log.min_offset() as int
                    } else {
                        last as int
                    },
                    old(self)@.queues,
                )
                &&& header.physical_offset != log.max_offset() ==> result == Err::<
                    u64,
                    StoreError,
                >(StoreError::OffsetOutOfRange)
                &&& header.physical_offset == log.max_offset() && header.body_length
                    != body@.len() ==> result == Err::<u64, StoreError>(StoreError::Corrupted)
                &&& taken && log.raw_stored(body@) == body@.len() ==> result == Ok::<
                    u64,
                    StoreError,
                >(after.max_offset() as u64)
                &&& taken && log.raw_stored(body@) < body@.len() ==> result == Err::<
                    u64,
                    StoreError,
                >(StoreError::DiskFull)
            }),
    {
        let ghost before = self@;
        proof {
            crate::log_laws::lemma_append_raw(before.log, body@);
            crate::log_laws::lemma_append_raw_extends(before.log, body@);
            crate::store_laws::lemma_extends_keeps_indexed(
                before.log,
                before.log.append_raw(body@),
                before.queues,
            );
            crate::store_laws::lemma_extends_keeps_indexed(before.log, before.log, before.queues);
        }
        let result = crate::ha::apply_frame(&mut self.log, header, body);
        let min = self.log.min_offset();
        let last = self.queues.last_dispatched_offset();
        let from = if last < min {
            min
        } else {
            last
        };
        Self::replay(&self.log, &mut self.queues, from);
        Self::align_counters(&mut self.log, &self.queues);
        result
    }

    /// Takes note of a read that begins at `offset` of the log, so that the
    /// segment that holds it is not given up meanwhile. Succeeds exactly if
    /// the log holds the offset and the count of reads can go up.
    pub fn hold(&mut self, offset: u64) -> (held: bool)
        requires
            old(self).wf(),
        ensures
            final(self).wf(),
            final(self)@.queues == old(self)@.queues,
            held == old(self)@.log.can_hold(offset as int),
            held ==> final(self)@.log == old(self)@.log.hold(offset as int),
            !held ==> final(self)@.log == old(self)@.log,
    {
        let ghost before = self@;
        let held = self.log.hold(offset);
        proof {
            if held {
                crate::log_laws::lemma_position(before.log, offset as int);
            }
            lemma_positions_keep_consistency(before.log, self@.log, before.queues);
        }
        held
    }

    /// Takes note that a read that began at `offset` of the log has ended.
    pub fn release(&mut self, offset: u64)
        requires
            old(self).wf(),
        ensures
            final(self).wf(),
            final(self)@.queues == old(self)@.queues,
            final(self)@.log == if old(self)@.log.min_offset() <= offset < old(
                self,
            )@.log.max_offset() {
                old(self)@.log.release(offset as int)
            } else {
                old(self)@.log
            },
    {
        let ghost before = self@;
        self.log.release(offset);
        proof {
            if before.log.min_offset() <= offset < before.log.max_offset() {
                crate::log_laws::lemma_position(before.log, offset as int);
            }
            lemma_positions_keep_consistency(before.log, self@.log, before.queues);
        }
    }

    /// Commits the first segment of the log that waits for it. Returns the
    /// committed offset.
    pub fn commit(&mut self, least_pages: usize) -> (offset: u64)
        requires
            old(self).wf(),
        ensures
            final(self).wf(),
            final(self)@.queues == old(self)@.queues,
            final(self)@.log == old(self)@.log.commit(least_pages as nat),
            offset == final(self)@.log.committed_offset(),
    {
        let ghost before = self@;
        let offset = self.log.commit(least_pages);
        proof {
            crate::log_laws::lemma_first_waiting_exists(before.log, 0);
            lemma_positions_keep_consistency(before.log, self@.log, before.queues);
        }
        offset
    }

    /// Flushes the first segment of the log that waits for it. Returns the
    /// flushed offset.
    pub fn flush(&mut self, least_pages: usize) -> (offset: u64)
        requires
            old(self).wf(),
        ensures
            final(self).wf(),
            final(self)@.queues == old(self)@.queues,
            final(self)@.log == old(self)@.log.flush(least_pages as nat),
            offset == final(self)@.log.flushed_offset(),
    {
        let ghost before = self@;
        let offset = self.log.flush(least_pages);
        proof {
            crate::log_laws::lemma_first_waiting_exists(before.log, 0);
            lemma_positions_keep_consistency(before.log, self@.log, before.queues);
        }
        offset
    }
}

} // verus!
