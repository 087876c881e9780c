//! Why the store stays well-formed: what every operation does to the fit
//! of queues and log.

use crate::commit_log::LogView;
use crate::consume_queue::ConsumeQueueEntry;
use crate::consume_queue::QueueView;
use crate::log_laws::lemma_append_wf;
use crate::log_laws::lemma_locate;
use crate::log_laws::lemma_position;
use crate::log_laws::lemma_segment_ends;
use crate::queue_store::has_queue;
use crate::queue_store::lemma_with_queue;
use crate::queue_store::position;
use crate::queue_store::queue_of;
use crate::queue_store::queues_wf;
use crate::queue_store::with_queue;
use crate::record::declared_length;
use crate::record::lemma_header_length;
use crate::record::lemma_record_round_trip;
use crate::record::MessageView;
use crate::record::record_size;
use crate::recovery::lemma_valid_agree;
use crate::store::consistent;
use crate::store::entry_of;
use crate::store::index_record;
use crate::store::indexed;
use crate::store::loadable;
use crate::store::queue_consistent;
use crate::store::resolves;
use crate::store::segment_end_of;
use crate::store::StoreView;
use vstd::prelude::*;

verus! {

/// An append takes no record away: what resolved before it resolves after it.
pub proof fn lemma_append_keeps_resolved(
    log: LogView,
    message: MessageView,
    queue_id: u32,
    logical: int,
    entry: ConsumeQueueEntry,
)
    requires
        log.wf(),
        log.rejection(record_size(message)) is None,
        resolves(log, queue_id, logical, entry),
    ensures
        resolves(log.append_message(message), queue_id, logical, entry),
{
    let after = log.append_message(message);
    let offset = entry.physical_offset as int;
    let size = log.segment_size as int;
    let n = log.segments.len() as int;
    let k = (offset - log.base_offset) / size;
    let p = (offset - log.base_offset) % size;
    lemma_position(log, offset);
    lemma_append_wf(log, message);
    assert(log.segments[k].wf());
    assert(log.segments[n - 1].wf());
    let a = log.segments[k].image;
    let b = after.segments[k].image;
    assert forall|i: int| p <= i < p + declared_length(a, p) implies a[i] == b[i] by {}
    lemma_valid_agree(a, b, p, offset, false);
}

/// The entry of a message that was just appended resolves.
pub proof fn lemma_appended_resolves(log: LogView, message: MessageView)
    requires
        log.wf(),
        log.rejection(record_size(message)) is None,
    ensures
        resolves(
            log.append_message(message),
            message.queue_id,
            log.next_queue_offset(message.queue_id) as int,
            ConsumeQueueEntry {
                physical_offset: log.append_offset(record_size(message)) as u64,
                size: record_size(message) as u32,
                tag_hash_code: message.tags_code,
            },
        ),
{
    let after = log.append_message(message);
    let size = log.segment_size as int;
    let n = log.segments.len() as int;
    let len = record_size(message) as int;
    let at = log.append_offset(record_size(message));
    let queue_offset = log.next_queue_offset(message.queue_id);
    let bytes = log.record_for(message);
    lemma_header_length(message, queue_offset, at as u64);
    lemma_append_wf(log, message);
    assert(log.segments[n - 1].wf());
    if log.needs_roll(bytes.len()) {
        lemma_segment_ends(log, n - 1);
        assert((n - 1 + 1) * size == n * size);
        lemma_locate(n, size, 0);
        let image = after.segments[n].image;
        assert(image.subrange(0, len) =~= bytes);
        lemma_record_round_trip(image, 0, message, queue_offset, at as u64);
    } else {
        let w = log.last().write_position as int;
        lemma_locate(n - 1, size, w);
        let image = after.segments[n - 1].image;
        assert(image.subrange(w, w + len) =~= bytes);
        lemma_record_round_trip(image, w, message, queue_offset, at as u64);
    }
}

/// Putting a message keeps the store well-formed: every entry of every
/// queue, the new one included, leads to a record of that queue with that
/// logical offset.
pub proof fn lemma_put_keeps_wf(store: StoreView, message: MessageView)
    requires
        store.wf(),
        store.log.rejection(record_size(message)) is None,
    ensures
        store.put(message).wf(),
        queue_of(store.queues, message.queue_id).accepts(
            store.entry_for(message).physical_offset,
            store.entry_for(message).size,
        ),
        !queue_of(store.queues, message.queue_id).covers(
            store.entry_for(message).physical_offset,
            store.entry_for(message).size,
        ),
        queue_of(store.queues, message.queue_id).max_offset() == store.log.next_queue_offset(
            message.queue_id,
        ),
{
    let log = store.log;
    let queues = store.queues;
    let after = store.put(message);
    let q = message.queue_id;
    let entry = store.entry_for(message);
    let queue = queue_of(queues, q);
    let n = log.segments.len() as int;
    lemma_append_wf(log, message);
    lemma_appended_resolves(log, message);
    crate::queue_store::lemma_position(queues, q, 0);
    assert(log.segments[n - 1].wf());
    if has_queue(queues, q) {
        assert(queue_consistent(log, queue));
    }
    assert(queue.wf());
    assert(queue.max_physical <= log.max_offset());
    assert(queue.accepts(entry.physical_offset, entry.size));
    assert(!queue.covers(entry.physical_offset, entry.size));
    let grown = queue.dispatch(entry);
    crate::consume_queue::lemma_dispatch_idempotent(queue, entry);
    assert(after.queues == with_queue(queues, grown));
    assert(queue_consistent(after.log, grown)) by {
        assert forall|j: int|
            0 <= j < grown.entries.len() && (#[trigger] grown.entries[j]).physical_offset
                >= after.log.min_offset() implies resolves(
            after.log,
            grown.queue_id,
            grown.first + j,
            grown.entries[j],
        ) by {
            if j < queue.entries.len() {
                assert(grown.entries[j] == queue.entries[j]);
                lemma_append_keeps_resolved(log, message, q, queue.first + j, queue.entries[j]);
            }
        }
    }
    assert forall|i: int| 0 <= i < after.queues.len() implies queue_consistent(
        after.log,
        #[trigger] after.queues[i],
    ) by {
        let other = after.queues[i];
        if other != grown {
            assert(i < queues.len() && other == queues[i]);
            assert(queue_consistent(log, other));
            assert(other.queue_id != q);
            assert forall|j: int|
                0 <= j < other.entries.len() && (#[trigger] other.entries[j]).physical_offset
                    >= after.log.min_offset() implies resolves(
                after.log,
                other.queue_id,
                other.first + j,
                other.entries[j],
            ) by {
                lemma_append_keeps_resolved(
                    log,
                    message,
                    other.queue_id,
                    other.first + j,
                    other.entries[j],
                );
            }
        }
    }
    assert forall|id: u32| !(#[trigger] has_queue(after.queues, id)) implies after.log.next_queue_offset(
        id,
    ) == 0 by {
        lemma_with_queue(queues, grown, id);
    }
    lemma_with_queue(queues, grown, q);
}

/// What stays the same when only the commit and flush positions of a log
/// move: every record, and with it the fit of every queue.
pub proof fn lemma_positions_keep_consistency(log: LogView, after: LogView, queues: Seq<QueueView>)
    requires
        consistent(log, queues),
        after.base_offset == log.base_offset,
        after.segment_size == log.segment_size,
        after.queue_offsets == log.queue_offsets,
        after.segments.len() == log.segments.len(),
        forall|k: int|
            0 <= k < log.segments.len() ==> (#[trigger] after.segments[k]).image
                == log.segments[k].image && after.segments[k].write_position
                == log.segments[k].write_position && after.segments[k].base_offset
                == log.segments[k].base_offset,
        log.wf(),
    ensures
        consistent(after, queues),
{
    let n = log.segments.len() as int;
    assert(after.segments[n - 1].write_position == log.segments[n - 1].write_position);
    assert forall|i: int| 0 <= i < queues.len() implies queue_consistent(
        after,
        #[trigger] queues[i],
    ) by {
        let queue = queues[i];
        assert(queue_consistent(log, queue));
        assert forall|j: int|
            0 <= j < queue.entries.len() && (#[trigger] queue.entries[j]).physical_offset
                >= after.min_offset() implies resolves(
            after,
            queue.queue_id,
            queue.first + j,
            queue.entries[j],
        ) by {
            let entry = queue.entries[j];
            assert(resolves(log, queue.queue_id, queue.first + j, entry));
            lemma_position(log, entry.physical_offset as int);
        }
    }
    assert forall|q: u32| !(#[trigger] has_queue(queues, q)) implies after.next_queue_offset(q)
        == 0 by {
        assert(log.next_queue_offset(q) == 0);
    }
}

/// A segment ends above every offset that it holds.
pub proof fn lemma_segment_end_is_ahead(log: LogView, offset: int)
    requires
        log.segment_size > 0,
        log.base_offset <= offset,
    ensures
        segment_end_of(log, offset) > offset,
{
    let size = log.segment_size as int;
    let rel = offset - log.base_offset;
    vstd::arithmetic::div_mod::lemma_fundamental_div_mod(rel, size);
    vstd::arithmetic::div_mod::lemma_mod_bound(rel, size);
    vstd::arithmetic::mul::lemma_mul_is_commutative(size, rel / size);
    assert((rel / size + 1) * size == (rel / size) * size + size) by (nonlinear_arith);
}

/// What is known of a record that starts at `offset`: it lies where it says
/// it lies, below the end of the log, its queue offset is no larger than
/// its physical offset, and its entry resolves.
pub proof fn lemma_record_found(log: LogView, offset: int)
    requires
        log.wf(),
        log.record_starts_at(offset, false),
    ensures
        ({
            let record = log.record_view_at(offset);
            &&& record.physical_offset == offset
            &&& record.queue_offset <= offset
            &&& record.length >= 76
            &&& offset + record.length <= log.max_offset()
            &&& resolves(log, record.message.queue_id, record.queue_offset as int, entry_of(record))
        }),
{
    lemma_position(log, offset);
    let k = (offset - log.base_offset) / log.segment_size as int;
    lemma_segment_ends(log, k);
}

/// Indexing a record keeps the queues well-formed and an index of the log.
pub proof fn lemma_index_record(log: LogView, queues: Seq<QueueView>, offset: int)
    requires
        log.wf(),
        queues_wf(queues),
        indexed(log, queues),
        log.record_starts_at(offset, false),
    ensures
        queues_wf(index_record(queues, log.record_view_at(offset))),
        indexed(log, index_record(queues, log.record_view_at(offset))),
{
    let record = log.record_view_at(offset);
    let q = record.message.queue_id;
    let entry = entry_of(record);
    let after = index_record(queues, record);
    lemma_record_found(log, offset);
    crate::queue_store::lemma_position(queues, q, 0);
    if !has_queue(queues, q) {
        let opened = QueueView {
            queue_id: q,
            first: record.queue_offset as nat,
            entries: Seq::empty(),
            min_offset: record.queue_offset as nat,
            max_physical: record.physical_offset as nat,
        };
        let pushed = queues.push(opened);
        assert(queues_wf(pushed)) by {
            assert forall|a: int, b: int| 0 <= a < b < pushed.len() implies (
            #[trigger] pushed[a]).queue_id != (#[trigger] pushed[b]).queue_id by {
                if b < queues.len() {
                    assert(pushed[a] == queues[a] && pushed[b] == queues[b]);
                } else {
                    assert(pushed[a] == queues[a]);
                }
            }
        }
        crate::queue_store::lemma_position(pushed, q, 0);
        assert(position(pushed, q, 0) == queues.len()) by {
            let r = position(pushed, q, 0);
            if r < queues.len() {
                assert(pushed[r] == queues[r]);
            }
            if r > queues.len() {
                assert(pushed[queues.len() as int].queue_id == q);
            }
        }
        assert(queue_of(pushed, q) == opened);
        let grown = opened.dispatch(entry);
        crate::consume_queue::lemma_dispatch_idempotent(opened, entry);
        lemma_with_queue(pushed, grown, q);
        assert(after == with_queue(pushed, grown));
        assert(grown.entries =~= seq![entry]);
        assert forall|i: int| 0 <= i < after.len() implies {
            &&& (#[trigger] after[i]).max_physical <= log.max_offset()
            &&& forall|j: int|
                0 <= j < after[i].entries.len() && (#[trigger] after[i].entries[j]).physical_offset
                    >= log.min_offset() ==> resolves(
                    log,
                    after[i].queue_id,
                    after[i].first + j,
                    after[i].entries[j],
                )
        } by {
            if i < queues.len() {
                assert(after[i] == queues[i]);
            } else {
                assert(after[i] == grown);
            }
        }
    } else if queue_of(queues, q).max_offset() == record.queue_offset {
        let queue = queue_of(queues, q);
        let p = position(queues, q, 0);
        assert(queue == queues[p]);
        if queue.accepts(entry.physical_offset, entry.size) {
            let grown = queue.dispatch(entry);
            crate::consume_queue::lemma_dispatch_idempotent(queue, entry);
            lemma_with_queue(queues, grown, q);
            assert(after == with_queue(queues, grown));
            assert forall|i: int| 0 <= i < after.len() implies {
                &&& (#[trigger] after[i]).max_physical <= log.max_offset()
                &&& forall|j: int|
                    0 <= j < after[i].entries.len() && (
                    #[trigger] after[i].entries[j]).physical_offset >= log.min_offset()
                        ==> resolves(
                        log,
                        after[i].queue_id,
                        after[i].first + j,
                        after[i].entries[j],
                    )
            } by {
                if i != p {
                    assert(after[i] == queues[i]);
                } else {
                    assert(after[i] == grown);
                    assert forall|j: int|
                        0 <= j < grown.entries.len() && (
                        #[trigger] grown.entries[j]).physical_offset >= log.min_offset() implies resolves(
                        log,
                        grown.queue_id,
                        grown.first + j,
                        grown.entries[j],
                    ) by {
                        if j < queue.entries.len() {
                            assert(grown.entries[j] == queue.entries[j]);
                        }
                    }
                }
            }
        }
    }
}

/// Taking in an entry that resolves keeps a queue well-formed and inside
/// the log, with every entry resolving.
pub proof fn lemma_load_step(log: LogView, queue: QueueView, entry: ConsumeQueueEntry)
    requires
        log.wf(),
        queue.wf(),
        queue.max_physical <= log.max_offset(),
        forall|j: int|
            0 <= j < queue.entries.len() ==> resolves(
                log,
                queue.queue_id,
                queue.first + j,
                #[trigger] queue.entries[j],
            ),
        loadable(log, queue, entry),
    ensures
        queue.accepts(entry.physical_offset, entry.size),
        !queue.covers(entry.physical_offset, entry.size),
        queue.dispatch(entry).wf(),
        queue.dispatch(entry).queue_id == queue.queue_id,
        queue.dispatch(entry).max_physical <= log.max_offset(),
        forall|j: int|
            0 <= j < queue.dispatch(entry).entries.len() ==> resolves(
                log,
                queue.queue_id,
                queue.first + j,
                #[trigger] queue.dispatch(entry).entries[j],
            ),
{
    lemma_record_found(log, entry.physical_offset as int);
    crate::consume_queue::lemma_dispatch_idempotent(queue, entry);
    let grown = queue.dispatch(entry);
    assert forall|j: int| 0 <= j < grown.entries.len() implies resolves(
        log,
        queue.queue_id,
        queue.first + j,
        #[trigger] grown.entries[j],
    ) by {
        if j < queue.entries.len() {
            assert(grown.entries[j] == queue.entries[j]);
        }
    }
}

/// Whether a record lies at an offset depends on the segments' bytes and
/// write positions alone.
pub proof fn lemma_same_records(
    log: LogView,
    after: LogView,
    queue_id: u32,
    logical: int,
    entry: ConsumeQueueEntry,
)
    requires
        log.wf(),
        after.base_offset == log.base_offset,
        after.segment_size == log.segment_size,
        after.segments.len() == log.segments.len(),
        forall|k: int|
            0 <= k < log.segments.len() ==> (#[trigger] after.segments[k]).image
                == log.segments[k].image && after.segments[k].write_position
                == log.segments[k].write_position && after.segments[k].base_offset
                == log.segments[k].base_offset,
        resolves(log, queue_id, logical, entry),
    ensures
        resolves(after, queue_id, logical, entry),
{
    let n = log.segments.len() as int;
    assert(after.segments[n - 1].write_position == log.segments[n - 1].write_position);
    lemma_position(log, entry.physical_offset as int);
}

/// Giving up the log's oldest segments keeps the log well-formed, moves
/// neither its end nor its queue offsets, and takes no record away that lies
/// at or above the new first offset.
pub proof fn lemma_expire(log: LogView, offset: nat)
    requires
        log.wf(),
    ensures
        log.expire(offset).wf(),
        log.expire(offset).max_offset() == log.max_offset(),
        log.expire(offset).queue_offsets == log.queue_offsets,
        log.expire(offset).min_offset() >= log.min_offset(),
        forall|queue_id: u32, logical: int, entry: ConsumeQueueEntry|
            entry.physical_offset >= log.expire(offset).min_offset() && #[trigger] resolves(
                log,
                queue_id,
                logical,
                entry,
            ) ==> resolves(log.expire(offset), queue_id, logical, entry),
    decreases log.segments.len(),
{
    let n = log.segments.len() as int;
    let size = log.segment_size as int;
    if log.oldest_expired(offset) {
        let next = LogView {
            base_offset: log.base_offset + log.segment_size,
            segments: log.segments.subrange(1, n),
            ..log
        };
        assert forall|k: int| 0 <= k < next.segments.len() implies {
            &&& (#[trigger] next.segments[k]).wf()
            &&& next.segments[k].image.len() == next.segment_size
            &&& next.segments[k].base_offset == next.base_offset + k * next.segment_size
            &&& next.segments[k].transient == next.transient
        } by {
            assert(log.segments[k + 1].wf());
            assert((k + 1) * size == k * size + size) by (nonlinear_arith);
        }
        assert forall|k: int| 0 <= k < next.segments.len() - 1 implies (
        #[trigger] next.segments[k]).is_full() by {
            assert(log.segments[k + 1].is_full());
        }
        assert(next.last() == log.last());
        assert(next.wf());
        lemma_expire(next, offset);
        assert forall|queue_id: u32, logical: int, entry: ConsumeQueueEntry|
            entry.physical_offset >= log.expire(offset).min_offset() && #[trigger] resolves(
                log,
                queue_id,
                logical,
                entry,
            ) implies resolves(log.expire(offset), queue_id, logical, entry) by {
            let o = entry.physical_offset as int;
            lemma_position(log, o);
            let k = (o - log.base_offset) / size;
            let p = (o - log.base_offset) % size;
            assert(k >= 1) by {
                if k <= 0 {
                    assert(k * size == 0) by (nonlinear_arith)
                        requires
                            k == 0,
                    ;
                }
            }
            assert((k - 1) * size == k * size - size) by (nonlinear_arith);
            lemma_locate(k - 1, size, p);
            assert(next.segments[k - 1] == log.segments[k]);
            assert(resolves(next, queue_id, logical, entry));
        }
    }
}

/// Mapping the queues in a way that keeps their ids keeps the place of
/// every id.
pub proof fn lemma_ids_kept(a: Seq<QueueView>, b: Seq<QueueView>, queue_id: u32, i: int)
    requires
        a.len() == b.len(),
        forall|k: int| 0 <= k < a.len() ==> (#[trigger] a[k]).queue_id == b[k].queue_id,
        0 <= i <= a.len(),
    ensures
        position(a, queue_id, i) == position(b, queue_id, i),
    decreases a.len() - i,
{
    if i < a.len() {
        assert(a[i].queue_id == b[i].queue_id);
        if a[i].queue_id != queue_id {
            lemma_ids_kept(a, b, queue_id, i + 1);
        }
    }
}

/// Giving up the log's oldest segments, and in every queue the entries that
/// point below what the log then holds, keeps the store well-formed.
pub proof fn lemma_expire_keeps_wf(store: StoreView, offset: nat)
    requires
        store.wf(),
    ensures
        ({
            let log = store.log.expire(offset);
            let queues = store.queues.map_values(
                |q: QueueView| q.delete_expired(log.min_offset()),
            );
            (StoreView { log, queues }).wf()
        }),
{
    let log = store.log.expire(offset);
    let min = log.min_offset();
    let f = |q: QueueView| q.delete_expired(min);
    let queues = store.queues.map_values(f);
    lemma_expire(store.log, offset);
    assert forall|i: int| 0 <= i < queues.len() implies (#[trigger] queues[i]).wf()
        && queue_consistent(log, queues[i]) && queues[i].queue_id
        == store.queues[i].queue_id by {
        let old_queue = store.queues[i];
        let queue = queues[i];
        assert(queue == old_queue.delete_expired(min));
        assert(old_queue.wf());
        assert(queue_consistent(store.log, old_queue));
        let d = crate::consume_queue::leading_below(old_queue.entries, min as int, 0);
        crate::consume_queue::lemma_leading_bounds(old_queue.entries, min as int, 0);
        assert forall|j: int| 0 <= j < queue.entries.len() implies (#[trigger] queue.entries[j])
            == old_queue.entries[j + d] by {}
        assert forall|a: int, b: int| 0 <= a < b < queue.entries.len() implies (
        #[trigger] queue.entries[a]).end() <= (#[trigger] queue.entries[b]).physical_offset by {
            assert(queue.entries[a] == old_queue.entries[a + d]);
            assert(queue.entries[b] == old_queue.entries[b + d]);
        }
        assert forall|j: int|
            0 <= j < queue.entries.len() && (#[trigger] queue.entries[j]).physical_offset
                >= log.min_offset() implies resolves(
            log,
            queue.queue_id,
            queue.first + j,
            queue.entries[j],
        ) by {
            assert(queue.entries[j] == old_queue.entries[j + d]);
            assert(resolves(
                store.log,
                old_queue.queue_id,
                old_queue.first + (j + d),
                old_queue.entries[j + d],
            ));
        }
        if queue.entries.len() > 0 {
            assert(queue.entries.last() == old_queue.entries.last());
        }
    }
    assert forall|a: int, b: int| 0 <= a < b < queues.len() implies (#[trigger] queues[a]).queue_id
        != (#[trigger] queues[b]).queue_id by {
        assert(store.queues[a].queue_id != store.queues[b].queue_id);
    }
    assert forall|q: u32| !(#[trigger] has_queue(queues, q)) implies log.next_queue_offset(q)
        == 0 by {
        lemma_ids_kept(store.queues, queues, q, 0);
        assert(!has_queue(store.queues, q));
    }
}

/// Dropping, in every queue, the entries beyond a checkpoint leaves queues
/// that still index the log.
pub proof fn lemma_truncate_keeps_indexed(log: LogView, queues: Seq<QueueView>, physical: nat)
    requires
        queues_wf(queues),
        consistent(log, queues),
    ensures
        indexed(log, queues.map_values(|q: QueueView| q.truncate(physical))),
{
    let f = |q: QueueView| q.truncate(physical);
    let cut = queues.map_values(f);
    assert forall|i: int| 0 <= i < cut.len() implies {
        &&& (#[trigger] cut[i]).max_physical <= log.max_offset()
        &&& forall|j: int|
            0 <= j < cut[i].entries.len() && (#[trigger] cut[i].entries[j]).physical_offset
                >= log.min_offset() ==> resolves(
                log,
                cut[i].queue_id,
                cut[i].first + j,
                cut[i].entries[j],
            )
    } by {
        let queue = queues[i];
        assert(cut[i] == queue.truncate(physical));
        assert(queue.wf());
        assert(queue_consistent(log, queue));
        crate::consume_queue::lemma_trailing_bounds(
            queue.entries,
            physical as int,
            queue.entries.len() as int,
        );
        let kept = cut[i].entries;
        assert forall|j: int|
            0 <= j < kept.len() && (#[trigger] kept[j]).physical_offset
                >= log.min_offset() implies resolves(log, queue.queue_id, queue.first + j, kept[j]) by {
            assert(kept[j] == queue.entries[j]);
        }
        if kept.len() > 0 {
            assert(kept.last() == queue.entries[kept.len() - 1]);
        }
    }
}

/// Realigning the reported minimum of every queue keeps the store
/// well-formed.
pub proof fn lemma_correct_keeps_wf(store: StoreView, min_physical: nat)
    requires
        store.wf(),
    ensures
        (StoreView {
            log: store.log,
            queues: store.queues.map_values(|q: QueueView| q.correct_min_offset(min_physical)),
        }).wf(),
{
    let f = |q: QueueView| q.correct_min_offset(min_physical);
    let queues = store.queues.map_values(f);
    assert forall|i: int| 0 <= i < queues.len() implies (#[trigger] queues[i]).wf()
        && queue_consistent(store.log, queues[i]) by {
        let old_queue = store.queues[i];
        assert(queues[i] == old_queue.correct_min_offset(min_physical));
        assert(old_queue.wf());
        assert(queue_consistent(store.log, old_queue));
        crate::consume_queue::lemma_leading_bounds(old_queue.entries, min_physical as int, 0);
    }
    assert forall|a: int, b: int| 0 <= a < b < queues.len() implies (#[trigger] queues[a]).queue_id
        != (#[trigger] queues[b]).queue_id by {
        assert(store.queues[a].queue_id != store.queues[b].queue_id);
    }
    assert forall|q: u32| !(#[trigger] has_queue(queues, q)) implies store.log.next_queue_offset(
        q,
    ) == 0 by {
        lemma_ids_kept(store.queues, queues, q, 0);
        assert(!has_queue(store.queues, q));
    }
}
/// Writing more to the log leaves queues that still index it.
pub proof fn lemma_extends_keeps_indexed(log: LogView, after: LogView, queues: Seq<QueueView>)
    requires
        log.wf(),
        after.wf(),
        crate::commit_log::extends(log, after),
        consistent(log, queues),
    ensures
        indexed(after, queues),
{
    assert forall|i: int| 0 <= i < queues.len() implies {
        &&& (#[trigger] queues[i]).max_physical <= after.max_offset()
        &&& forall|j: int|
            0 <= j < queues[i].entries.len() && (#[trigger] queues[i].entries[j]).physical_offset
                >= after.min_offset() ==> resolves(
                after,
                queues[i].queue_id,
                queues[i].first + j,
                queues[i].entries[j],
            )
    } by {
        let queue = queues[i];
        assert(queue_consistent(log, queue));
        assert forall|j: int|
            0 <= j < queue.entries.len() && (#[trigger] queue.entries[j]).physical_offset
                >= after.min_offset() implies resolves(
            after,
            queue.queue_id,
            queue.first + j,
            queue.entries[j],
        ) by {
            assert(resolves(log, queue.queue_id, queue.first + j, queue.entries[j]));
            crate::log_laws::lemma_extends_keeps_record(
                log,
                after,
                queue.entries[j].physical_offset as int,
            );
        }
    }
}

} // verus!
