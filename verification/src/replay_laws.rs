//! What holds of a replay of the commit log: in a store that was only ever
//! put to, the consume queues are exactly what a replay of the whole log
//! gives, so a rebuild changes no entry.

use crate::commit_log::extends;
use crate::commit_log::LogView;
use crate::log_laws::lemma_extends_full_segment;
use crate::log_laws::lemma_extends_keeps_record;
use crate::consume_queue::QueueView;
use crate::log_laws::lemma_append_wf;
use crate::log_laws::lemma_locate;
use crate::log_laws::lemma_position;
use crate::log_laws::lemma_segment_ends;
use crate::queue_store::has_queue;
use crate::queue_store::position;
use crate::queue_store::queue_of;
use crate::queue_store::with_dispatch;
use crate::queue_store::with_queue;
use crate::record::declared_length;
use crate::record::lemma_header_length;
use crate::record::MessageView;
use crate::record::record_size;
use crate::record::record_valid_at;
use crate::recovery::blank_at;
use crate::recovery::lemma_scan_segment_bounds;
use crate::recovery::lemma_valid_agree;
use crate::recovery::lemma_zeros_invalid;
use crate::recovery::scan_segment;
use crate::store::entry_of;
use crate::store::index_from;
use crate::store::index_record;
use crate::store::queue_consistent;
use crate::store::segment_end_of;
use crate::store::StoreView;
use crate::store_laws::lemma_appended_resolves;
use crate::store_laws::lemma_put_keeps_wf;
use crate::store_laws::lemma_record_found;
use crate::store_laws::lemma_segment_end_is_ahead;
use vstd::prelude::*;

verus! {

/// Whether a replay from `offset` walks the log to its very end: over
/// records, and over the rest of segments in which no record starts.
pub open spec fn tidy_from(log: LogView, offset: int) -> bool
    decreases log.max_offset() - offset,
{
    if offset == log.max_offset() {
        true
    } else if log.min_offset() <= offset < log.max_offset() {
        let length = log.record_view_at(offset).length;
        let end = segment_end_of(log, offset);
        if log.record_starts_at(offset, false) {
            length > 0 && offset + length <= log.max_offset() && tidy_from(log, offset + length)
        } else {
            offset < end <= log.max_offset() && tidy_from(log, end)
        }
    } else {
        false
    }
}

/// Whether the queues hold exactly what a replay of the whole log gives.
pub open spec fn complete(store: StoreView) -> bool {
    &&& tidy_from(store.log, store.log.min_offset() as int)
    &&& store.queues == index_from(
        store.log,
        store.log.min_offset() as int,
        Seq::<QueueView>::empty(),
    )
}

/// An append extends the log.
pub proof fn lemma_append_extends(log: LogView, message: MessageView)
    requires
        log.wf(),
        log.rejection(record_size(message)) is None,
    ensures
        extends(log, log.append_message(message)),
        log.append_message(message).wf(),
{
    let after = log.append_message(message);
    let n = log.segments.len() as int;
    lemma_append_wf(log, message);
    assert(log.segments[n - 1].wf());
    assert forall|k: int| 0 <= k < log.segments.len() implies {
        &&& (#[trigger] after.segments[k]).write_position >= log.segments[k].write_position
        &&& forall|i: int|
            0 <= i < log.segments[k].write_position ==> after.segments[k].image[i]
                == log.segments[k].image[i]
    } by {
        assert(log.segments[k].wf());
    }
}

/// A replay of an extended log from `offset` first does what the replay of
/// the log itself does, and goes on from the log's old end: the records that
/// the log held are indexed as before.
pub proof fn lemma_replay_prefix(log: LogView, after: LogView, offset: int, queues: Seq<QueueView>)
    requires
        log.wf(),
        after.wf(),
        extends(log, after),
        tidy_from(log, offset),
        log.min_offset() <= offset <= log.max_offset(),
    ensures
        index_from(after, offset, queues) == index_from(
            after,
            log.max_offset() as int,
            index_from(log, offset, queues),
        ),
        tidy_from(after, offset) == tidy_from(after, log.max_offset() as int),
    decreases log.max_offset() - offset,
{
    if offset < log.max_offset() {
        let size = log.segment_size as int;
        let k = (offset - log.base_offset) / size;
        lemma_position(log, offset);
        lemma_segment_ends(log, k);
        let end = segment_end_of(log, offset);
        assert(segment_end_of(after, offset) == end);
        if log.record_starts_at(offset, false) {
            let record = log.record_view_at(offset);
            lemma_record_found(log, offset);
            lemma_extends_keeps_record(log, after, offset);
            lemma_replay_prefix(
                log,
                after,
                offset + record.length,
                index_record(queues, record),
            );
        } else {
            lemma_segment_end_is_ahead(log, offset);
            assert(end == log.base_offset + (k + 1) * size);
            assert((k + 1) * size == k * size + size) by (nonlinear_arith);
            assert(log.segments[k].is_full()) by {
                let n = log.segments.len() as int;
                if k == n - 1 {
                    assert(log.segments[k].wf());
                }
            }
            if after.record_starts_at(offset, false) {
                lemma_extends_full_segment(log, after, offset);
            }
            lemma_replay_prefix(log, after, end, queues);
        }
    }
}

/// A store without a message is complete.
pub proof fn lemma_empty_is_complete(store: StoreView)
    requires
        store.log.max_offset() == store.log.min_offset(),
        store.queues == Seq::<QueueView>::empty(),
    ensures
        complete(store),
{
}

/// Putting a message keeps a store complete: afterwards the queues are again
/// exactly what a replay of the whole log gives. So rebuilding the queues of
/// a store that was only ever put to changes none of them: no entry drifts.
pub proof fn lemma_put_keeps_complete(store: StoreView, message: MessageView)
    requires
        store.wf(),
        complete(store),
        store.log.rejection(record_size(message)) is None,
    ensures
        complete(store.put(message)),
{
    let log = store.log;
    let after = store.put(message).log;
    let queues = store.queues;
    let q = message.queue_id;
    let entry = store.entry_for(message);
    let n = log.segments.len() as int;
    let size = log.segment_size as int;
    let w = log.last().write_position as int;
    let at = log.append_offset(record_size(message)) as int;
    let start = log.min_offset() as int;
    let none = Seq::<QueueView>::empty();
    lemma_append_extends(log, message);
    lemma_put_keeps_wf(store, message);
    lemma_appended_resolves(log, message);
    lemma_header_length(message, log.next_queue_offset(q), at as u64);
    assert(log.segments[n - 1].wf());
    lemma_segment_ends(log, n - 1);
    lemma_replay_prefix(log, after, start, none);
    let record = after.record_view_at(at);
    lemma_record_found(after, at);
    assert(entry_of(record) == entry);
    assert(index_record(queues, record) == with_dispatch(queues, q, entry)) by {
        crate::queue_store::lemma_position(queues, q, 0);
        if !has_queue(queues, q) {
            let opened = QueueView {
                queue_id: q,
                first: record.queue_offset as nat,
                entries: Seq::empty(),
                min_offset: record.queue_offset as nat,
                max_physical: record.physical_offset as nat,
            };
            let pushed = queues.push(opened);
            crate::queue_store::lemma_position(pushed, q, 0);
            assert(position(pushed, q, 0) == queues.len()) by {
                let r = position(pushed, q, 0);
                if r < queues.len() {
                    assert(pushed[r] == queues[r]);
                }
                if r > queues.len() {
                    assert(pushed[queues.len() as int].queue_id == q);
                }
            }
            assert(queue_of(pushed, q) == opened);
            assert(opened.dispatch(entry) == QueueView::empty(q).dispatch(entry));
            assert(with_queue(pushed, opened.dispatch(entry)) =~= with_queue(
                queues,
                QueueView::empty(q).dispatch(entry),
            ));
        } else {
            assert(queue_consistent(log, queue_of(queues, q)));
        }
    }
    let grown = index_record(queues, record);
    assert(after.record_starts_at(at, false));
    assert(record.length == record_size(message));
    assert(at + record.length == after.max_offset());
    assert(after.min_offset() <= at < after.max_offset());
    assert(index_from(after, after.max_offset() as int, grown) == grown);
    assert(index_from(after, at, queues) == index_from(after, at + record.length, grown));
    assert(tidy_from(after, after.max_offset() as int));
    assert(tidy_from(after, at));
    if at > log.max_offset() {
        let image = after.segments[n - 1].image;
        assert(image == log.segments[n - 1].image);
        lemma_zeros_invalid(image, w, log.max_offset() as int, false);
        lemma_locate(n - 1, size, w);
        assert((n - 1 + 1) * size == (n - 1) * size + size) by (nonlinear_arith);
        assert(segment_end_of(after, log.max_offset() as int) == at);
        assert(!after.record_starts_at(log.max_offset() as int, false));
        assert(index_from(after, log.max_offset() as int, queues) == index_from(
            after,
            at,
            queues,
        ));
        assert(tidy_from(after, log.max_offset() as int));
    }
}

/// Whether two logs hold the same bytes, written equally far, in the same
/// segments.
pub open spec fn same_records(log: LogView, other: LogView) -> bool {
    &&& other.base_offset == log.base_offset
    &&& other.segment_size == log.segment_size
    &&& other.segments.len() == log.segments.len()
    &&& forall|k: int|
        0 <= k < log.segments.len() ==> (#[trigger] other.segments[k]).image
            == log.segments[k].image && other.segments[k].write_position
            == log.segments[k].write_position && other.segments[k].base_offset
            == log.segments[k].base_offset
}

/// A replay goes by the bytes and the write positions alone.
pub proof fn lemma_replay_same_records(
    log: LogView,
    other: LogView,
    offset: int,
    queues: Seq<QueueView>,
)
    requires
        log.wf(),
        same_records(log, other),
    ensures
        index_from(other, offset, queues) == index_from(log, offset, queues),
    decreases log.max_offset() - offset,
{
    let n = log.segments.len() as int;
    assert(other.segments[n - 1].write_position == log.segments[n - 1].write_position);
    assert(other.max_offset() == log.max_offset());
    if log.min_offset() <= offset < log.max_offset() {
        lemma_position(log, offset);
        assert(other.record_starts_at(offset, false) == log.record_starts_at(offset, false));
        assert(other.record_view_at(offset) == log.record_view_at(offset));
        assert(segment_end_of(other, offset) == segment_end_of(log, offset));
        let record = log.record_view_at(offset);
        let end = segment_end_of(log, offset);
        if log.record_starts_at(offset, false) {
            if record.length > 0 && offset + record.length <= log.max_offset() {
                lemma_replay_same_records(
                    log,
                    other,
                    offset + record.length,
                    index_record(queues, record),
                );
            }
        } else if offset < end < log.max_offset() {
            lemma_replay_same_records(log, other, end, queues);
        }
    }
}

/// Whether a replay walks a log to its end depends on the bytes and the
/// write positions alone.
pub proof fn lemma_tidy_same_records(log: LogView, other: LogView, offset: int)
    requires
        log.wf(),
        same_records(log, other),
    ensures
        tidy_from(other, offset) == tidy_from(log, offset),
    decreases log.max_offset() - offset,
{
    let n = log.segments.len() as int;
    assert(other.segments[n - 1].write_position == log.segments[n - 1].write_position);
    assert(other.max_offset() == log.max_offset());
    if log.min_offset() <= offset < log.max_offset() {
        lemma_position(log, offset);
        assert(other.record_starts_at(offset, false) == log.record_starts_at(offset, false));
        assert(other.record_view_at(offset) == log.record_view_at(offset));
        assert(segment_end_of(other, offset) == segment_end_of(log, offset));
        let length = log.record_view_at(offset).length;
        let end = segment_end_of(log, offset);
        if log.record_starts_at(offset, false) {
            if length > 0 && offset + length <= log.max_offset() {
                lemma_tidy_same_records(log, other, offset + length);
            }
        } else if offset < end <= log.max_offset() {
            lemma_tidy_same_records(log, other, end);
        }
    }
}

/// A scan that checks the bodies stops no later than one that does not; and
/// where the one that checks stops at a place at which no record starts even
/// unchecked, both stop there.
pub proof fn lemma_scan_segment_unchecked(image: Seq<u8>, base: int, p: int)
    requires
        0 <= p <= image.len(),
        !record_valid_at(
            image,
            scan_segment(image, base, p, true),
            base + scan_segment(image, base, p, true),
            false,
        ),
    ensures
        scan_segment(image, base, p, false) == scan_segment(image, base, p, true),
    decreases image.len() - p,
{
    if record_valid_at(image, p, base + p, true) {
        lemma_scan_segment_unchecked(image, base, p + declared_length(image, p));
    }
}

/// A log that is recoverable with the bodies checked is recoverable without.
pub proof fn lemma_recoverable_unchecked(log: LogView, k: int)
    requires
        log.wf(),
        0 <= k < log.segments.len(),
        log.recoverable_from(k, true),
    ensures
        log.recoverable_from(k, false),
    decreases log.segments.len() - k,
{
    let images = log.images();
    let n = log.segments.len() as int;
    let base = log.base_offset as int;
    let size = log.segment_size as int;
    let image = images[k];
    let q = scan_segment(image, base + k * size, 0, true);
    assert(log.segments[k].wf());
    lemma_scan_segment_bounds(image, base + k * size, 0, true);
    if blank_at(image, q) && k + 1 < n {
        lemma_scan_segment_unchecked(image, base + k * size, 0);
        lemma_recoverable_unchecked(log, k + 1);
    } else {
        assert(k == n - 1);
        lemma_zeros_invalid(image, q, base + k * size + q, false);
        lemma_scan_segment_unchecked(image, base + k * size, 0);
    }
}

/// A replay walks over the records of a segment as the scan does: from a
/// position on the scan's way, it comes to where the scan stops.
proof fn lemma_scan_is_tidy(log: LogView, k: int, p: int, stop: int)
    requires
        log.wf(),
        0 <= k < log.segments.len(),
        0 <= p <= stop <= log.segments[k].write_position,
        scan_segment(
            log.segments[k].image,
            log.base_offset + k * log.segment_size,
            p,
            false,
        ) == stop,
        tidy_from(log, log.base_offset + k * log.segment_size + stop),
    ensures
        tidy_from(log, log.base_offset + k * log.segment_size + p),
    decreases stop - p,
{
    let size = log.segment_size as int;
    let image = log.segments[k].image;
    let seg_base = log.base_offset + k * size;
    if p < stop {
        assert(log.segments[k].wf());
        lemma_segment_ends(log, k);
        lemma_locate(k, size, p);
        let offset = seg_base + p;
        let length = declared_length(image, p);
        assert(record_valid_at(image, p, offset, false));
        lemma_scan_segment_bounds(image, seg_base, p + length, false);
        assert(log.record_starts_at(offset, false));
        assert(log.record_view_at(offset).length == length);
        lemma_scan_is_tidy(log, k, p + length, stop);
    }
}

/// A replay walks a recoverable log to its very end.
pub proof fn lemma_recoverable_is_tidy(log: LogView, k: int)
    requires
        log.wf(),
        0 <= k < log.segments.len(),
        log.recoverable_from(k, false),
    ensures
        tidy_from(log, log.base_offset + k * log.segment_size),
    decreases log.segments.len() - k,
{
    let images = log.images();
    let n = log.segments.len() as int;
    let base = log.base_offset as int;
    let size = log.segment_size as int;
    let image = images[k];
    let seg_base = base + k * size;
    let q = scan_segment(image, seg_base, 0, false);
    assert(log.segments[k].wf());
    lemma_scan_segment_bounds(image, seg_base, 0, false);
    lemma_segment_ends(log, k);
    assert((k + 1) * size == k * size + size) by (nonlinear_arith);
    if blank_at(image, q) && k + 1 < n {
        assert(log.segments[k].is_full());
        lemma_recoverable_is_tidy(log, k + 1);
        lemma_segment_ends(log, k + 1);
        if q < size {
            let offset = seg_base + q;
            lemma_locate(k, size, q);
            assert(!log.record_starts_at(offset, false));
            assert(segment_end_of(log, offset) == base + (k + 1) * size);
        }
        lemma_scan_is_tidy(log, k, 0, q);
    } else {
        assert(k == n - 1);
        lemma_scan_is_tidy(log, k, 0, q);
    }
}

/// No entry drifts in a rebuild: if a store is complete and its log
/// recoverable, then what recovery makes of the log's segments holds the
/// same records, and a replay of it gives exactly the store's queues.
pub proof fn lemma_rebuild_changes_nothing(store: StoreView, check_crc: bool)
    requires
        store.wf(),
        complete(store),
        store.log.recoverable(check_crc),
    ensures
        ({
            let log = crate::commit_log::recovered(
                store.log.images(),
                store.log.base_offset,
                store.log.segment_size,
                store.log.max_segments,
                store.log.max_message_size,
                store.log.transient,
                check_crc,
            );
            &&& same_records(store.log, log)
            &&& log.max_offset() == store.log.max_offset()
            &&& index_from(log, log.min_offset() as int, Seq::<QueueView>::empty())
                == store.queues
        }),
{
    let old_log = store.log;
    let n = old_log.segments.len() as int;
    let size = old_log.segment_size as int;
    let log = crate::commit_log::recovered(
        old_log.images(),
        old_log.base_offset,
        old_log.segment_size,
        old_log.max_segments,
        old_log.max_message_size,
        old_log.transient,
        check_crc,
    );
    assert(log.segments.len() == n);
    assert forall|k: int| 0 <= k < n implies (#[trigger] log.segments[k]).image
        == old_log.segments[k].image && log.segments[k].write_position
        == old_log.segments[k].write_position && log.segments[k].base_offset
        == old_log.segments[k].base_offset by {
        assert(old_log.segments[k].wf());
        if k < n - 1 {
            assert(old_log.segments[k].is_full());
        }
        assert(log.segments[k].image =~= old_log.segments[k].image);
    }
    lemma_replay_same_records(
        old_log,
        log,
        old_log.min_offset() as int,
        Seq::<QueueView>::empty(),
    );
}

/// What a rebuild makes is complete: a store whose log is recoverable and
/// whose queues are what a replay of the whole log gives.
pub proof fn lemma_rebuilt_is_complete(store: StoreView, check_crc: bool)
    requires
        store.wf(),
        store.log.recoverable(check_crc),
        store.queues == index_from(
            store.log,
            store.log.min_offset() as int,
            Seq::<QueueView>::empty(),
        ),
    ensures
        complete(store),
{
    if check_crc {
        lemma_recoverable_unchecked(store.log, 0);
    }
    lemma_recoverable_is_tidy(store.log, 0);
    assert(0 * store.log.segment_size == 0);
}

} // verus!
