//! What holds of the commit log over any run of appends and recoveries.

use crate::codec::zeros;
use crate::commit_log::extends;
use crate::commit_log::first_scanned;
use crate::commit_log::LogView;
use crate::commit_log::recovered_from;
use crate::commit_log::recovery_input_ok;
use crate::record::declared_length;
use crate::record::lemma_header_length;
use crate::record::lemma_record_round_trip;
use crate::record::MessageView;
use crate::record::record_size;
use crate::record::record_valid_at;
use crate::recovery::last_valid_offset_from;
use crate::recovery::lemma_recovery_idempotent_from;
use crate::recovery::lemma_scan_log_bounds;
use crate::recovery::lemma_valid_agree;
use crate::recovery::lemma_scan_log_prefix;
use crate::recovery::lemma_scan_segment_path;
use crate::recovery::lemma_zeros_invalid;
use crate::recovery::scan_log;
use crate::recovery::scan_segment;
use crate::recovery::truncated;
use crate::segment::overwrite;
use crate::segment::SegmentView;
use crate::segment::zero_from;
use vstd::arithmetic::div_mod::lemma_fundamental_div_mod;
use vstd::arithmetic::div_mod::lemma_fundamental_div_mod_converse;
use vstd::arithmetic::div_mod::lemma_mod_bound;
use vstd::arithmetic::div_mod::lemma_multiply_divide_lt;
use vstd::arithmetic::mul::lemma_mul_inequality;
use vstd::arithmetic::mul::lemma_mul_is_commutative;
use vstd::prelude::*;

verus! {

proof fn lemma_step(k: int, size: int)
    ensures
        (k + 1) * size == k * size + size,
{
    assert((k + 1) * size == k * size + size) by (nonlinear_arith);
}

/// The place of a byte: `k` whole segments and `p` more bytes come before it.
pub proof fn lemma_locate(k: int, size: int, p: int)
    requires
        size > 0,
        0 <= p < size,
    ensures
        (k * size + p) / size == k,
        (k * size + p) % size == p,
{
    lemma_fundamental_div_mod_converse(k * size + p, size, k, p);
}

/// The place of an offset below the end of the log: which segment holds it,
/// at which position, and that the position was written.
pub proof fn lemma_position(log: LogView, offset: int)
    requires
        log.wf(),
        log.min_offset() <= offset < log.max_offset(),
    ensures
        ({
            let k = (offset - log.base_offset) / log.segment_size as int;
            let p = (offset - log.base_offset) % log.segment_size as int;
            &&& 0 <= k < log.segments.len()
            &&& 0 <= p < log.segment_size
            &&& offset == log.base_offset + k * log.segment_size + p
            &&& p < log.segments[k].write_position
        }),
{
    let size = log.segment_size as int;
    let n = log.segments.len() as int;
    let rel = offset - log.base_offset;
    let k = rel / size;
    let p = rel % size;
    lemma_fundamental_div_mod(rel, size);
    lemma_mod_bound(rel, size);
    lemma_mul_is_commutative(size, k);
    assert(log.segments[n - 1].wf());
    assert(rel < (n - 1) * size + size);
    lemma_step(n - 1, size);
    lemma_mul_is_commutative(size, n);
    lemma_multiply_divide_lt(rel, size, n);
    vstd::arithmetic::div_mod::lemma_div_pos_is_pos(rel, size);
    if k < n - 1 {
        assert(log.segments[k].is_full());
    } else {
        assert(k == n - 1);
    }
}

/// Writing a chunk into the room of the active segment keeps the log
/// well-formed, moves its end by the chunk's length, changes no byte below
/// the old end and puts the chunk's bytes from the old end on.
pub proof fn lemma_extend(log: LogView, chunk: Seq<u8>)
    requires
        log.wf(),
        chunk.len() <= log.room(),
    ensures
        log.extend(chunk).wf(),
        log.extend(chunk).base_offset == log.base_offset,
        log.extend(chunk).max_offset() == log.max_offset() + chunk.len(),
        forall|o: int|
            log.min_offset() <= o < log.max_offset() ==> #[trigger] log.extend(chunk).byte_at(o)
                == log.byte_at(o),
        forall|i: int|
            0 <= i < chunk.len() ==> #[trigger] log.extend(chunk).byte_at(log.max_offset() + i)
                == chunk[i],
{
    let after = log.extend(chunk);
    let n = log.segments.len() as int;
    let w = log.last().write_position as int;
    assert(log.segments[n - 1].wf());
    assert forall|o: int| log.min_offset() <= o < log.max_offset() implies #[trigger] after.byte_at(
        o,
    ) == log.byte_at(o) by {
        lemma_position(log, o);
    }
    assert forall|i: int| 0 <= i < chunk.len() implies #[trigger] after.byte_at(
        log.max_offset() + i,
    ) == chunk[i] by {
        lemma_byte_at(after, n - 1, w + i);
    }
}

/// Adding an empty segment behind a full active one keeps the log
/// well-formed and changes neither its end nor any byte.
pub proof fn lemma_grow(log: LogView)
    requires
        log.wf(),
        log.room() == 0,
        log.can_grow(),
    ensures
        log.grow().wf(),
        log.grow().base_offset == log.base_offset,
        log.grow().max_offset() == log.max_offset(),
        log.grow().room() == log.segment_size,
        forall|o: int|
            log.min_offset() <= o < log.max_offset() ==> #[trigger] log.grow().byte_at(o)
                == log.byte_at(o),
{
    let after = log.grow();
    let n = log.segments.len() as int;
    assert(log.segments[n - 1].wf());
    lemma_step(n - 1, log.segment_size as int);
    assert forall|o: int| log.min_offset() <= o < log.max_offset() implies #[trigger] after.byte_at(
        o,
    ) == log.byte_at(o) by {
        lemma_position(log, o);
    }
}

/// A replicated stream is written where the log ends, byte for byte: the log
/// stays well-formed, its end moves by the number of bytes stored, no byte
/// below the old end changes, and the stored bytes lie from the old end on
/// in their order.
pub proof fn lemma_append_raw(log: LogView, bytes: Seq<u8>)
    requires
        log.wf(),
    ensures
        log.append_raw(bytes).wf(),
        log.append_raw(bytes).base_offset == log.base_offset,
        log.append_raw(bytes).segment_size == log.segment_size,
        log.append_raw(bytes).max_segments == log.max_segments,
        log.append_raw(bytes).max_message_size == log.max_message_size,
        log.append_raw(bytes).transient == log.transient,
        log.append_raw(bytes).queue_offsets == log.queue_offsets,
        log.raw_stored(bytes) <= bytes.len(),
        log.append_raw(bytes).max_offset() == log.max_offset() + log.raw_stored(bytes),
        forall|o: int|
            log.min_offset() <= o < log.max_offset() ==> #[trigger] log.append_raw(bytes).byte_at(
                o,
            ) == log.byte_at(o),
        forall|i: int|
            0 <= i < log.raw_stored(bytes) ==> #[trigger] log.append_raw(bytes).byte_at(
                log.max_offset() + i,
            ) == bytes[i],
    decreases bytes.len(), (if log.room() <= 0 { 1int } else { 0int }),
{
    let after = log.append_raw(bytes);
    let n = log.segments.len() as int;
    assert(log.segments[n - 1].wf());
    if bytes.len() == 0 || log.segment_size == 0 {
    } else if log.room() > 0 {
        let take = if log.room() < bytes.len() {
            log.room()
        } else {
            bytes.len() as int
        };
        let chunk = bytes.subrange(0, take);
        let rest = bytes.subrange(take, bytes.len() as int);
        let mid = log.extend(chunk);
        lemma_extend(log, chunk);
        lemma_append_raw(mid, rest);
        assert forall|o: int| log.min_offset() <= o < log.max_offset() implies #[trigger] after.byte_at(
            o,
        ) == log.byte_at(o) by {
            assert(mid.byte_at(o) == log.byte_at(o));
        }
        assert forall|i: int| 0 <= i < log.raw_stored(bytes) implies #[trigger] after.byte_at(
            log.max_offset() + i,
        ) == bytes[i] by {
            if i < take {
                assert(mid.byte_at(log.max_offset() + i) == chunk[i]);
                assert(after.byte_at(log.max_offset() + i) == mid.byte_at(log.max_offset() + i));
            } else {
                assert(after.byte_at(mid.max_offset() + (i - take)) == rest[i - take]);
            }
        }
    } else if log.can_grow() && log.room() == 0 {
        let mid = log.grow();
        lemma_grow(log);
        lemma_append_raw(mid, bytes);
        assert forall|o: int| log.min_offset() <= o < log.max_offset() implies #[trigger] after.byte_at(
            o,
        ) == log.byte_at(o) by {
            assert(mid.byte_at(o) == log.byte_at(o));
        }
    }
}

/// A log in which only the counts of reads differ from a well-formed one is
/// well-formed.
pub proof fn lemma_readers_keep_wf(log: LogView, after: LogView)
    requires
        log.wf(),
        after.base_offset == log.base_offset,
        after.segment_size == log.segment_size,
        after.max_segments == log.max_segments,
        after.transient == log.transient,
        after.queue_offsets == log.queue_offsets,
        after.segments.len() == log.segments.len(),
        forall|k: int|
            0 <= k < log.segments.len() ==> (#[trigger] after.segments[k]) == (SegmentView {
                readers: after.segments[k].readers,
                ..log.segments[k]
            }),
    ensures
        after.wf(),
{
    let n = log.segments.len() as int;
    assert forall|k: int| 0 <= k < after.segments.len() implies {
        &&& (#[trigger] after.segments[k]).wf()
        &&& after.segments[k].image.len() == after.segment_size
        &&& after.segments[k].base_offset == after.base_offset + k * after.segment_size
        &&& after.segments[k].transient == after.transient
    } by {
        assert(log.segments[k].wf());
    }
    assert forall|k: int| 0 <= k < after.segments.len() - 1 implies (
    #[trigger] after.segments[k]).is_full() by {
        assert(log.segments[k].is_full());
    }
    assert(after.segments[n - 1].write_position == log.segments[n - 1].write_position);
    assert(after.segments[n - 1].base_offset == log.segments[n - 1].base_offset);
}

/// The segment that a commit or a flush works on exists.
pub proof fn lemma_first_waiting_exists(log: LogView, i: int)
    requires
        log.segments.len() >= 1,
        0 <= i < log.segments.len(),
    ensures
        i <= log.first_uncommitted(i) < log.segments.len(),
        i <= log.first_unflushed(i) < log.segments.len(),
    decreases log.segments.len() - i,
{
    if i < log.segments.len() - 1 {
        lemma_first_waiting_exists(log, i + 1);
    }
}

/// A segment ends at or below the end of the log, unless it is the active
/// one, and every segment ends inside the offset space.
pub proof fn lemma_segment_ends(log: LogView, k: int)
    requires
        log.wf(),
        0 <= k < log.segments.len(),
    ensures
        log.base_offset + k * log.segment_size + log.segments[k].write_position
            <= log.max_offset(),
        log.base_offset + (k + 1) * log.segment_size <= log.base_offset + log.segments.len()
            * log.segment_size,
        log.base_offset + log.segments.len() * log.segment_size <= u64::MAX,
        log.max_offset() <= log.base_offset + log.segments.len() * log.segment_size,
{
    let n = log.segments.len() as int;
    let size = log.segment_size as int;
    assert(log.segments[n - 1].wf());
    assert(log.segments[k].wf());
    lemma_step(n - 1, size);
    lemma_step(k, size);
    lemma_mul_inequality(k + 1, n, size);
    if k < n - 1 {
        lemma_mul_inequality(k + 1, n - 1, size);
    }
}

/// The byte at position `p` of segment `k` is the byte at the offset that
/// lies `k` segments and `p` bytes above the base.
pub proof fn lemma_byte_at(log: LogView, k: int, p: int)
    requires
        log.segment_size > 0,
        0 <= p < log.segment_size,
    ensures
        log.byte_at(log.base_offset + k * log.segment_size + p) == log.segments[k].image[p],
{
    lemma_locate(k, log.segment_size as int, p);
}

/// Stored bytes can be read back: after an append that is not turned away,
/// reading the record's length at the record's offset gives the record.
pub proof fn lemma_append_then_read(log: LogView, bytes: Seq<u8>, queue_id: u32)
    requires
        log.wf(),
        log.rejection(bytes.len()) is None,
    ensures
        log.append_bytes(bytes, queue_id).read(
            log.append_offset(bytes.len()) as int,
            bytes.len() as int,
        ) == bytes,
{
    let after = log.append_bytes(bytes, queue_id);
    let size = log.segment_size as int;
    let n = log.segments.len() as int;
    let at = log.append_offset(bytes.len()) as int;
    let got = after.read(at, bytes.len() as int);
    assert(log.segments[n - 1].wf());
    assert forall|i: int| 0 <= i < bytes.len() implies got[i] == bytes[i] by {
        if log.needs_roll(bytes.len()) {
            lemma_step(n - 1, size);
            lemma_byte_at(after, n, i);
        } else {
            lemma_byte_at(after, n - 1, log.last().write_position + i);
        }
    }
    assert(got =~= bytes);
}

/// An append changes no byte that was there before: what could be read
/// before the append reads the same after it.
pub proof fn lemma_append_preserves_reads(
    log: LogView,
    bytes: Seq<u8>,
    queue_id: u32,
    offset: int,
    len: int,
)
    requires
        log.wf(),
        log.rejection(bytes.len()) is None,
        log.in_range(offset, len),
    ensures
        log.append_bytes(bytes, queue_id).read(offset, len) == log.read(offset, len),
        log.append_bytes(bytes, queue_id).in_range(offset, len),
{
    let after = log.append_bytes(bytes, queue_id);
    let n = log.segments.len() as int;
    assert(log.segments[n - 1].wf());
    if log.needs_roll(bytes.len()) {
        lemma_step(n - 1, log.segment_size as int);
    }
    let now = after.read(offset, len);
    let then = log.read(offset, len);
    assert forall|i: int| 0 <= i < len implies now[i] == then[i] by {
        lemma_position(log, offset + i);
    }
    assert(now =~= then);
}

/// At the boundary of a segment: a record that fills the active segment's
/// remainder exactly, or less, is stored at the end of the log and no segment
/// is added; a record one byte longer, or more, opens a new segment at that
/// segment's base, and the old segment's remainder counts as written and
/// holds only zeros.
pub proof fn lemma_rollover_boundary(log: LogView, bytes: Seq<u8>, queue_id: u32)
    requires
        log.wf(),
        log.rejection(bytes.len()) is None,
    ensures
        ({
            let after = log.append_bytes(bytes, queue_id);
            let n = log.segments.len() as int;
            let room = log.segment_size - log.last().write_position;
            &&& bytes.len() <= room ==> {
                &&& after.segments.len() == n
                &&& log.append_offset(bytes.len()) == log.max_offset()
                &&& after.max_offset() == log.max_offset() + bytes.len()
            }
            &&& bytes.len() > room ==> {
                &&& after.segments.len() == n + 1
                &&& log.append_offset(bytes.len()) == log.max_offset() + room
                &&& log.append_offset(bytes.len()) == after.last().base_offset
                &&& after.segments[n - 1].is_full()
                &&& after.segments[n - 1].image.subrange(
                    log.last().write_position as int,
                    log.segment_size as int,
                ) == zeros(room as nat)
                &&& after.max_offset() == log.append_offset(bytes.len()) + bytes.len()
            }
        }),
{
    let after = log.append_bytes(bytes, queue_id);
    let n = log.segments.len() as int;
    let room = log.segment_size - log.last().write_position;
    assert(log.segments[n - 1].wf());
    if bytes.len() > room {
        assert(after.segments[n - 1].image.subrange(
            log.last().write_position as int,
            log.segment_size as int,
        ) =~= zeros(room as nat));
    }
}

/// The log after each of `messages` was offered in turn; one that is turned
/// away leaves the log as it was.
pub open spec fn put_all(log: LogView, messages: Seq<MessageView>) -> LogView
    decreases messages.len(),
{
    if messages.len() == 0 {
        log
    } else {
        let before = put_all(log, messages.drop_last());
        if before.rejection(record_size(messages.last())) is None {
            before.append_message(messages.last())
        } else {
            before
        }
    }
}

/// An append that is not turned away keeps the log well-formed.
pub proof fn lemma_append_wf(log: LogView, message: MessageView)
    requires
        log.wf(),
        log.rejection(record_size(message)) is None,
    ensures
        log.append_message(message).wf(),
        log.append_message(message).base_offset == log.base_offset,
        log.append_message(message).max_offset() == log.append_offset(record_size(message))
            + record_size(message),
        log.max_offset() <= log.append_offset(record_size(message)),
{
    let n = log.segments.len() as int;
    let bytes = log.record_for(message);
    lemma_header_length(
        message,
        log.next_queue_offset(message.queue_id),
        log.append_offset(record_size(message)) as u64,
    );
    assert(log.segments[n - 1].wf());
    if log.needs_roll(bytes.len()) {
        lemma_step(n - 1, log.segment_size as int);
    }
    let after = log.append_message(message);
    assert forall|q: u32| #[trigger] after.queue_offsets.contains_key(q) implies after.queue_offsets[q]
        <= after.max_offset() by {
        if q != message.queue_id {
            assert(log.queue_offsets.contains_key(q));
        }
    }
}

/// Any run of appends keeps the log well-formed and never lowers its end.
pub proof fn lemma_put_all_wf(log: LogView, messages: Seq<MessageView>)
    requires
        log.wf(),
    ensures
        put_all(log, messages).wf(),
        put_all(log, messages).base_offset == log.base_offset,
        log.max_offset() <= put_all(log, messages).max_offset(),
    decreases messages.len(),
{
    if messages.len() > 0 {
        lemma_put_all_wf(log, messages.drop_last());
        let before = put_all(log, messages.drop_last());
        if before.rejection(record_size(messages.last())) is None {
            lemma_append_wf(before, messages.last());
        }
    }
}

/// The end of the log after a run of appends lies at or above its end after
/// any shorter run of the same appends.
pub proof fn lemma_put_all_grows(log: LogView, messages: Seq<MessageView>, i: int)
    requires
        log.wf(),
        0 <= i <= messages.len(),
    ensures
        put_all(log, messages.subrange(0, i)).max_offset() <= put_all(log, messages).max_offset(),
    decreases messages.len() - i,
{
    if i == messages.len() {
        assert(messages.subrange(0, i) =~= messages);
    } else {
        let longer = messages.subrange(0, i + 1);
        assert(longer.drop_last() =~= messages.subrange(0, i));
        lemma_put_all_wf(log, messages.subrange(0, i));
        let before = put_all(log, messages.subrange(0, i));
        if before.rejection(record_size(longer.last())) is None {
            lemma_append_wf(before, longer.last());
        }
        lemma_put_all_grows(log, messages, i + 1);
    }
}

/// Physical offsets are handed out in rising order and records do not
/// overlap: of two appends of a run that were not turned away, the later
/// record starts at or above the end of the earlier one.
pub proof fn lemma_offsets_rise(log: LogView, messages: Seq<MessageView>, i: int, j: int)
    requires
        log.wf(),
        0 <= i < j < messages.len(),
        put_all(log, messages.subrange(0, i)).rejection(record_size(messages[i])) is None,
        put_all(log, messages.subrange(0, j)).rejection(record_size(messages[j])) is None,
    ensures
        put_all(log, messages.subrange(0, i)).append_offset(record_size(messages[i]))
            + record_size(messages[i]) <= put_all(log, messages.subrange(0, j)).append_offset(
            record_size(messages[j]),
        ),
{
    let upto_j = messages.subrange(0, j);
    let before_i = put_all(log, messages.subrange(0, i));
    let before_j = put_all(log, upto_j);
    let with_i = upto_j.subrange(0, i + 1);
    assert(with_i =~= messages.subrange(0, i + 1));
    assert(with_i.drop_last() =~= messages.subrange(0, i));
    assert(with_i.last() == messages[i]);
    lemma_put_all_wf(log, messages.subrange(0, i));
    lemma_put_all_wf(log, upto_j);
    lemma_append_wf(before_i, messages[i]);
    lemma_append_wf(before_j, messages[j]);
    lemma_put_all_grows(log, upto_j, i + 1);
}

/// Every record that was appended can be read back, whatever was appended
/// after it: for the `i`-th of a run of messages, if it was not turned away,
/// reading its length at the offset it was given returns exactly its record,
/// at the end of the run.
pub proof fn lemma_every_append_reads_back(log: LogView, messages: Seq<MessageView>, i: int)
    requires
        log.wf(),
        0 <= i < messages.len(),
        put_all(log, messages.subrange(0, i)).rejection(record_size(messages[i])) is None,
    ensures
        ({
            let before = put_all(log, messages.subrange(0, i));
            let at = before.append_offset(record_size(messages[i])) as int;
            let len = record_size(messages[i]) as int;
            &&& put_all(log, messages).in_range(at, len)
            &&& put_all(log, messages).read(at, len) == before.record_for(messages[i])
        }),
    decreases messages.len(),
{
    let before = put_all(log, messages.subrange(0, i));
    let at = before.append_offset(record_size(messages[i])) as int;
    let len = record_size(messages[i]) as int;
    let earlier = messages.drop_last();
    lemma_put_all_wf(log, earlier);
    let mid = put_all(log, earlier);
    if i == messages.len() - 1 {
        assert(earlier =~= messages.subrange(0, i));
        lemma_header_length(
            messages[i],
            before.next_queue_offset(messages[i].queue_id),
            before.append_offset(record_size(messages[i])) as u64,
        );
        lemma_append_then_read(before, before.record_for(messages[i]), messages[i].queue_id);
        lemma_append_wf(before, messages[i]);
    } else {
        assert(earlier.subrange(0, i) =~= messages.subrange(0, i));
        assert(earlier[i] == messages[i]);
        lemma_every_append_reads_back(log, earlier, i);
        let last = messages.last();
        if mid.rejection(record_size(last)) is None {
            lemma_header_length(
                last,
                mid.next_queue_offset(last.queue_id),
                mid.append_offset(record_size(last)) as u64,
            );
            lemma_append_preserves_reads(mid, mid.record_for(last), last.queue_id, at, len);
        }
    }
}

/// A new log is recoverable: the scan of its one empty segment stops at its
/// first byte.
pub proof fn lemma_new_recoverable(log: LogView, check_crc: bool)
    requires
        log.segments == seq![
            SegmentView::empty(log.base_offset, log.segment_size, log.transient),
        ],
    ensures
        log.recoverable(check_crc),
{
    let image = log.images()[0];
    assert(image == zeros(log.segment_size));
    lemma_zeros_invalid(image, 0, log.base_offset as int + 0 * log.segment_size, check_crc);
}

/// Appending keeps the log recoverable: if a recovery scan of the log, from
/// whichever of its segments, stops exactly at its end, then after an append
/// it stops exactly at the new end. So a log that went through nothing but
/// appends since it was made or recovered loses nothing in a recovery.
pub proof fn lemma_append_keeps_recoverable(
    log: LogView,
    message: MessageView,
    from: int,
    check_crc: bool,
)
    requires
        log.wf(),
        0 <= from < log.segments.len(),
        log.recoverable_from(from, check_crc),
        log.rejection(record_size(message)) is None,
    ensures
        log.append_message(message).recoverable_from(from, check_crc),
        last_valid_offset_from(
            log.append_message(message).images(),
            log.base_offset as int,
            log.segment_size as int,
            from,
            check_crc,
        ) == log.append_message(message).max_offset(),
{
    let after = log.append_message(message);
    let a = log.images();
    let b = after.images();
    let n = log.segments.len() as int;
    let size = log.segment_size as int;
    let base = log.base_offset as int;
    let w = log.last().write_position as int;
    let bytes = log.record_for(message);
    let len = record_size(message) as int;
    let queue_offset = log.next_queue_offset(message.queue_id);
    let at = log.append_offset(record_size(message));
    lemma_header_length(message, queue_offset, at as u64);
    lemma_append_wf(log, message);
    assert(log.segments[n - 1].wf());
    lemma_step(n - 1, size);
    lemma_scan_log_bounds(a, base, size, from, check_crc);
    assert forall|i: int| 0 <= i < n - 1 implies a[i] == b[i] by {}
    lemma_scan_log_prefix(a, b, base, size, from, check_crc);
    let old_image = a[n - 1];
    let old_base = base + (n - 1) * size;
    assert(w == scan_segment(old_image, old_base, 0, check_crc));
    if log.needs_roll(bytes.len()) {
        assert(b[n - 1] == old_image);
        lemma_zeros_invalid(old_image, w, old_base + w, check_crc);
        let fresh = b[n];
        let fresh_base = base + n * size;
        assert(fresh == overwrite(zeros(size as nat), 0, bytes));
        assert(fresh.subrange(0, len) =~= bytes);
        lemma_record_round_trip(fresh, 0, message, queue_offset, at as u64);
        lemma_zeros_invalid(fresh, len, fresh_base + len, check_crc);
        assert(scan_segment(fresh, fresh_base, 0, check_crc) == scan_segment(
            fresh,
            fresh_base,
            len,
            check_crc,
        ));
        assert(scan_log(b, base, size, n, check_crc) == (n, len));
        assert(scan_log(b, base, size, n - 1, check_crc) == scan_log(b, base, size, n, check_crc));
    } else {
        let image = b[n - 1];
        assert(image == overwrite(old_image, w, bytes));
        assert(image.subrange(w, w + len) =~= bytes);
        lemma_scan_segment_path(old_image, image, old_base, 0, w, check_crc);
        lemma_record_round_trip(image, w, message, queue_offset, at as u64);
        lemma_zeros_invalid(image, w + len, old_base + w + len, check_crc);
        assert(scan_segment(image, old_base, w, check_crc) == scan_segment(
            image,
            old_base,
            w + len,
            check_crc,
        ));
        assert(scan_log(b, base, size, n - 1, check_crc) == (n - 1, w + len));
    }
}

/// What recovery makes of any usable input is a well-formed log that is
/// recoverable again from the same checkpoint, and it ends at the last valid
/// offset of the input.
pub proof fn lemma_recovered_is_recoverable(
    images: Seq<Seq<u8>>,
    base: nat,
    size: nat,
    max_segments: nat,
    max_message_size: nat,
    transient: bool,
    from: nat,
    check_crc: bool,
)
    requires
        recovery_input_ok(images, base, size, max_segments),
    ensures
        ({
            let log = recovered_from(
                images,
                base,
                size,
                max_segments,
                max_message_size,
                transient,
                from,
                check_crc,
            );
            let start = first_scanned(images, from);
            &&& log.wf()
            &&& start < log.segments.len()
            &&& log.recoverable_from(start, check_crc)
            &&& log.max_offset() == last_valid_offset_from(
                images,
                base as int,
                size as int,
                start,
                check_crc,
            )
            &&& last_valid_offset_from(log.images(), base as int, size as int, start, check_crc)
                == last_valid_offset_from(images, base as int, size as int, start, check_crc)
        }),
{
    let log = recovered_from(
        images,
        base,
        size,
        max_segments,
        max_message_size,
        transient,
        from,
        check_crc,
    );
    let start = first_scanned(images, from);
    let (k, q) = scan_log(images, base as int, size as int, start, check_crc);
    lemma_scan_log_bounds(images, base as int, size as int, start, check_crc);
    lemma_recovery_idempotent_from(images, base as int, size as int, start, check_crc);
    let kept = truncated(images, k, q);
    assert forall|i: int| 0 <= i <= k implies log.images()[i] == kept[i] by {
        assert(images[i].len() == size);
        if i < k {
            assert(zero_from(images[i], size as int) =~= images[i]);
        }
    }
    assert(log.images() =~= kept);
    assert forall|i: int| 0 <= i < log.segments.len() implies {
        &&& (#[trigger] log.segments[i]).wf()
        &&& log.segments[i].image.len() == log.segment_size
        &&& log.segments[i].base_offset == log.base_offset + i * log.segment_size
        &&& log.segments[i].transient == log.transient
    } by {
        assert(images[i].len() == size);
        lemma_step(i, size as int);
        vstd::arithmetic::mul::lemma_mul_inequality(i + 1, images.len() as int, size as int);
    }
}

/// After a recovery the next append starts exactly where the log was found
/// valid: a record that fits in what remains of the last kept segment is
/// stored at the last valid offset, without a gap and without an overlap.
pub proof fn lemma_append_after_recovery(
    images: Seq<Seq<u8>>,
    base: nat,
    size: nat,
    max_segments: nat,
    max_message_size: nat,
    transient: bool,
    from: nat,
    check_crc: bool,
    message: MessageView,
)
    requires
        recovery_input_ok(images, base, size, max_segments),
    ensures
        ({
            let log = recovered_from(
                images,
                base,
                size,
                max_segments,
                max_message_size,
                transient,
                from,
                check_crc,
            );
            let boundary = last_valid_offset_from(
                images,
                base as int,
                size as int,
                first_scanned(images, from),
                check_crc,
            );
            log.rejection(record_size(message)) is None && !log.needs_roll(record_size(message))
                ==> {
                &&& log.append_offset(record_size(message)) == boundary
                &&& log.append_message(message).max_offset() == boundary + record_size(message)
                &&& log.append_message(message).read(boundary, record_size(message) as int)
                    == log.record_for(message)
            }
        }),
{
    let log = recovered_from(
        images,
        base,
        size,
        max_segments,
        max_message_size,
        transient,
        from,
        check_crc,
    );
    lemma_recovered_is_recoverable(
        images,
        base,
        size,
        max_segments,
        max_message_size,
        transient,
        from,
        check_crc,
    );
    if log.rejection(record_size(message)) is None && !log.needs_roll(record_size(message)) {
        lemma_append_wf(log, message);
        lemma_header_length(
            message,
            log.next_queue_offset(message.queue_id),
            log.append_offset(record_size(message)) as u64,
        );
        lemma_append_then_read(log, log.record_for(message), message.queue_id);
    }
}

/// After a crash in the middle of an append, recovery ends at the last
/// complete record: if the log was recoverable and the crash left, from the
/// end of the log on, bytes at which no valid record starts, the last valid
/// offset of what is found in storage is the end of the log as it was before
/// that append.
pub proof fn lemma_torn_append_is_cut(log: LogView, torn: Seq<u8>, from: int, check_crc: bool)
    requires
        log.wf(),
        0 <= from < log.segments.len(),
        log.recoverable_from(from, check_crc),
        torn.len() == log.segment_size,
        forall|i: int| 0 <= i < log.last().write_position ==> torn[i] == log.last().image[i],
        !record_valid_at(
            torn,
            log.last().write_position as int,
            log.max_offset() as int,
            check_crc,
        ),
    ensures
        last_valid_offset_from(
            log.images().update(log.segments.len() - 1, torn),
            log.base_offset as int,
            log.segment_size as int,
            from,
            check_crc,
        ) == log.max_offset(),
{
    let a = log.images();
    let n = log.segments.len() as int;
    let b = a.update(n - 1, torn);
    let size = log.segment_size as int;
    let base = log.base_offset as int;
    let w = log.last().write_position as int;
    assert(log.segments[n - 1].wf());
    lemma_scan_log_bounds(a, base, size, from, check_crc);
    lemma_scan_log_prefix(a, b, base, size, from, check_crc);
    lemma_scan_segment_path(a[n - 1], torn, base + (n - 1) * size, 0, w, check_crc);
    assert(scan_log(b, base, size, n - 1, check_crc) == (n - 1, w));
}

/// The same after a crash in the middle of an append that had opened a new
/// segment: if no valid record starts at the new segment's first byte, the
/// last valid offset is that segment's base, which is where the append was
/// to go.
pub proof fn lemma_torn_rollover_is_cut(log: LogView, torn: Seq<u8>, from: int, check_crc: bool)
    requires
        log.wf(),
        0 <= from < log.segments.len(),
        log.recoverable_from(from, check_crc),
        torn.len() == log.segment_size,
        !record_valid_at(
            torn,
            0,
            (log.last().base_offset + log.segment_size) as int,
            check_crc,
        ),
    ensures
        last_valid_offset_from(
            log.images().push(torn),
            log.base_offset as int,
            log.segment_size as int,
            from,
            check_crc,
        ) == log.last().base_offset + log.segment_size,
{
    let a = log.images();
    let n = log.segments.len() as int;
    let b = a.push(torn);
    let size = log.segment_size as int;
    let base = log.base_offset as int;
    let w = log.last().write_position as int;
    assert(log.segments[n - 1].wf());
    lemma_step(n - 1, size);
    lemma_scan_log_bounds(a, base, size, from, check_crc);
    assert forall|i: int| 0 <= i < n - 1 implies a[i] == b[i] by {}
    lemma_scan_log_prefix(a, b, base, size, from, check_crc);
    assert(b[n - 1] == a[n - 1]);
    lemma_zeros_invalid(a[n - 1], w, base + (n - 1) * size + w, check_crc);
    assert(scan_log(b, base, size, n, check_crc) == (n, 0int));
    assert(scan_log(b, base, size, n - 1, check_crc) == scan_log(b, base, size, n, check_crc));
}

/// A record stays where it is when the log is extended.
pub proof fn lemma_extends_keeps_record(log: LogView, after: LogView, offset: int)
    requires
        log.wf(),
        after.wf(),
        extends(log, after),
        log.record_starts_at(offset, false),
    ensures
        after.record_starts_at(offset, false),
        after.record_view_at(offset) == log.record_view_at(offset),
{
    let size = log.segment_size as int;
    let k = (offset - log.base_offset) / size;
    let p = (offset - log.base_offset) % size;
    lemma_position(log, offset);
    assert(log.segments[k].wf());
    assert(after.segments[k].wf());
    let a = log.segments[k].image;
    let b = after.segments[k].image;
    assert forall|i: int| p <= i < p + declared_length(a, p) implies a[i] == b[i] by {}
    lemma_valid_agree(a, b, p, offset, false);
}

/// In a segment that was written to its end, an extension of the log has a
/// record exactly where the log has one.
pub proof fn lemma_extends_full_segment(log: LogView, after: LogView, offset: int)
    requires
        log.wf(),
        after.wf(),
        extends(log, after),
        log.min_offset() <= offset < log.max_offset(),
        log.segments[(offset - log.base_offset) / log.segment_size as int].is_full(),
        after.record_starts_at(offset, false),
    ensures
        log.record_starts_at(offset, false),
{
    let size = log.segment_size as int;
    let k = (offset - log.base_offset) / size;
    let p = (offset - log.base_offset) % size;
    lemma_position(log, offset);
    assert(log.segments[k].wf());
    assert(after.segments[k].wf());
    let a = log.segments[k].image;
    let b = after.segments[k].image;
    assert forall|i: int| p <= i < p + declared_length(b, p) implies b[i] == a[i] by {}
    lemma_valid_agree(b, a, p, offset, false);
}

/// An extension of an extension is an extension.
pub proof fn lemma_extends_transitive(a: LogView, b: LogView, c: LogView)
    requires
        extends(a, b),
        extends(b, c),
    ensures
        extends(a, c),
{
    assert forall|k: int| 0 <= k < a.segments.len() implies {
        &&& (#[trigger] c.segments[k]).write_position >= a.segments[k].write_position
        &&& forall|i: int|
            0 <= i < a.segments[k].write_position ==> c.segments[k].image[i]
                == a.segments[k].image[i]
    } by {
        assert(b.segments[k].write_position >= a.segments[k].write_position);
        assert(c.segments[k].write_position >= b.segments[k].write_position);
        assert forall|i: int| 0 <= i < a.segments[k].write_position implies c.segments[k].image[i]
            == a.segments[k].image[i] by {
            assert(b.segments[k].image[i] == a.segments[k].image[i]);
        }
    }
}

/// Writing a replicated stream extends the log.
pub proof fn lemma_append_raw_extends(log: LogView, bytes: Seq<u8>)
    requires
        log.wf(),
    ensures
        extends(log, log.append_raw(bytes)),
    decreases bytes.len(), (if log.room() <= 0 { 1int } else { 0int }),
{
    let n = log.segments.len() as int;
    assert(log.segments[n - 1].wf());
    if bytes.len() == 0 || log.segment_size == 0 {
    } else if log.room() > 0 {
        let take = if log.room() < bytes.len() {
            log.room()
        } else {
            bytes.len() as int
        };
        let chunk = bytes.subrange(0, take);
        let rest = bytes.subrange(take, bytes.len() as int);
        let mid = log.extend(chunk);
        lemma_extend(log, chunk);
        assert(extends(log, mid)) by {
            assert forall|k: int| 0 <= k < log.segments.len() implies {
                &&& (#[trigger] mid.segments[k]).write_position >= log.segments[k].write_position
                &&& forall|i: int|
                    0 <= i < log.segments[k].write_position ==> mid.segments[k].image[i]
                        == log.segments[k].image[i]
            } by {
                assert(log.segments[k].wf());
            }
        }
        lemma_append_raw_extends(mid, rest);
        lemma_extends_transitive(log, mid, mid.append_raw(rest));
    } else if log.can_grow() && log.room() == 0 {
        let mid = log.grow();
        lemma_grow(log);
        assert(extends(log, mid));
        lemma_append_raw_extends(mid, bytes);
        lemma_extends_transitive(log, mid, mid.append_raw(bytes));
    }
}

} // verus!
