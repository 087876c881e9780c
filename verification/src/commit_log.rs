//! The commit log: one unbounded byte stream of message records, held as a
//! row of mapped segments of equal size that follow each other without a gap.
//!
//! A record never straddles two segments. Where the active segment cannot
//! hold the next record, its remainder is left as zeros and the record opens
//! the next segment.

use crate::error::StoreError;
use crate::log_laws::lemma_append_raw;
use crate::log_laws::lemma_extend;
use crate::log_laws::lemma_grow;
use crate::log_laws::lemma_position;
use crate::log_laws::lemma_readers_keep_wf;
use crate::log_laws::lemma_segment_ends;
use crate::record::declared_length;
use crate::record::decode_record;
use crate::record::encode_record;
use crate::record::Message;
use crate::record::MessageView;
use crate::record::Record;
use crate::record::record_at;
use crate::record::record_bytes;
use crate::record::RECORD_HEADER_SIZE;
use crate::record::record_size;
use crate::record::record_valid_at;
use crate::recovery::is_blank;
use crate::recovery::last_valid_offset;
use crate::recovery::last_valid_offset_from;
use crate::recovery::scan_log;
use crate::recovery::scan_segment_end;
use crate::segment::MappedSegment;
use crate::segment::SegmentView;
use std::collections::HashMap;
use vstd::arithmetic::mul::lemma_mul_inequality;
use vstd::prelude::*;

verus! {

broadcast use vstd::std_specs::hash::group_hash_axioms;

/// Where an appended message went.
#[derive(Clone, Copy, Debug, PartialEq, Eq, Structural)]
pub struct AppendResult {
    /// The offset in the log of the record's first byte.
    pub physical_offset: u64,
    /// The position of the message in its queue.
    pub queue_offset: u64,
    /// The length of the record.
    pub wrote_bytes: usize,
}

/// The commit log as a value.
pub struct LogView {
    /// The physical offset of the first byte that the log still holds.
    pub base_offset: nat,
    /// The size of every segment.
    pub segment_size: nat,
    /// The segments, oldest first; the last one is the active one.
    pub segments: Seq<SegmentView>,
    /// How many segments the log may hold.
    pub max_segments: nat,
    /// The longest record that the log accepts.
    pub max_message_size: nat,
    /// Whether appends land in a transient buffer first.
    pub transient: bool,
    /// For each queue that has one, the offset that its next message gets.
    pub queue_offsets: Map<u32, u64>,
}

impl LogView {
    /// The active segment.
    pub open spec fn last(self) -> SegmentView {
        self.segments[self.segments.len() - 1]
    }

    /// The offset of the first byte that the log holds.
    pub open spec fn min_offset(self) -> nat {
        self.base_offset
    }

    /// The offset at which the next byte is written.
    pub open spec fn max_offset(self) -> nat {
        self.last().base_offset + self.last().write_position
    }

    /// Segments of one size follow each other without a gap from the base
    /// offset on, all but the last are full, and no queue has handed out more
    /// offsets than the log has bytes.
    pub open spec fn wf(self) -> bool {
        &&& self.segment_size > 0
        &&& 1 <= self.segments.len() <= self.max_segments
        &&& forall|k: int|
            0 <= k < self.segments.len() ==> {
                &&& (#[trigger] self.segments[k]).wf()
                &&& self.segments[k].image.len() == self.segment_size
                &&& self.segments[k].base_offset == self.base_offset + k * self.segment_size
                &&& self.segments[k].transient == self.transient
            }
        &&& forall|k: int|
            0 <= k < self.segments.len() - 1 ==> (#[trigger] self.segments[k]).is_full()
        &&& forall|q: u32| #[trigger]
            self.queue_offsets.contains_key(q) ==> self.queue_offsets[q] <= self.max_offset()
    }

    /// The offset that the next message of queue `q` gets.
    pub open spec fn next_queue_offset(self, q: u32) -> u64 {
        if self.queue_offsets.contains_key(q) {
            self.queue_offsets[q]
        } else {
            0
        }
    }

    /// Whether a record of `size` bytes does not fit in what remains of the
    /// active segment.
    pub open spec fn needs_roll(self, size: nat) -> bool {
        size > self.segment_size - self.last().write_position
    }

    /// Why a record of `size` bytes is turned away, if it is: as illegal if
    /// it is longer than the log accepts or than a segment (or than a length
    /// field can say); for want of room if it needs a new segment and the log
    /// already holds as many as it may, or the offset space ends.
    pub open spec fn rejection(self, size: nat) -> Option<StoreError> {
        if size > self.max_message_size || size > self.segment_size || size > u32::MAX {
            Some(StoreError::MessageIllegal)
        } else if self.needs_roll(size) && (self.segments.len() >= self.max_segments
            || self.last().base_offset + 2 * self.segment_size > u64::MAX) {
            Some(StoreError::DiskFull)
        } else {
            None
        }
    }

    /// The offset at which a record of `size` bytes is stored: the end of the
    /// log if it fits in the active segment, else the start of the next one.
    pub open spec fn append_offset(self, size: nat) -> nat {
        if self.needs_roll(size) {
            self.last().base_offset + self.segment_size
        } else {
            self.max_offset()
        }
    }

    /// The log after `bytes` were stored as one record of queue `queue_id`.
    pub open spec fn append_bytes(self, bytes: Seq<u8>, queue_id: u32) -> LogView {
        let n = self.segments.len() as int;
        let counted = self.queue_offsets.insert(
            queue_id,
            (self.next_queue_offset(queue_id) + 1) as u64,
        );
        if self.needs_roll(bytes.len()) {
            LogView {
                segments: self.segments.update(n - 1, self.last().seal()).push(
                    SegmentView::empty(
                        self.last().base_offset + self.segment_size,
                        self.segment_size,
                        self.transient,
                    ).append(bytes),
                ),
                queue_offsets: counted,
                ..self
            }
        } else {
            LogView {
                segments: self.segments.update(n - 1, self.last().append(bytes)),
                queue_offsets: counted,
                ..self
            }
        }
    }

    /// The bytes of the record that `message` becomes in this log.
    pub open spec fn record_for(self, message: MessageView) -> Seq<u8> {
        record_bytes(
            message,
            self.next_queue_offset(message.queue_id),
            self.append_offset(record_size(message)) as u64,
        )
    }

    /// The log after `message` was appended.
    pub open spec fn append_message(self, message: MessageView) -> LogView {
        self.append_bytes(self.record_for(message), message.queue_id)
    }

    /// The byte at physical offset `offset`.
    pub open spec fn byte_at(self, offset: int) -> u8 {
        let rel = offset - self.base_offset;
        self.segments[rel / self.segment_size as int].image[rel % self.segment_size as int]
    }

    /// The `len` bytes from physical offset `offset` on.
    pub open spec fn read(self, offset: int, len: int) -> Seq<u8> {
        Seq::new(len as nat, |i: int| self.byte_at(offset + i))
    }

    /// The first segment from `i` on that is not committed to its end, or
    /// the active segment if all before it are.
    pub open spec fn first_uncommitted(self, i: int) -> int
        decreases self.segments.len() - i,
    {
        if i < 0 || i >= self.segments.len() - 1 {
            self.segments.len() - 1
        } else if self.segments[i].committed_position < self.segment_size {
            i
        } else {
            self.first_uncommitted(i + 1)
        }
    }

    /// The first segment from `i` on that is not flushed to its end, or the
    /// active segment if all before it are.
    pub open spec fn first_unflushed(self, i: int) -> int
        decreases self.segments.len() - i,
    {
        if i < 0 || i >= self.segments.len() - 1 {
            self.segments.len() - 1
        } else if self.segments[i].flushed_position < self.segment_size {
            i
        } else {
            self.first_unflushed(i + 1)
        }
    }

    /// The offset up to which the log has reached the mapped region.
    pub open spec fn committed_offset(self) -> nat {
        let k = self.first_uncommitted(0);
        self.segments[k].base_offset + self.segments[k].committed_position
    }

    /// The offset up to which the log is durable.
    pub open spec fn flushed_offset(self) -> nat {
        let k = self.first_unflushed(0);
        self.segments[k].base_offset + self.segments[k].flushed_position
    }

    /// The log after a commit of the first segment that waits for one.
    pub open spec fn commit(self, least_pages: nat) -> LogView {
        let k = self.first_uncommitted(0);
        LogView { segments: self.segments.update(k, self.segments[k].commit(least_pages)), ..self }
    }

    /// The log after a flush of the first segment that waits for one.
    pub open spec fn flush(self, least_pages: nat) -> LogView {
        let k = self.first_unflushed(0);
        LogView { segments: self.segments.update(k, self.segments[k].flush(least_pages)), ..self }
    }

    /// Whether the oldest segment can be given up: it is not the active one,
    /// it ends at or below `offset`, and no read of it is under way.
    pub open spec fn oldest_expired(self, offset: nat) -> bool {
        &&& self.segments.len() > 1
        &&& self.segments[0].base_offset + self.segment_size <= offset
        &&& self.segments[0].readers == 0
    }

    /// Whether a read that begins at `offset` can be taken note of: the log
    /// holds the offset, and the count of reads of the segment that holds it
    /// can still go up.
    pub open spec fn can_hold(self, offset: int) -> bool {
        &&& self.min_offset() <= offset < self.max_offset()
        &&& self.segments[(offset - self.base_offset) / self.segment_size as int].readers
            < usize::MAX
    }

    /// The log with one more read under way in the segment that holds
    /// `offset`.
    pub open spec fn hold(self, offset: int) -> LogView {
        let k = (offset - self.base_offset) / self.segment_size as int;
        LogView { segments: self.segments.update(k, self.segments[k].hold()), ..self }
    }

    /// The log with one read fewer under way in the segment that holds
    /// `offset`.
    pub open spec fn release(self, offset: int) -> LogView {
        let k = (offset - self.base_offset) / self.segment_size as int;
        LogView { segments: self.segments.update(k, self.segments[k].release()), ..self }
    }

    /// The log after its oldest segments were given up: those that end at
    /// or below `offset`, up to the first that a read still holds, but never
    /// the active one.
    pub open spec fn expire(self, offset: nat) -> LogView
        decreases self.segments.len(),
    {
        if self.oldest_expired(offset) {
            (LogView {
                base_offset: self.base_offset + self.segment_size,
                segments: self.segments.subrange(1, self.segments.len() as int),
                ..self
            }).expire(offset)
        } else {
            self
        }
    }

    /// Whether a segment can be added behind the active one.
    pub open spec fn can_grow(self) -> bool {
        self.segments.len() < self.max_segments && self.last().base_offset + 2
            * self.segment_size <= u64::MAX
    }

    /// The log with an empty segment added behind the active one.
    pub open spec fn grow(self) -> LogView {
        LogView {
            segments: self.segments.push(
                SegmentView::empty(
                    self.last().base_offset + self.segment_size,
                    self.segment_size,
                    self.transient,
                ),
            ),
            ..self
        }
    }

    /// The log with `chunk` written at its end, inside the active segment.
    pub open spec fn extend(self, chunk: Seq<u8>) -> LogView {
        LogView {
            segments: self.segments.update(self.segments.len() - 1, self.last().append(chunk)),
            ..self
        }
    }

    /// How many bytes of the active segment are not written yet.
    pub open spec fn room(self) -> int {
        self.segment_size - self.last().write_position
    }

    /// The log after the bytes of a replicated stream were written at its
    /// end, across segments as they come, as far as the log can grow.
    pub open spec fn append_raw(self, bytes: Seq<u8>) -> LogView
        decreases bytes.len(), (if self.room() <= 0 { 1int } else { 0int }),
    {
        if bytes.len() == 0 || self.segment_size == 0 {
            self
        } else if self.room() > 0 {
            let take = if self.room() < bytes.len() {
                self.room()
            } else {
                bytes.len() as int
            };
            self.extend(bytes.subrange(0, take)).append_raw(
                bytes.subrange(take, bytes.len() as int),
            )
        } else if self.can_grow() && self.room() == 0 {
            self.grow().append_raw(bytes)
        } else {
            self
        }
    }

    /// How many of `bytes` `append_raw` writes.
    pub open spec fn raw_stored(self, bytes: Seq<u8>) -> nat
        decreases bytes.len(), (if self.room() <= 0 { 1int } else { 0int }),
    {
        if bytes.len() == 0 || self.segment_size == 0 {
            0
        } else if self.room() > 0 {
            let take = if self.room() < bytes.len() {
                self.room()
            } else {
                bytes.len() as int
            };
            take as nat + self.extend(bytes.subrange(0, take)).raw_stored(
                bytes.subrange(take, bytes.len() as int),
            )
        } else if self.can_grow() && self.room() == 0 {
            self.grow().raw_stored(bytes)
        } else {
            0
        }
    }

    /// The byte regions of the segments, oldest first.
    pub open spec fn images(self) -> Seq<Seq<u8>> {
        Seq::new(self.segments.len(), |k: int| self.segments[k].image)
    }

    /// Whether a recovery scan of the log's segments that starts at segment
    /// `from` stops exactly at the end of the log.
    pub open spec fn recoverable_from(self, from: int, check_crc: bool) -> bool {
        scan_log(
            self.images(),
            self.base_offset as int,
            self.segment_size as int,
            from,
            check_crc,
        ) == (self.segments.len() - 1, self.last().write_position as int)
    }

    /// Whether a recovery scan of all of the log's segments stops exactly at
    /// the end of the log.
    pub open spec fn recoverable(self, check_crc: bool) -> bool {
        self.recoverable_from(0, check_crc)
    }

    /// Whether a valid record starts at physical offset `offset` and ends
    /// below the end of the log.
    pub open spec fn record_starts_at(self, offset: int, check_crc: bool) -> bool {
        let rel = offset - self.base_offset;
        let k = rel / self.segment_size as int;
        let p = rel % self.segment_size as int;
        &&& self.min_offset() <= offset < self.max_offset()
        &&& record_valid_at(self.segments[k].image, p, offset, check_crc)
        &&& p + declared_length(self.segments[k].image, p) <= self.segments[k].write_position
    }

    /// The record that starts at physical offset `offset`.
    pub open spec fn record_view_at(self, offset: int) -> crate::record::RecordView {
        let rel = offset - self.base_offset;
        record_at(
            self.segments[rel / self.segment_size as int].image,
            rel % self.segment_size as int,
        )
    }

    /// Whether the `len` bytes from `offset` on all lie in the log.
    pub open spec fn in_range(self, offset: int, len: int) -> bool {
        self.min_offset() <= offset && 0 <= len && offset + len <= self.max_offset()
    }
}

/// Whether `after` is `log` with more written to it: the same segments as
/// far as `log` had written them, and maybe more behind.
pub open spec fn extends(log: LogView, after: LogView) -> bool {
    &&& after.base_offset == log.base_offset
    &&& after.segment_size == log.segment_size
    &&& after.segments.len() >= log.segments.len()
    &&& after.max_offset() >= log.max_offset()
    &&& forall|k: int|
        0 <= k < log.segments.len() ==> {
            &&& (#[trigger] after.segments[k]).write_position >= log.segments[k].write_position
            &&& forall|i: int|
                0 <= i < log.segments[k].write_position ==> after.segments[k].image[i]
                    == log.segments[k].image[i]
        }
}

/// The segment images as values.
pub open spec fn image_seqs(images: Seq<Vec<u8>>) -> Seq<Seq<u8>> {
    Seq::new(images.len(), |k: int| images[k]@)
}

/// Whether a byte other than zero lies in `image` from `from` on.
pub open spec fn holds_data_from(image: Seq<u8>, from: int) -> bool {
    exists|i: int| from <= i < image.len() && image[i] != 0u8
}

/// Whether segment images found in storage can be recovered at all: there is
/// at least one and no more than the log may hold, each has the segment's
/// size, and the last ends inside the offset space.
pub open spec fn recovery_input_ok(
    images: Seq<Seq<u8>>,
    base: nat,
    size: nat,
    max_segments: nat,
) -> bool {
    &&& size > 0
    &&& 1 <= images.len() <= max_segments
    &&& base + images.len() * size <= u64::MAX
    &&& forall|k: int| 0 <= k < images.len() ==> (#[trigger] images[k]).len() == size
}

/// The segment at which a scan from checkpoint `from` starts: that segment,
/// or the last one if there are fewer.
pub open spec fn first_scanned(images: Seq<Seq<u8>>, from: nat) -> int {
    if from < images.len() {
        from as int
    } else {
        images.len() - 1
    }
}

/// The log that recovery makes of the segment images found in storage when
/// the scan starts at segment `from` and the segments before it are taken
/// on trust.
pub open spec fn recovered_from(
    images: Seq<Seq<u8>>,
    base: nat,
    size: nat,
    max_segments: nat,
    max_message_size: nat,
    transient: bool,
    from: nat,
    check_crc: bool,
) -> LogView {
    let (k, q) = scan_log(
        images,
        base as int,
        size as int,
        first_scanned(images, from),
        check_crc,
    );
    LogView {
        base_offset: base,
        segment_size: size,
        segments: Seq::new(
            (k + 1) as nat,
            |i: int|
                SegmentView::restored(
                    images[i],
                    (base + i * size) as nat,
                    if i < k {
                        size
                    } else {
                        q as nat
                    },
                    transient,
                ),
        ),
        max_segments,
        max_message_size,
        transient,
        queue_offsets: Map::empty(),
    }
}

/// The log that recovery makes of the segment images found in storage when
/// all of them are scanned.
pub open spec fn recovered(
    images: Seq<Seq<u8>>,
    base: nat,
    size: nat,
    max_segments: nat,
    max_message_size: nat,
    transient: bool,
    check_crc: bool,
) -> LogView {
    recovered_from(images, base, size, max_segments, max_message_size, transient, 0, check_crc)
}

/// What a recovery found.
#[derive(Clone, Copy, Debug, PartialEq, Eq, Structural)]
pub struct RecoveryOutcome {
    /// The offset up to which the log is valid, where the next append goes.
    pub last_valid_offset: u64,
    /// How many segments were kept.
    pub kept_segments: usize,
    /// How many segments beyond the last valid offset were dropped.
    pub dropped_segments: usize,
    /// Whether bytes other than zero were wiped in the last kept segment.
    pub wiped: bool,
}

impl RecoveryOutcome {
    /// Whether the broker may start on what recovery found: what was cut off
    /// the log is lost for good, so a log that is valid only below the offset
    /// that is required is fatal.
    pub fn verdict(&self, required_offset: u64) -> (verdict: Result<(), StoreError>)
        ensures
            self.last_valid_offset >= required_offset ==> verdict == Ok::<(), StoreError>(()),
            self.last_valid_offset < required_offset ==> verdict == Err::<(), StoreError>(
                StoreError::Corrupted,
            ),
    {
        if self.last_valid_offset >= required_offset {
            Ok(())
        } else {
            Err(StoreError::Corrupted)
        }
    }
}

proof fn lemma_next_base(k: int, size: int)
    ensures
        (k + 1) * size == k * size + size,
{
    assert((k + 1) * size == k * size + size) by (nonlinear_arith);
}

/// The commit log.
pub struct CommitLog {
    base_offset: u64,
    segment_size: usize,
    max_segments: usize,
    max_message_size: usize,
    transient: bool,
    segments: Vec<MappedSegment>,
    queue_offsets: HashMap<u32, u64>,
}

impl View for CommitLog {
    type V = LogView;

    closed spec fn view(&self) -> LogView {
        LogView {
            base_offset: self.base_offset as nat,
            segment_size: self.segment_size as nat,
            segments: Seq::new(self.segments@.len(), |k: int| self.segments@[k]@),
            max_segments: self.max_segments as nat,
            max_message_size: self.max_message_size as nat,
            transient: self.transient,
            queue_offsets: self.queue_offsets@,
        }
    }
}

impl CommitLog {
    /// Whether the log is in a state that its operations keep.
    pub open spec fn wf(&self) -> bool {
        self@.wf()
    }

    /// A log with one empty segment at `base_offset`. There is none for a
    /// segment size of zero, for a limit of no segments, or where the first
    /// segment would end beyond the offset space.
    pub fn new(
        base_offset: u64,
        segment_size: usize,
        max_segments: usize,
        max_message_size: usize,
        transient: bool,
    ) -> (log: Option<Self>)
        ensures
            log is Some <==> segment_size > 0 && max_segments >= 1 && base_offset + segment_size
                <= u64::MAX,
            log matches Some(l) ==> l.wf() && l@ == (LogView {
                base_offset: base_offset as nat,
                segment_size: segment_size as nat,
                segments: seq![
                    SegmentView::empty(base_offset as nat, segment_size as nat, transient),
                ],
                max_segments: max_segments as nat,
                max_message_size: max_message_size as nat,
                transient,
                queue_offsets: Map::empty(),
            }),
    {
        if segment_size == 0 || max_segments == 0 || base_offset > u64::MAX - segment_size as u64 {
            return None;
        }
        let first = MappedSegment::new(base_offset, segment_size, transient);
        let mut segments: Vec<MappedSegment> = Vec::new();
        segments.push(first);
        let log = CommitLog {
            base_offset,
            segment_size,
            max_segments,
            max_message_size,
            transient,
            segments,
            queue_offsets: HashMap::new(),
        };
        assert(log@.segments =~= seq![
            SegmentView::empty(base_offset as nat, segment_size as nat, transient),
        ]);
        assert(log@.queue_offsets =~= Map::empty());
        Some(log)
    }

    pub fn min_offset(&self) -> (offset: u64)
        ensures
            offset == self@.min_offset(),
    {
        self.base_offset
    }

    pub fn max_offset(&self) -> (offset: u64)
        requires
            self.wf(),
        ensures
            offset == self@.max_offset(),
    {
        let n = self.segments.len();
        assert(self@.segments[n - 1] == self.segments@[n - 1]@);
        let last = &self.segments[n - 1];
        last.base_offset() + last.write_position() as u64
    }

    pub fn segment_size(&self) -> (size: usize)
        ensures
            size == self@.segment_size,
    {
        self.segment_size
    }

    pub fn segment_count(&self) -> (count: usize)
        ensures
            count == self@.segments.len(),
    {
        self.segments.len()
    }

    /// The offset that the next message of queue `queue_id` gets.
    pub fn next_queue_offset(&self, queue_id: u32) -> (offset: u64)
        ensures
            offset == self@.next_queue_offset(queue_id),
    {
        match self.queue_offsets.get(&queue_id) {
            Some(offset) => *offset,
            None => 0,
        }
    }

    /// The `size` bytes at `offset`. Fails with `OffsetOutOfRange` exactly if
    /// they do not all lie between the log's first and last byte.
    pub fn get_message(&self, offset: u64, size: usize) -> (result: Result<Vec<u8>, StoreError>)
        requires
            self.wf(),
        ensures
            self@.in_range(offset as int, size as int) ==> result is Ok && result->Ok_0@
                == self@.read(offset as int, size as int),
            !self@.in_range(offset as int, size as int) ==> result == Err::<Vec<u8>, StoreError>(
                StoreError::OffsetOutOfRange,
            ),
    {
        let max = self.max_offset();
        if offset < self.base_offset || offset > max || size as u64 > max - offset {
            return Err(StoreError::OffsetOutOfRange);
        }
        let mut out: Vec<u8> = Vec::new();
        let mut i: usize = 0;
        while i < size
            invariant
                self.wf(),
                i <= size,
                self.base_offset <= offset,
                offset + size <= self@.max_offset(),
                out@ == self@.read(offset as int, i as int),
            decreases size - i,
        {
            let rel: u64 = (offset - self.base_offset) + i as u64;
            let k = (rel / self.segment_size as u64) as usize;
            let p = (rel % self.segment_size as u64) as usize;
            proof {
                lemma_position(self@, offset + i);
                assert(self@.segments[k as int] == self.segments@[k as int]@);
            }
            let byte = self.segments[k].image()[p];
            out.push(byte);
            i += 1;
            assert(out@ =~= self@.read(offset as int, i as int));
        }
        Ok(out)
    }

    fn find_uncommitted(&self) -> (k: usize)
        requires
            self.wf(),
        ensures
            k == self@.first_uncommitted(0),
            k < self@.segments.len(),
    {
        let n = self.segments.len();
        let mut i: usize = 0;
        while i < n - 1
            invariant
                self.wf(),
                n == self.segments@.len(),
                i <= n - 1,
                self@.first_uncommitted(0) == self@.first_uncommitted(i as int),
            decreases n - i,
        {
            assert(self@.segments[i as int] == self.segments@[i as int]@);
            if self.segments[i].committed_position() < self.segment_size {
                return i;
            }
            i += 1;
        }
        i
    }

    fn find_unflushed(&self) -> (k: usize)
        requires
            self.wf(),
        ensures
            k == self@.first_unflushed(0),
            k < self@.segments.len(),
    {
        let n = self.segments.len();
        let mut i: usize = 0;
        while i < n - 1
            invariant
                self.wf(),
                n == self.segments@.len(),
                i <= n - 1,
                self@.first_unflushed(0) == self@.first_unflushed(i as int),
            decreases n - i,
        {
            assert(self@.segments[i as int] == self.segments@[i as int]@);
            if self.segments[i].flushed_position() < self.segment_size {
                return i;
            }
            i += 1;
        }
        i
    }

    /// The offset up to which the log has reached the mapped region.
    pub fn committed_offset(&self) -> (offset: u64)
        requires
            self.wf(),
        ensures
            offset == self@.committed_offset(),
    {
        let k = self.find_uncommitted();
        assert(self@.segments[k as int] == self.segments@[k as int]@);
        assert(self@.segments[k as int].wf());
        self.segments[k].base_offset() + self.segments[k].committed_position() as u64
    }

    /// The offset up to which the log is durable.
    pub fn flushed_offset(&self) -> (offset: u64)
        requires
            self.wf(),
        ensures
            offset == self@.flushed_offset(),
    {
        let k = self.find_unflushed();
        assert(self@.segments[k as int] == self.segments@[k as int]@);
        assert(self@.segments[k as int].wf());
        self.segments[k].base_offset() + self.segments[k].flushed_position() as u64
    }

    /// Commits the first segment that waits for it, unless fewer than
    /// `least_pages` pages wait there. Returns the committed offset.
    pub fn commit(&mut self, least_pages: usize) -> (offset: u64)
        requires
            old(self).wf(),
        ensures
            final(self).wf(),
            final(self)@ == old(self)@.commit(least_pages as nat),
            offset == final(self)@.committed_offset(),
    {
        let k = self.find_uncommitted();
        let ghost before = self@;
        assert(before.segments[k as int] == self.segments@[k as int]@);
        assert(before.segments[k as int].wf());
        self.segments[k].commit(least_pages);
        proof {
            assert(self@.segments =~= before.commit(least_pages as nat).segments);
            assert(self@.wf()) by {
                assert forall|i: int| 0 <= i < self@.segments.len() implies (
                #[trigger] self@.segments[i]).wf() by {
                    assert(before.segments[i].wf());
                }
                assert forall|i: int| 0 <= i < self@.segments.len() - 1 implies (
                #[trigger] self@.segments[i]).is_full() by {
                    assert(before.segments[i].is_full());
                }
                assert(self@.last().write_position == before.last().write_position);
            }
        }
        self.committed_offset()
    }

    /// Flushes the first segment that waits for it, unless fewer than
    /// `least_pages` dirty pages exist there. Returns the flushed offset.
    pub fn flush(&mut self, least_pages: usize) -> (offset: u64)
        requires
            old(self).wf(),
        ensures
            final(self).wf(),
            final(self)@ == old(self)@.flush(least_pages as nat),
            offset == final(self)@.flushed_offset(),
    {
        let k = self.find_unflushed();
        let ghost before = self@;
        assert(before.segments[k as int] == self.segments@[k as int]@);
        assert(before.segments[k as int].wf());
        self.segments[k].flush(least_pages);
        proof {
            assert(self@.segments =~= before.flush(least_pages as nat).segments);
            assert(self@.wf()) by {
                assert forall|i: int| 0 <= i < self@.segments.len() implies (
                #[trigger] self@.segments[i]).wf() by {
                    assert(before.segments[i].wf());
                }
                assert forall|i: int| 0 <= i < self@.segments.len() - 1 implies (
                #[trigger] self@.segments[i]).is_full() by {
                    assert(before.segments[i].is_full());
                }
                assert(self@.last().write_position == before.last().write_position);
            }
        }
        self.flushed_offset()
    }

    /// Takes note of a read that begins at `offset`: the segment that holds
    /// it is not given up while the read is under way. Succeeds exactly if
    /// the log holds the offset and the segment's count of reads can still go
    /// up; else nothing changes.
    pub fn hold(&mut self, offset: u64) -> (held: bool)
        requires
            old(self).wf(),
        ensures
            final(self).wf(),
            held == old(self)@.can_hold(offset as int),
            held ==> final(self)@ == old(self)@.hold(offset as int),
            !held ==> final(self)@ == old(self)@,
    {
        if offset < self.base_offset || offset >= self.max_offset() {
            return false;
        }
        let k = ((offset - self.base_offset) / self.segment_size as u64) as usize;
        let ghost before = self@;
        proof {
            lemma_position(before, offset as int);
            assert(before.segments[k as int] == self.segments@[k as int]@);
        }
        let held = self.segments[k].hold();
        proof {
            if held {
                assert(self@.segments =~= before.hold(offset as int).segments);
            } else {
                assert(self@.segments =~= before.segments);
            }
            lemma_readers_keep_wf(before, self@);
        }
        held
    }

    /// Takes note that a read that began at `offset` has ended.
    pub fn release(&mut self, offset: u64)
        requires
            old(self).wf(),
        ensures
            final(self).wf(),
            old(self)@.min_offset() <= offset < old(self)@.max_offset() ==> final(self)@ == old(
                self,
            )@.release(offset as int),
            !(old(self)@.min_offset() <= offset < old(self)@.max_offset()) ==> final(self)@
                == old(self)@,
    {
        if offset < self.base_offset || offset >= self.max_offset() {
            return ;
        }
        let k = ((offset - self.base_offset) / self.segment_size as u64) as usize;
        let ghost before = self@;
        proof {
            lemma_position(before, offset as int);
            assert(before.segments[k as int] == self.segments@[k as int]@);
        }
        self.segments[k].release();
        proof {
            assert(self@.segments =~= before.release(offset as int).segments);
            lemma_readers_keep_wf(before, self@);
        }
    }

    /// Gives up the oldest segments that end at or below `offset`, up to the
    /// first that a read still holds, keeping the active one in any case.
    /// Returns how many were given up.
    pub fn delete_expired(&mut self, offset: u64) -> (dropped: usize)
        requires
            old(self).wf(),
        ensures
            final(self).wf(),
            final(self)@ == old(self)@.expire(offset as nat),
            dropped == old(self)@.segments.len() - final(self)@.segments.len(),
            final(self)@.max_offset() == old(self)@.max_offset(),
    {
        let mut dropped: usize = 0;
        let total = self.segments.len();
        loop
            invariant
                self.wf(),
                total == old(self)@.segments.len(),
                self@.expire(offset as nat) == old(self)@.expire(offset as nat),
                dropped == old(self)@.segments.len() - self@.segments.len(),
                self@.max_offset() == old(self)@.max_offset(),
            ensures
                self.wf(),
                self@ == old(self)@.expire(offset as nat),
                dropped == old(self)@.segments.len() - self@.segments.len(),
                self@.max_offset() == old(self)@.max_offset(),
            decreases self.segments@.len(),
        {
            let n = self.segments.len();
            assert(self@.segments[0] == self.segments@[0]@);
            assert(self@.segments[0].wf());
            if n <= 1 || self.segments[0].base_offset() + self.segment_size as u64 > offset
                || self.segments[0].readers() > 0 {
                break ;
            }
            let ghost before = self@;
            self.segments.remove(0);
            self.base_offset = self.base_offset + self.segment_size as u64;
            dropped = dropped + 1;
            proof {
                let after = LogView {
                    base_offset: before.base_offset + before.segment_size,
                    segments: before.segments.subrange(1, n as int),
                    ..before
                };
                assert(self@.segments =~= after.segments);
                assert(self@ == after);
                assert forall|k: int| 0 <= k < after.segments.len() implies {
                    &&& (#[trigger] after.segments[k]).wf()
                    &&& after.segments[k].image.len() == after.segment_size
                    &&& after.segments[k].base_offset == after.base_offset + k
                        * after.segment_size
                    &&& after.segments[k].transient == after.transient
                } by {
                    assert(before.segments[k + 1].wf());
                    lemma_next_base(k, before.segment_size as int);
                }
                assert forall|k: int| 0 <= k < after.segments.len() - 1 implies (
                #[trigger] after.segments[k]).is_full() by {
                    assert(before.segments[k + 1].is_full());
                }
                assert(after.last() == before.last());
            }
        }
        dropped
    }

    /// Writes the bytes of a replicated stream at the end of the log, across
    /// segments as they come, adding segments as long as the log can grow.
    /// Returns how many bytes were stored; fewer than all only where the log
    /// can grow no further.
    pub fn append_raw(&mut self, bytes: &[u8]) -> (stored: usize)
        requires
            old(self).wf(),
        ensures
            final(self).wf(),
            final(self)@ == old(self)@.append_raw(bytes@),
            stored == old(self)@.raw_stored(bytes@),
            stored <= bytes@.len(),
            final(self)@.max_offset() == old(self)@.max_offset() + stored,
    {
        let len = bytes.len();
        let mut stored: usize = 0;
        proof {
            lemma_append_raw(self@, bytes@);
            assert(bytes@.subrange(0, len as int) =~= bytes@);
        }
        while stored < len
            invariant_except_break
                old(self)@.append_raw(bytes@) == self@.append_raw(
                    bytes@.subrange(stored as int, len as int),
                ),
                old(self)@.raw_stored(bytes@) == stored + self@.raw_stored(
                    bytes@.subrange(stored as int, len as int),
                ),
            invariant
                self.wf(),
                len == bytes@.len(),
                stored <= len,
            ensures
                self.wf(),
                stored <= len,
                self@ == old(self)@.append_raw(bytes@),
                stored == old(self)@.raw_stored(bytes@),
            decreases len - stored,
        {
            let ghost rest = bytes@.subrange(stored as int, len as int);
            let n = self.segments.len();
            assert(self@.segments[n - 1] == self.segments@[n - 1]@);
            assert(self@.segments[n - 1].wf());
            let mut room = self.segments[n - 1].remaining();
            if room == 0 {
                let next_base: u64 = self.segments[n - 1].base_offset() + self.segment_size as u64;
                if n >= self.max_segments || next_base > u64::MAX - self.segment_size as u64 {
                    break ;
                }
                let ghost before = self@;
                let fresh = MappedSegment::new(next_base, self.segment_size, self.transient);
                self.segments.push(fresh);
                room = self.segment_size;
                proof {
                    assert(self@.segments =~= before.grow().segments);
                    lemma_grow(before);
                    assert(before.room() == 0 && before.can_grow());
                    assert(before.append_raw(rest) == before.grow().append_raw(rest));
                    assert(before.raw_stored(rest) == before.grow().raw_stored(rest));
                }
            }
            let ghost mid = self@;
            let m = self.segments.len();
            assert(mid.segments[m - 1] == self.segments@[m - 1]@);
            let take = if room < len - stored {
                room
            } else {
                len - stored
            };
            let chunk = vstd::slice::slice_subrange(bytes, stored, stored + take);
            let _ = self.segments[m - 1].append(chunk);
            proof {
                let tail = rest.subrange(take as int, rest.len() as int);
                assert(chunk@ =~= rest.subrange(0, take as int));
                assert(self@.segments =~= mid.extend(chunk@).segments);
                lemma_extend(mid, chunk@);
                assert(tail =~= bytes@.subrange(stored + take, len as int));
                assert(mid.room() == room);
                assert(mid.append_raw(rest) == mid.extend(chunk@).append_raw(tail));
                assert(mid.raw_stored(rest) == take + mid.extend(chunk@).raw_stored(tail));
            }
            stored = stored + take;
        }
        proof {
            if stored == len {
                assert(bytes@.subrange(stored as int, len as int).len() == 0);
            }
            lemma_append_raw(old(self)@, bytes@);
        }
        stored
    }

    /// The record that starts at `offset`, if a valid one does.
    pub fn read_record(&self, offset: u64, check_crc: bool) -> (found: Option<Record>)
        requires
            self.wf(),
        ensures
            found is Some <==> self@.record_starts_at(offset as int, check_crc),
            found matches Some(record) ==> record@ == self@.record_view_at(offset as int)
                && record.length >= RECORD_HEADER_SIZE && offset + record.length
                <= self@.max_offset(),
    {
        if offset < self.base_offset || offset >= self.max_offset() {
            return None;
        }
        let rel: u64 = offset - self.base_offset;
        let k = (rel / self.segment_size as u64) as usize;
        let p = (rel % self.segment_size as u64) as usize;
        proof {
            lemma_position(self@, offset as int);
            lemma_segment_ends(self@, k as int);
            assert(self@.segments[k as int] == self.segments@[k as int]@);
        }
        let segment = &self.segments[k];
        match decode_record(segment.image(), p, offset, check_crc) {
            Some(record) => {
                if record.length as usize <= segment.write_position() - p {
                    Some(record)
                } else {
                    None
                }
            },
            None => None,
        }
    }

    /// The offset at which the segment that holds `offset` ends.
    pub fn segment_end(&self, offset: u64) -> (end: u64)
        requires
            self.wf(),
            self@.min_offset() <= offset < self@.max_offset(),
        ensures
            end == self@.base_offset + ((offset - self@.base_offset) / self@.segment_size as int
                + 1) * self@.segment_size,
            offset < end,
            end - offset <= self@.segment_size,
    {
        let rel: u64 = offset - self.base_offset;
        let k = rel / self.segment_size as u64;
        let p = rel % self.segment_size as u64;
        proof {
            lemma_position(self@, offset as int);
            lemma_segment_ends(self@, k as int);
            lemma_next_base(k as int, self.segment_size as int);
        }
        offset + (self.segment_size as u64 - p)
    }

    /// Forgets the offsets of all queues: the next message of every queue
    /// gets offset 0 again.
    pub fn clear_queue_offsets(&mut self)
        requires
            old(self).wf(),
        ensures
            final(self).wf(),
            final(self)@ == (LogView { queue_offsets: Map::empty(), ..old(self)@ }),
    {
        let ghost before = self@;
        self.queue_offsets.clear();
        proof {
            assert(self@.segments =~= before.segments);
            assert(self@.queue_offsets =~= Map::<u32, u64>::empty());
        }
    }

    /// Sets the offset that the next message of queue `queue_id` gets.
    /// Refuses, changing nothing, an offset above the end of the log: a queue
    /// cannot hold more messages than the log holds bytes.
    pub fn set_queue_offset(&mut self, queue_id: u32, offset: u64) -> (set: bool)
        requires
            old(self).wf(),
        ensures
            final(self).wf(),
            set == (offset <= old(self)@.max_offset()),
            set ==> final(self)@ == (LogView {
                queue_offsets: old(self)@.queue_offsets.insert(queue_id, offset),
                ..old(self)@
            }),
            !set ==> final(self)@ == old(self)@,
    {
        if offset > self.max_offset() {
            return false;
        }
        let ghost before = self@;
        self.queue_offsets.insert(queue_id, offset);
        proof {
            assert(self@.segments =~= before.segments);
        }
        true
    }

    /// The byte region of segment `k`, as it is to be kept in storage.
    pub fn segment_image(&self, k: usize) -> (bytes: &[u8])
        requires
            k < self@.segments.len(),
        ensures
            bytes@ == self@.segments[k as int].image,
    {
        assert(self@.segments[k as int] == self.segments@[k as int]@);
        self.segments[k].image()
    }

    /// Rebuilds the log from the segment images found in storage, the oldest
    /// first, the first one at `base_offset`. The segments before segment
    /// `from_segment`, the checkpoint, are taken on trust; from there on the
    /// images are scanned record by record. The log ends where the scan
    /// stops, the rest of that segment is wiped and later segments are
    /// dropped. No queue has an offset yet. Fails with `Corrupted` exactly if
    /// `recovery_input_ok` does not hold.
    pub fn recover_from(
        images: &Vec<Vec<u8>>,
        from_segment: usize,
        base_offset: u64,
        segment_size: usize,
        max_segments: usize,
        max_message_size: usize,
        transient: bool,
        check_crc: bool,
    ) -> (result: Result<(CommitLog, RecoveryOutcome), StoreError>)
        ensures
            match result {
                Ok((log, outcome)) => {
                    let found = image_seqs(images@);
                    let stop = scan_log(
                        found,
                        base_offset as int,
                        segment_size as int,
                        first_scanned(found, from_segment as nat),
                        check_crc,
                    );
                    &&& recovery_input_ok(
                        found,
                        base_offset as nat,
                        segment_size as nat,
                        max_segments as nat,
                    )
                    &&& log.wf()
                    &&& log@ == recovered_from(
                        found,
                        base_offset as nat,
                        segment_size as nat,
                        max_segments as nat,
                        max_message_size as nat,
                        transient,
                        from_segment as nat,
                        check_crc,
                    )
                    &&& outcome.last_valid_offset == last_valid_offset_from(
                        found,
                        base_offset as int,
                        segment_size as int,
                        first_scanned(found, from_segment as nat),
                        check_crc,
                    )
                    &&& outcome.last_valid_offset == log@.max_offset()
                    &&& outcome.kept_segments == stop.0 + 1
                    &&& outcome.kept_segments + outcome.dropped_segments == images@.len()
                    &&& outcome.wiped == holds_data_from(found[stop.0], stop.1)
                },
                Err(e) => {
                    &&& e == StoreError::Corrupted
                    &&& !recovery_input_ok(
                        image_seqs(images@),
                        base_offset as nat,
                        segment_size as nat,
                        max_segments as nat,
                    )
                },
            },
    {
        let n = images.len();
        let ghost found = image_seqs(images@);
        if segment_size == 0 || n == 0 || n > max_segments {
            return Err(StoreError::Corrupted);
        }
        let mut i: usize = 0;
        let mut end: u64 = base_offset;
        while i < n
            invariant
                i <= n,
                n == images@.len(),
                found == image_seqs(images@),
                segment_size > 0,
                end == base_offset + i * segment_size,
                forall|j: int| 0 <= j < i ==> (#[trigger] found[j]).len() == segment_size,
            decreases n - i,
        {
            proof {
                lemma_next_base(i as int, segment_size as int);
                lemma_mul_inequality(i + 1, n as int, segment_size as int);
            }
            if images[i].len() != segment_size {
                assert(found[i as int].len() != segment_size);
                return Err(StoreError::Corrupted);
            }
            if end > u64::MAX - segment_size as u64 {
                return Err(StoreError::Corrupted);
            }
            end = end + segment_size as u64;
            i += 1;
        }
        assert(recovery_input_ok(
            found,
            base_offset as nat,
            segment_size as nat,
            max_segments as nat,
        ));
        let mut k: usize = 0;
        let mut seg_base: u64 = base_offset;
        let mut q: usize = 0;
        while k < from_segment && k + 1 < n
            invariant
                k < n,
                n == images@.len(),
                segment_size > 0,
                base_offset + n * segment_size <= u64::MAX,
                seg_base == base_offset + k * segment_size,
                k <= from_segment,
            decreases n - k,
        {
            proof {
                lemma_next_base(k as int, segment_size as int);
                lemma_mul_inequality(k + 2, n as int, segment_size as int);
                lemma_next_base(k + 1, segment_size as int);
            }
            k = k + 1;
            seg_base = seg_base + segment_size as u64;
        }
        let ghost start = k as int;
        assert(start == first_scanned(found, from_segment as nat));
        loop
            invariant
                k < n,
                n == images@.len(),
                found == image_seqs(images@),
                segment_size > 0,
                base_offset + n * segment_size <= u64::MAX,
                forall|j: int| 0 <= j < n ==> (#[trigger] found[j]).len() == segment_size,
                seg_base == base_offset + k * segment_size,
                scan_log(found, base_offset as int, segment_size as int, start, check_crc)
                    == scan_log(
                    found,
                    base_offset as int,
                    segment_size as int,
                    k as int,
                    check_crc,
                ),
            ensures
                k < n,
                seg_base == base_offset + k * segment_size,
                q <= segment_size,
                scan_log(found, base_offset as int, segment_size as int, start, check_crc) == (
                    k as int,
                    q as int,
                ),
            decreases n - k,
        {
            proof {
                lemma_next_base(k as int, segment_size as int);
                lemma_mul_inequality(k + 1, n as int, segment_size as int);
                assert(found[k as int].len() == segment_size);
            }
            let image = images[k].as_slice();
            q = scan_segment_end(image, seg_base, check_crc);
            if is_blank(image, q) && k + 1 < n {
                k = k + 1;
                seg_base = seg_base + segment_size as u64;
            } else {
                break ;
            }
        }
        let mut segments: Vec<MappedSegment> = Vec::new();
        let mut j: usize = 0;
        let mut at: u64 = base_offset;
        while j <= k
            invariant
                j <= k + 1,
                k < n,
                q <= segment_size,
                n == images@.len(),
                found == image_seqs(images@),
                segment_size > 0,
                base_offset + n * segment_size <= u64::MAX,
                forall|i: int| 0 <= i < n ==> (#[trigger] found[i]).len() == segment_size,
                j <= k ==> at == base_offset + j * segment_size,
                segments@.len() == j,
                forall|i: int|
                    0 <= i < j ==> (#[trigger] segments@[i]).wf() && segments@[i]@
                        == SegmentView::restored(
                        found[i],
                        (base_offset + i * segment_size) as nat,
                        if i < k {
                            segment_size as nat
                        } else {
                            q as nat
                        },
                        transient,
                    ),
            decreases k + 1 - j,
        {
            proof {
                lemma_next_base(j as int, segment_size as int);
                lemma_mul_inequality(j + 1, n as int, segment_size as int);
                assert(found[j as int].len() == segment_size);
            }
            let valid = if j < k {
                segment_size
            } else {
                q
            };
            let segment = MappedSegment::restore(at, images[j].as_slice(), valid, transient);
            segments.push(segment);
            if j < k {
                at = at + segment_size as u64;
            }
            j += 1;
        }
        let tail = images[k].as_slice();
        let mut wiped = false;
        let mut t: usize = q;
        proof {
            assert(found[k as int].len() == segment_size);
        }
        while t < segment_size
            invariant
                q <= t <= segment_size,
                k < found.len(),
                tail@ == found[k as int],
                tail@.len() == segment_size,
                wiped == (exists|i: int| q <= i < t && tail@[i] != 0u8),
            decreases segment_size - t,
        {
            if tail[t] != 0 {
                wiped = true;
            }
            t += 1;
        }
        let log = CommitLog {
            base_offset,
            segment_size,
            max_segments,
            max_message_size,
            transient,
            segments,
            queue_offsets: HashMap::new(),
        };
        proof {
            let want = recovered_from(
                found,
                base_offset as nat,
                segment_size as nat,
                max_segments as nat,
                max_message_size as nat,
                transient,
                from_segment as nat,
                check_crc,
            );
            assert(log@.segments =~= want.segments);
            assert(log@.queue_offsets =~= want.queue_offsets);
            lemma_next_base(k as int, segment_size as int);
            lemma_mul_inequality(k + 1, n as int, segment_size as int);
        }
        let outcome = RecoveryOutcome {
            last_valid_offset: seg_base + q as u64,
            kept_segments: k + 1,
            dropped_segments: n - (k + 1),
            wiped,
        };
        Ok((log, outcome))
    }

    /// Rebuilds the log from the segment images found in storage, all of
    /// which are scanned: `recover_from` with the first segment as the
    /// checkpoint.
    pub fn recover(
        images: &Vec<Vec<u8>>,
        base_offset: u64,
        segment_size: usize,
        max_segments: usize,
        max_message_size: usize,
        transient: bool,
        check_crc: bool,
    ) -> (result: Result<(CommitLog, RecoveryOutcome), StoreError>)
        ensures
            match result {
                Ok((log, outcome)) => {
                    let found = image_seqs(images@);
                    let stop = scan_log(
                        found,
                        base_offset as int,
                        segment_size as int,
                        0,
                        check_crc,
                    );
                    &&& recovery_input_ok(
                        found,
                        base_offset as nat,
                        segment_size as nat,
                        max_segments as nat,
                    )
                    &&& log.wf()
                    &&& log@ == recovered(
                        found,
                        base_offset as nat,
                        segment_size as nat,
                        max_segments as nat,
                        max_message_size as nat,
                        transient,
                        check_crc,
                    )
                    &&& outcome.last_valid_offset == last_valid_offset(
                        found,
                        base_offset as int,
                        segment_size as int,
                        check_crc,
                    )
                    &&& outcome.last_valid_offset == log@.max_offset()
                    &&& outcome.kept_segments == stop.0 + 1
                    &&& outcome.kept_segments + outcome.dropped_segments == images@.len()
                    &&& outcome.wiped == holds_data_from(found[stop.0], stop.1)
                },
                Err(e) => {
                    &&& e == StoreError::Corrupted
                    &&& !recovery_input_ok(
                        image_seqs(images@),
                        base_offset as nat,
                        segment_size as nat,
                        max_segments as nat,
                    )
                },
            },
    {
        Self::recover_from(
            images,
            0,
            base_offset,
            segment_size,
            max_segments,
            max_message_size,
            transient,
            check_crc,
        )
    }

    /// Appends `message` as one record. The record gets the next offset of
    /// its queue, and lies at the end of the log if the active segment can
    /// hold it; else that segment's remainder stays zero and the record opens
    /// a new segment. Fails, changing nothing, with `MessageIllegal` or
    /// `DiskFull` as `LogView::rejection` says.
    pub fn append_message(&mut self, message: &Message) -> (result: Result<
        AppendResult,
        StoreError,
    >)
        requires
            old(self).wf(),
        ensures
            final(self).wf(),
            match result {
                Ok(done) => {
                    &&& old(self)@.rejection(record_size(message@)) is None
                    &&& done.physical_offset == old(self)@.append_offset(record_size(message@))
                    &&& done.queue_offset == old(self)@.next_queue_offset(message.queue_id)
                    &&& done.wrote_bytes == record_size(message@)
                    &&& final(self)@ == old(self)@.append_message(message@)
                },
                Err(e) => {
                    &&& old(self)@.rejection(record_size(message@)) == Some(e)
                    &&& final(self)@ == old(self)@
                },
            },
    {
        let size = match message.encoded_size() {
            Some(size) => size,
            None => {
                return Err(StoreError::MessageIllegal);
            },
        };
        if size > self.max_message_size || size > self.segment_size {
            return Err(StoreError::MessageIllegal);
        }
        let n = self.segments.len();
        assert(self@.segments[n - 1] == self.segments@[n - 1]@);
        let last = &self.segments[n - 1];
        let last_base = last.base_offset();
        let write = last.write_position();
        let roll = size > last.remaining();
        let next_base: u64 = last_base + self.segment_size as u64;
        if roll && (n >= self.max_segments || next_base > u64::MAX - self.segment_size as u64) {
            return Err(StoreError::DiskFull);
        }
        let physical_offset: u64 = if roll {
            next_base
        } else {
            last_base + write as u64
        };
        let queue_id = message.queue_id;
        let queue_offset = self.next_queue_offset(queue_id);
        let bytes = encode_record(message, queue_offset, physical_offset);
        let ghost before = self@;
        if roll {
            self.segments[n - 1].seal();
            let mut fresh = MappedSegment::new(physical_offset, self.segment_size, self.transient);
            let _ = fresh.append(bytes.as_slice());
            self.segments.push(fresh);
            proof {
                lemma_next_base(n - 1, self.segment_size as int);
            }
        } else {
            let _ = self.segments[n - 1].append(bytes.as_slice());
        }
        self.queue_offsets.insert(queue_id, queue_offset + 1);
        proof {
            assert(self@.segments =~= before.append_message(message@).segments);
            assert(self@.queue_offsets =~= before.append_message(message@).queue_offsets);
        }
        Ok(AppendResult { physical_offset, queue_offset, wrote_bytes: size })
    }
}

} // verus!
