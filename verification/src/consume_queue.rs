//! The consume queue: for one queue, the row of fixed-width entries that say
//! where in the commit log its messages lie. The logical offset of a message
//! is the index of its entry.

use crate::codec::bits_i64;
use crate::codec::get_i64;
use crate::codec::get_u32;
use crate::codec::get_u64;
use crate::codec::i64_bits;
use crate::codec::lemma_i64_round_trip;
use crate::codec::lemma_u32_round_trip;
use crate::codec::lemma_u64_round_trip;
use crate::codec::put_i64;
use crate::codec::put_u32;
use crate::codec::put_u64;
use crate::codec::u32_bytes;
use crate::codec::u32_value;
use crate::codec::u64_bytes;
use crate::codec::u64_value;
use crate::error::StoreError;
use vstd::prelude::*;

verus! {

/// The width of an entry in storage.
pub const CQ_ENTRY_SIZE: usize = 20;

/// One entry of a consume queue.
#[derive(Clone, Copy, Debug, PartialEq, Eq, Structural)]
pub struct ConsumeQueueEntry {
    /// Where the message's record starts in the commit log.
    pub physical_offset: u64,
    /// The length of that record.
    pub size: u32,
    /// The hash of the message's tags, for filtering.
    pub tag_hash_code: i64,
}

/// What a dispatch did.
#[derive(Clone, Copy, Debug, PartialEq, Eq, Structural)]
pub enum DispatchOutcome {
    /// The entry was appended at this logical offset.
    Appended(u64),
    /// The queue already covers the record; nothing changed.
    Repeated,
}

/// The 20 bytes of an entry: physical offset, size, tag hash, big-endian.
pub open spec fn entry_bytes(entry: ConsumeQueueEntry) -> Seq<u8> {
    u64_bytes(entry.physical_offset) + u32_bytes(entry.size) + u64_bytes(
        i64_bits(entry.tag_hash_code),
    )
}

/// The entry that the 20 bytes at `pos` spell.
pub open spec fn entry_at(bytes: Seq<u8>, pos: int) -> ConsumeQueueEntry {
    ConsumeQueueEntry {
        physical_offset: u64_value(bytes.subrange(pos, pos + 8)),
        size: u32_value(bytes.subrange(pos + 8, pos + 12)),
        tag_hash_code: bits_i64(u64_value(bytes.subrange(pos + 12, pos + 20))),
    }
}

/// An entry that was written is read back as it was.
pub proof fn lemma_entry_round_trip(entry: ConsumeQueueEntry)
    ensures
        entry_bytes(entry).len() == CQ_ENTRY_SIZE,
        entry_at(entry_bytes(entry), 0) == entry,
{
    let b = entry_bytes(entry);
    lemma_u64_round_trip(entry.physical_offset);
    lemma_u32_round_trip(entry.size);
    lemma_u64_round_trip(i64_bits(entry.tag_hash_code));
    lemma_i64_round_trip(entry.tag_hash_code);
    assert(b.subrange(0, 8) =~= u64_bytes(entry.physical_offset));
    assert(b.subrange(8, 12) =~= u32_bytes(entry.size));
    assert(b.subrange(12, 20) =~= u64_bytes(i64_bits(entry.tag_hash_code)));
}

impl ConsumeQueueEntry {
    /// The offset just behind the record that the entry points to.
    pub open spec fn end(self) -> int {
        self.physical_offset + self.size
    }

    /// The entry as it lies in storage.
    pub fn encode(&self) -> (bytes: Vec<u8>)
        ensures
            bytes@ == entry_bytes(*self),
            bytes@.len() == CQ_ENTRY_SIZE,
    {
        let mut out: Vec<u8> = Vec::new();
        put_u64(&mut out, self.physical_offset);
        put_u32(&mut out, self.size);
        put_i64(&mut out, self.tag_hash_code);
        proof {
            lemma_entry_round_trip(*self);
        }
        out
    }

    /// The entry at `pos` of `data`, if 20 bytes lie there.
    pub fn decode(data: &[u8], pos: usize) -> (entry: Option<Self>)
        ensures
            entry is Some <==> pos + CQ_ENTRY_SIZE <= data@.len(),
            entry matches Some(e) ==> e == entry_at(data@, pos as int),
    {
        if data.len() < CQ_ENTRY_SIZE || pos > data.len() - CQ_ENTRY_SIZE {
            return None;
        }
        Some(
            ConsumeQueueEntry {
                physical_offset: get_u64(data, pos),
                size: get_u32(data, pos + 8),
                tag_hash_code: get_i64(data, pos + 12),
            },
        )
    }
}

/// The entries that a queue file holds: one for every 20 bytes; a rest of
/// fewer bytes is an entry that was not written out and counts for nothing.
pub open spec fn entries_in(bytes: Seq<u8>) -> Seq<ConsumeQueueEntry> {
    Seq::new((bytes.len() / 20) as nat, |i: int| entry_at(bytes, i * 20))
}

/// The bytes of a queue file that holds `entries`.
pub open spec fn file_bytes(entries: Seq<ConsumeQueueEntry>) -> Seq<u8>
    decreases entries.len(),
{
    if entries.len() == 0 {
        Seq::empty()
    } else {
        file_bytes(entries.drop_last()) + entry_bytes(entries.last())
    }
}

/// A queue file is 20 bytes for each entry.
pub proof fn lemma_file_length(entries: Seq<ConsumeQueueEntry>)
    ensures
        file_bytes(entries).len() == 20 * entries.len(),
    decreases entries.len(),
{
    if entries.len() > 0 {
        lemma_file_length(entries.drop_last());
        lemma_entry_round_trip(entries.last());
    }
}

/// The entries of a queue file are read back as they were written.
pub proof fn lemma_file_round_trip(entries: Seq<ConsumeQueueEntry>)
    ensures
        entries_in(file_bytes(entries)) == entries,
    decreases entries.len(),
{
    let bytes = file_bytes(entries);
    lemma_file_length(entries);
    if entries.len() > 0 {
        let head = entries.drop_last();
        let last = entries.last();
        let front = file_bytes(head);
        lemma_file_length(head);
        lemma_file_round_trip(head);
        lemma_entry_round_trip(last);
        assert forall|i: int| 0 <= i < entries.len() implies entries_in(bytes)[i] == entries[i] by {
            if i < head.len() {
                assert(bytes.subrange(i * 20, i * 20 + 8) =~= front.subrange(i * 20, i * 20 + 8));
                assert(bytes.subrange(i * 20 + 8, i * 20 + 12) =~= front.subrange(
                    i * 20 + 8,
                    i * 20 + 12,
                ));
                assert(bytes.subrange(i * 20 + 12, i * 20 + 20) =~= front.subrange(
                    i * 20 + 12,
                    i * 20 + 20,
                ));
                assert(entries_in(front)[i] == head[i]);
            } else {
                let at = i * 20;
                let one = entry_bytes(last);
                assert(bytes.subrange(at, at + 8) =~= one.subrange(0, 8));
                assert(bytes.subrange(at + 8, at + 12) =~= one.subrange(8, 12));
                assert(bytes.subrange(at + 12, at + 20) =~= one.subrange(12, 20));
            }
        }
        assert(entries_in(bytes) =~= entries);
    } else {
        assert(entries_in(bytes) =~= entries);
    }
}

/// Reads the entries that a queue file holds.
pub fn read_entries(data: &[u8]) -> (entries: Vec<ConsumeQueueEntry>)
    ensures
        entries@ == entries_in(data@),
{
    let total = data.len();
    let count = total / CQ_ENTRY_SIZE;
    let mut entries: Vec<ConsumeQueueEntry> = Vec::new();
    let mut i: usize = 0;
    while i < count
        invariant
            i <= count,
            total == data@.len(),
            count == data@.len() / 20,
            entries@.len() == i,
            forall|j: int| 0 <= j < i ==> entries@[j] == entry_at(data@, j * 20),
        decreases count - i,
    {
        assert(i * 20 + 20 <= data@.len());
        match ConsumeQueueEntry::decode(data, i * CQ_ENTRY_SIZE) {
            Some(entry) => {
                entries.push(entry);
            },
            None => {
                // A whole entry lies at every multiple of 20 below `count`.
                assert(false);
            },
        }
        i += 1;
    }
    assert(entries@ =~= entries_in(data@));
    entries
}

/// How many of the entries from `i` on, in a row, lie below `min_physical`.
pub open spec fn leading_below(entries: Seq<ConsumeQueueEntry>, min_physical: int, i: int) -> int
    decreases entries.len() - i,
{
    if 0 <= i < entries.len() && entries[i].physical_offset < min_physical {
        1 + leading_below(entries, min_physical, i + 1)
    } else {
        0
    }
}

/// How many of the entries up to `i`, counted back in a row from the last,
/// end above `physical`.
pub open spec fn trailing_above(entries: Seq<ConsumeQueueEntry>, physical: int, i: int) -> int
    decreases i,
{
    if 0 < i <= entries.len() && entries[i - 1].end() > physical {
        1 + trailing_above(entries, physical, i - 1)
    } else {
        0
    }
}

/// A consume queue as a value.
pub struct QueueView {
    pub queue_id: u32,
    /// The logical offset of the first entry that the queue still holds.
    pub first: nat,
    /// The entries, in the order of their logical offsets.
    pub entries: Seq<ConsumeQueueEntry>,
    /// The smallest logical offset that the queue reports.
    pub min_offset: nat,
    /// The offset in the commit log up to which records were dispatched.
    pub max_physical: nat,
}

impl QueueView {
    /// A queue without entries that starts at logical offset 0.
    pub open spec fn empty(queue_id: u32) -> QueueView {
        QueueView { queue_id, first: 0, entries: Seq::empty(), min_offset: 0, max_physical: 0 }
    }

    /// The logical offset that the next entry gets.
    pub open spec fn max_offset(self) -> nat {
        self.first + self.entries.len()
    }

    /// Every entry points to at least one byte, at or above its own logical
    /// offset; the entries lie in the order of the records they point to,
    /// without overlap, and end at or below what was dispatched; the queue
    /// has handed out no more logical offsets than bytes were dispatched; the
    /// reported minimum is a logical offset of the queue or its end.
    pub open spec fn wf(self) -> bool {
        &&& self.max_physical <= u64::MAX
        &&& forall|i: int|
            0 <= i < self.entries.len() ==> (#[trigger] self.entries[i]).size >= 1
                && self.entries[i].end() <= self.max_physical && self.first + i
                <= self.entries[i].physical_offset
        &&& forall|i: int, j: int|
            0 <= i < j < self.entries.len() ==> (#[trigger] self.entries[i]).end() <= (
            #[trigger] self.entries[j]).physical_offset
        &&& self.entries.len() > 0 ==> self.entries.last().end() == self.max_physical
        &&& self.first + self.entries.len() <= self.max_physical
        &&& self.first <= self.min_offset <= self.first + self.entries.len()
    }

    /// Whether an entry can be dispatched at all: it points to at least one
    /// byte, ends inside the offset space, and does not cut into what was
    /// dispatched already.
    pub open spec fn accepts(self, physical_offset: u64, size: u32) -> bool {
        &&& size >= 1
        &&& physical_offset + size <= u64::MAX
        &&& (physical_offset + size <= self.max_physical || physical_offset >= self.max_physical)
    }

    /// Whether the queue already covers the record.
    pub open spec fn covers(self, physical_offset: u64, size: u32) -> bool {
        physical_offset + size <= self.max_physical
    }

    /// The queue after a dispatch: with the entry at its end, or, if the
    /// entry is not accepted or the record is covered already, as it was.
    pub open spec fn dispatch(self, entry: ConsumeQueueEntry) -> QueueView {
        if self.accepts(entry.physical_offset, entry.size) && !self.covers(
            entry.physical_offset,
            entry.size,
        ) {
            QueueView {
                entries: self.entries.push(entry),
                max_physical: entry.end() as nat,
                ..self
            }
        } else {
            self
        }
    }

    /// The queue after the entries that point below `min_physical` were
    /// dropped from its front.
    pub open spec fn delete_expired(self, min_physical: nat) -> QueueView {
        let d = leading_below(self.entries, min_physical as int, 0);
        let first = self.first + d;
        QueueView {
            first: first as nat,
            entries: self.entries.subrange(d, self.entries.len() as int),
            min_offset: if self.min_offset < first {
                first as nat
            } else {
                self.min_offset
            },
            ..self
        }
    }

    /// The queue with its reported minimum set to the first entry that
    /// points at or above `min_physical`.
    pub open spec fn correct_min_offset(self, min_physical: nat) -> QueueView {
        QueueView {
            min_offset: (self.first + leading_below(self.entries, min_physical as int, 0)) as nat,
            ..self
        }
    }

    /// The queue after the entries that end above `physical` were dropped
    /// from its end.
    pub open spec fn truncate(self, physical: nat) -> QueueView {
        let d = trailing_above(self.entries, physical as int, self.entries.len() as int);
        let kept = self.entries.subrange(0, self.entries.len() - d);
        let end = self.first + kept.len();
        QueueView {
            entries: kept,
            min_offset: if self.min_offset > end {
                end as nat
            } else {
                self.min_offset
            },
            max_physical: if kept.len() > 0 {
                kept.last().end() as nat
            } else if self.max_physical <= physical {
                self.max_physical
            } else if self.first <= physical {
                physical
            } else {
                self.first
            },
            ..self
        }
    }
}

/// Counting stops inside the entries.
pub proof fn lemma_leading_bounds(entries: Seq<ConsumeQueueEntry>, min_physical: int, i: int)
    requires
        0 <= i <= entries.len(),
    ensures
        0 <= leading_below(entries, min_physical, i) <= entries.len() - i,
    decreases entries.len() - i,
{
    if i < entries.len() && entries[i].physical_offset < min_physical {
        lemma_leading_bounds(entries, min_physical, i + 1);
    }
}

/// Counting stops inside the entries.
pub proof fn lemma_trailing_bounds(entries: Seq<ConsumeQueueEntry>, physical: int, i: int)
    requires
        0 <= i <= entries.len(),
    ensures
        0 <= trailing_above(entries, physical, i) <= i,
    decreases i,
{
    if 0 < i && entries[i - 1].end() > physical {
        lemma_trailing_bounds(entries, physical, i - 1);
    }
}

/// Dispatch is idempotent: dispatching an entry a second time changes
/// nothing, and it keeps the queue well-formed.
pub proof fn lemma_dispatch_idempotent(queue: QueueView, entry: ConsumeQueueEntry)
    requires
        queue.wf(),
    ensures
        queue.dispatch(entry).wf(),
        queue.dispatch(entry).dispatch(entry) == queue.dispatch(entry),
{
    let after = queue.dispatch(entry);
    if queue.accepts(entry.physical_offset, entry.size) && !queue.covers(
        entry.physical_offset,
        entry.size,
    ) {
        assert forall|i: int, j: int| 0 <= i < j < after.entries.len() implies (
        #[trigger] after.entries[i]).end() <= (#[trigger] after.entries[j]).physical_offset by {
            if j == queue.entries.len() {
                assert(queue.entries[i].end() <= queue.max_physical);
            } else {
                assert(queue.entries[i].end() <= queue.entries[j].physical_offset);
            }
        }
        assert(after.covers(entry.physical_offset, entry.size));
    }
}

/// The consume queue of one queue.
#[derive(Debug)]
pub struct ConsumeQueue {
    queue_id: u32,
    first: u64,
    entries: Vec<ConsumeQueueEntry>,
    min_offset: u64,
    max_physical: u64,
}

impl View for ConsumeQueue {
    type V = QueueView;

    closed spec fn view(&self) -> QueueView {
        QueueView {
            queue_id: self.queue_id,
            first: self.first as nat,
            entries: self.entries@,
            min_offset: self.min_offset as nat,
            max_physical: self.max_physical as nat,
        }
    }
}

impl ConsumeQueue {
    /// Whether the queue is in a state that its operations keep.
    pub open spec fn wf(&self) -> bool {
        self@.wf()
    }

    /// A queue without entries that starts at logical offset 0.
    pub fn new(queue_id: u32) -> (queue: Self)
        ensures
            queue.wf(),
            queue@ == QueueView::empty(queue_id),
    {
        ConsumeQueue { queue_id, first: 0, entries: Vec::new(), min_offset: 0, max_physical: 0 }
    }

    /// A queue without entries whose next entry gets logical offset `first`
    /// and points at or above `physical`. There is none if `first` is larger
    /// than `physical`: a queue cannot hold more messages than the log holds
    /// bytes.
    pub fn starting_at(queue_id: u32, first: u64, physical: u64) -> (queue: Option<Self>)
        ensures
            queue is Some <==> first <= physical,
            queue matches Some(q) ==> q.wf() && q@ == (QueueView {
                queue_id,
                first: first as nat,
                entries: Seq::empty(),
                min_offset: first as nat,
                max_physical: physical as nat,
            }),
    {
        if first > physical {
            return None;
        }
        Some(
            ConsumeQueue {
                queue_id,
                first,
                entries: Vec::new(),
                min_offset: first,
                max_physical: physical,
            },
        )
    }

    pub fn queue_id(&self) -> (id: u32)
        ensures
            id == self@.queue_id,
    {
        self.queue_id
    }

    /// The smallest logical offset that the queue reports.
    pub fn min_offset(&self) -> (offset: u64)
        ensures
            offset == self@.min_offset,
    {
        self.min_offset
    }

    /// The logical offset that the next entry gets.
    pub fn max_offset(&self) -> (offset: u64)
        requires
            self.wf(),
        ensures
            offset == self@.max_offset(),
    {
        self.first + self.entries.len() as u64
    }

    /// The offset in the commit log up to which records were dispatched.
    pub fn max_physical_offset(&self) -> (offset: u64)
        ensures
            offset == self@.max_physical,
    {
        self.max_physical
    }

    /// How many entries the queue holds.
    pub fn entry_count(&self) -> (count: usize)
        ensures
            count == self@.entries.len(),
    {
        self.entries.len()
    }

    /// The logical offset of the first entry that the queue holds.
    pub fn first_offset(&self) -> (offset: u64)
        ensures
            offset == self@.first,
    {
        self.first
    }

    /// The queue's entries as they are kept in the queue's file.
    pub fn to_bytes(&self) -> (bytes: Vec<u8>)
        ensures
            bytes@ == file_bytes(self@.entries),
    {
        let n = self.entries.len();
        let mut out: Vec<u8> = Vec::new();
        let mut i: usize = 0;
        while i < n
            invariant
                i <= n,
                n == self.entries@.len(),
                out@ == file_bytes(self.entries@.subrange(0, i as int)),
            decreases n - i,
        {
            let entry = self.entries[i];
            put_u64(&mut out, entry.physical_offset);
            put_u32(&mut out, entry.size);
            put_i64(&mut out, entry.tag_hash_code);
            proof {
                let next = self.entries@.subrange(0, i + 1);
                assert(next.drop_last() =~= self.entries@.subrange(0, i as int));
                assert(next.last() == entry);
                assert(out@ =~= file_bytes(next.drop_last()) + entry_bytes(entry));
            }
            i += 1;
        }
        assert(self.entries@.subrange(0, n as int) =~= self.entries@);
        out
    }

    /// Appends the entry for the record of `size` bytes at `physical_offset`.
    /// A record that the queue covers already is left out, so a dispatch may
    /// be repeated. Fails with `OffsetOutOfRange`, changing nothing, exactly
    /// if the queue does not accept the entry.
    pub fn dispatch(&mut self, physical_offset: u64, size: u32, tag_hash_code: i64) -> (result:
        Result<DispatchOutcome, StoreError>)
        requires
            old(self).wf(),
        ensures
            final(self).wf(),
            final(self)@ == old(self)@.dispatch(
                ConsumeQueueEntry { physical_offset, size, tag_hash_code },
            ),
            !old(self)@.accepts(physical_offset, size) ==> result == Err::<
                DispatchOutcome,
                StoreError,
            >(StoreError::OffsetOutOfRange),
            old(self)@.accepts(physical_offset, size) && old(self)@.covers(physical_offset, size)
                ==> result == Ok::<DispatchOutcome, StoreError>(DispatchOutcome::Repeated),
            old(self)@.accepts(physical_offset, size) && !old(self)@.covers(physical_offset, size)
                ==> result == Ok::<DispatchOutcome, StoreError>(
                DispatchOutcome::Appended(old(self)@.max_offset() as u64),
            ),
    {
        let entry = ConsumeQueueEntry { physical_offset, size, tag_hash_code };
        proof {
            lemma_dispatch_idempotent(self@, entry);
        }
        if size == 0 || physical_offset > u64::MAX - size as u64 {
            return Err(StoreError::OffsetOutOfRange);
        }
        let end = physical_offset + size as u64;
        if end <= self.max_physical {
            return Ok(DispatchOutcome::Repeated);
        }
        if physical_offset < self.max_physical {
            return Err(StoreError::OffsetOutOfRange);
        }
        let logical = self.first + self.entries.len() as u64;
        self.entries.push(entry);
        self.max_physical = end;
        Ok(DispatchOutcome::Appended(logical))
    }

    /// The entry at logical offset `logical`. Fails with `OffsetOutOfRange`
    /// exactly if that offset lies below the reported minimum or at or above
    /// the end.
    pub fn get_entry(&self, logical: u64) -> (result: Result<ConsumeQueueEntry, StoreError>)
        requires
            self.wf(),
        ensures
            self@.min_offset <= logical < self@.max_offset() ==> result == Ok::<
                ConsumeQueueEntry,
                StoreError,
            >(self@.entries[logical - self@.first]),
            !(self@.min_offset <= logical < self@.max_offset()) ==> result == Err::<
                ConsumeQueueEntry,
                StoreError,
            >(StoreError::OffsetOutOfRange),
    {
        if logical < self.min_offset || logical - self.first >= self.entries.len() as u64 {
            return Err(StoreError::OffsetOutOfRange);
        }
        Ok(self.entries[(logical - self.first) as usize])
    }

    /// Drops from the front the entries that point below `min_physical`.
    /// Returns how many were dropped.
    pub fn delete_expired(&mut self, min_physical: u64) -> (dropped: usize)
        requires
            old(self).wf(),
        ensures
            final(self).wf(),
            final(self)@ == old(self)@.delete_expired(min_physical as nat),
            dropped == old(self)@.entries.len() - final(self)@.entries.len(),
    {
        let d = self.count_leading(min_physical);
        let n = self.entries.len();
        let mut kept: Vec<ConsumeQueueEntry> = Vec::new();
        let mut i: usize = d;
        while i < n
            invariant
                d <= i <= n,
                n == self.entries@.len(),
                kept@ == self.entries@.subrange(d as int, i as int),
            decreases n - i,
        {
            kept.push(self.entries[i]);
            i += 1;
            assert(kept@ =~= self.entries@.subrange(d as int, i as int));
        }
        let ghost before = self@;
        self.entries = kept;
        self.first = self.first + d as u64;
        if self.min_offset < self.first {
            self.min_offset = self.first;
        }
        proof {
            let after = before.delete_expired(min_physical as nat);
            assert(self@.entries =~= after.entries);
            assert forall|i: int| 0 <= i < self@.entries.len() implies (
            #[trigger] self@.entries[i]).size >= 1 && self@.entries[i].end()
                <= self@.max_physical && self@.first + i
                <= self@.entries[i].physical_offset by {
                assert(self@.entries[i] == before.entries[i + d]);
            }
            assert forall|i: int, j: int| 0 <= i < j < self@.entries.len() implies (
            #[trigger] self@.entries[i]).end() <= (
            #[trigger] self@.entries[j]).physical_offset by {
                assert(self@.entries[i] == before.entries[i + d]);
                assert(self@.entries[j] == before.entries[j + d]);
            }
        }
        d
    }

    /// Sets the reported minimum to the first entry that points at or above
    /// `min_physical`, and returns it.
    pub fn correct_min_offset(&mut self, min_physical: u64) -> (offset: u64)
        requires
            old(self).wf(),
        ensures
            final(self).wf(),
            final(self)@ == old(self)@.correct_min_offset(min_physical as nat),
            offset == final(self)@.min_offset,
    {
        let d = self.count_leading(min_physical);
        self.min_offset = self.first + d as u64;
        self.min_offset
    }

    /// Drops from the end the entries that end above `physical`. Returns how
    /// many were dropped.
    pub fn truncate(&mut self, physical: u64) -> (dropped: usize)
        requires
            old(self).wf(),
        ensures
            final(self).wf(),
            final(self)@ == old(self)@.truncate(physical as nat),
            dropped == old(self)@.entries.len() - final(self)@.entries.len(),
    {
        let n = self.entries.len();
        let mut keep: usize = n;
        while keep > 0 && self.entries[keep - 1].physical_offset as u128
            + self.entries[keep - 1].size as u128 > physical as u128
            invariant
                keep <= n,
                n == self.entries@.len(),
                self.entries@ == old(self).entries@,
                trailing_above(self.entries@, physical as int, n as int) == (n - keep)
                    + trailing_above(self.entries@, physical as int, keep as int),
            decreases keep,
        {
            keep = keep - 1;
        }
        let ghost before = self@;
        self.entries.truncate(keep);
        let end = self.first + keep as u64;
        if self.min_offset > end {
            self.min_offset = end;
        }
        if keep > 0 {
            let last = self.entries[keep - 1];
            self.max_physical = last.physical_offset + last.size as u64;
        } else if self.max_physical > physical {
            if self.first <= physical {
                self.max_physical = physical;
            } else {
                self.max_physical = self.first;
            }
        }
        proof {
            let after = before.truncate(physical as nat);
            assert(self@.entries =~= after.entries);
            assert forall|i: int| 0 <= i < self@.entries.len() implies (
            #[trigger] self@.entries[i]).size >= 1 && self@.entries[i].end()
                <= self@.max_physical && self@.first + i
                <= self@.entries[i].physical_offset by {
                assert(self@.entries[i] == before.entries[i]);
                if i < keep - 1 {
                    assert(before.entries[i].end() <= before.entries[keep - 1].physical_offset);
                }
            }
            assert forall|i: int, j: int| 0 <= i < j < self@.entries.len() implies (
            #[trigger] self@.entries[i]).end() <= (
            #[trigger] self@.entries[j]).physical_offset by {
                assert(self@.entries[i] == before.entries[i]);
                assert(self@.entries[j] == before.entries[j]);
            }
        }
        n - keep
    }

    fn count_leading(&self, min_physical: u64) -> (d: usize)
        requires
            self.wf(),
        ensures
            d == leading_below(self@.entries, min_physical as int, 0),
            d <= self@.entries.len(),
    {
        let n = self.entries.len();
        let mut d: usize = 0;
        while d < n && self.entries[d].physical_offset < min_physical
            invariant
                d <= n,
                n == self.entries@.len(),
                leading_below(self@.entries, min_physical as int, 0) == d + leading_below(
                    self@.entries,
                    min_physical as int,
                    d as int,
                ),
            decreases n - d,
        {
            d += 1;
        }
        d
    }
}

} // verus!
