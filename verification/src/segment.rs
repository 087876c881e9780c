//! The mapped segment: a byte region of fixed size that is only ever
//! appended to, with the three positions that say how far it was written,
//! committed and flushed.

use crate::error::StoreError;
use vstd::prelude::*;
use vstd::slice::slice_subrange;

verus! {

/// The size of a page, the unit in which dirty bytes are counted.
pub const OS_PAGE_SIZE: usize = 4096;

/// `image` with `bytes` written over it from `pos` on.
pub open spec fn overwrite(image: Seq<u8>, pos: int, bytes: Seq<u8>) -> Seq<u8> {
    Seq::new(
        image.len(),
        |i: int|
            if pos <= i < pos + bytes.len() {
                bytes[i - pos]
            } else {
                image[i]
            },
    )
}

/// `image` up to `keep`, and zeros from there on.
pub open spec fn zero_from(image: Seq<u8>, keep: int) -> Seq<u8> {
    Seq::new(
        image.len(),
        |i: int|
            if i < keep {
                image[i]
            } else {
                0u8
            },
    )
}

/// The number of pages that begin between two positions.
pub open spec fn pages_between(from: nat, to: nat) -> int {
    to as int / OS_PAGE_SIZE as int - from as int / OS_PAGE_SIZE as int
}

/// Whether moving a position from `from` up to `to` is worth it: always for a
/// full segment; with a threshold, when that many pages lie between; without
/// one, when anything lies between.
pub open spec fn worth_moving(full: bool, from: nat, to: nat, least_pages: nat) -> bool {
    if full {
        true
    } else if least_pages > 0 {
        pages_between(from, to) >= least_pages
    } else {
        to > from
    }
}

/// A segment as a value.
pub struct SegmentView {
    /// The physical offset of the segment's first byte.
    pub base_offset: nat,
    /// All bytes of the region, written or not.
    pub image: Seq<u8>,
    /// How many bytes were appended.
    pub write_position: nat,
    /// How many bytes have reached the mapped region.
    pub committed_position: nat,
    /// How many bytes are durable.
    pub flushed_position: nat,
    /// Whether appends land in a transient buffer first.
    pub transient: bool,
    /// How many reads of the segment are under way.
    pub readers: nat,
}

impl SegmentView {
    /// A segment read back from storage, of which `valid` bytes stand.
    pub open spec fn restored(image: Seq<u8>, base_offset: nat, valid: nat, transient: bool) -> SegmentView {
        SegmentView {
            base_offset,
            image: zero_from(image, valid as int),
            write_position: valid,
            committed_position: valid,
            flushed_position: valid,
            transient,
            readers: 0,
        }
    }

    /// A segment of `size` zero bytes at `base_offset`, with nothing written.
    pub open spec fn empty(base_offset: nat, size: nat, transient: bool) -> SegmentView {
        SegmentView {
            base_offset,
            image: crate::codec::zeros(size),
            write_position: 0,
            committed_position: 0,
            flushed_position: 0,
            transient,
            readers: 0,
        }
    }

    /// The segment with one more read under way.
    pub open spec fn hold(self) -> SegmentView {
        SegmentView { readers: self.readers + 1, ..self }
    }

    /// The segment with one read fewer under way.
    pub open spec fn release(self) -> SegmentView {
        SegmentView {
            readers: if self.readers > 0 {
                (self.readers - 1) as nat
            } else {
                0
            },
            ..self
        }
    }

    /// The positions are ordered, the region ends inside the offset space,
    /// nothing but zeros lies beyond the write position, and without a
    /// transient buffer every written byte is committed.
    pub open spec fn wf(self) -> bool {
        &&& self.flushed_position <= self.committed_position <= self.write_position
            <= self.image.len()
        &&& self.base_offset + self.image.len() <= u64::MAX
        &&& forall|i: int| self.write_position <= i < self.image.len() ==> self.image[i] == 0u8
        &&& !self.transient ==> self.committed_position == self.write_position
    }

    pub open spec fn capacity(self) -> nat {
        self.image.len()
    }

    pub open spec fn is_full(self) -> bool {
        self.write_position == self.image.len()
    }

    /// The bytes that were appended.
    pub open spec fn written(self) -> Seq<u8> {
        self.image.subrange(0, self.write_position as int)
    }

    /// The segment after `bytes` were appended.
    pub open spec fn append(self, bytes: Seq<u8>) -> SegmentView {
        let end = self.write_position + bytes.len();
        SegmentView {
            image: overwrite(self.image, self.write_position as int, bytes),
            write_position: end,
            committed_position: if self.transient {
                self.committed_position
            } else {
                end
            },
            ..self
        }
    }

    /// The segment after its remainder was given up to padding.
    pub open spec fn seal(self) -> SegmentView {
        SegmentView {
            write_position: self.image.len(),
            committed_position: if self.transient {
                self.committed_position
            } else {
                self.image.len()
            },
            ..self
        }
    }

    pub open spec fn able_to_commit(self, least_pages: nat) -> bool {
        self.transient && worth_moving(
            self.is_full(),
            self.committed_position,
            self.write_position,
            least_pages,
        )
    }

    pub open spec fn commit(self, least_pages: nat) -> SegmentView {
        if self.able_to_commit(least_pages) {
            SegmentView { committed_position: self.write_position, ..self }
        } else {
            self
        }
    }

    pub open spec fn able_to_flush(self, least_pages: nat) -> bool {
        worth_moving(self.is_full(), self.flushed_position, self.committed_position, least_pages)
    }

    pub open spec fn flush(self, least_pages: nat) -> SegmentView {
        if self.able_to_flush(least_pages) {
            SegmentView { flushed_position: self.committed_position, ..self }
        } else {
            self
        }
    }
}

/// A fixed-size region of the log.
#[derive(Debug)]
pub struct MappedSegment {
    base_offset: u64,
    data: Vec<u8>,
    write_position: usize,
    committed_position: usize,
    flushed_position: usize,
    transient: bool,
    readers: usize,
}

impl View for MappedSegment {
    type V = SegmentView;

    closed spec fn view(&self) -> SegmentView {
        SegmentView {
            base_offset: self.base_offset as nat,
            image: self.data@,
            write_position: self.write_position as nat,
            committed_position: self.committed_position as nat,
            flushed_position: self.flushed_position as nat,
            transient: self.transient,
            readers: self.readers as nat,
        }
    }
}

fn worth(full: bool, from: usize, to: usize, least_pages: usize) -> (yes: bool)
    ensures
        yes == worth_moving(full, from as nat, to as nat, least_pages as nat),
{
    if full {
        true
    } else if least_pages > 0 {
        let a = to / OS_PAGE_SIZE;
        let b = from / OS_PAGE_SIZE;
        a >= b && a - b >= least_pages
    } else {
        to > from
    }
}

impl MappedSegment {
    /// Whether the segment is in a state that its operations keep.
    pub open spec fn wf(&self) -> bool {
        self@.wf()
    }

    /// An empty segment of `segment_size` zero bytes at `base_offset`.
    pub fn new(base_offset: u64, segment_size: usize, transient: bool) -> (segment: Self)
        requires
            base_offset + segment_size <= u64::MAX,
        ensures
            segment.wf(),
            segment@ == SegmentView::empty(base_offset as nat, segment_size as nat, transient),
    {
        let mut data: Vec<u8> = Vec::new();
        let mut i: usize = 0;
        while i < segment_size
            invariant
                i <= segment_size,
                data@.len() == i,
                forall|j: int| 0 <= j < i ==> data@[j] == 0u8,
            decreases segment_size - i,
        {
            data.push(0u8);
            i += 1;
        }
        assert(data@ =~= crate::codec::zeros(segment_size as nat));
        MappedSegment {
            base_offset,
            data,
            write_position: 0,
            committed_position: 0,
            flushed_position: 0,
            transient,
            readers: 0,
        }
    }

    /// A segment read back from storage: the first `valid` bytes of `data`
    /// stand and count as durable, and zeros follow them.
    pub fn restore(base_offset: u64, data: &[u8], valid: usize, transient: bool) -> (segment: Self)
        requires
            base_offset + data.len() <= u64::MAX,
            valid <= data.len(),
        ensures
            segment.wf(),
            segment@ == SegmentView::restored(data@, base_offset as nat, valid as nat, transient),
    {
        let n = data.len();
        let mut copy: Vec<u8> = Vec::new();
        let mut i: usize = 0;
        while i < n
            invariant
                i <= n,
                n == data@.len(),
                valid <= n,
                copy@.len() == i,
                forall|j: int| 0 <= j < i ==> copy@[j] == zero_from(data@, valid as int)[j],
            decreases n - i,
        {
            if i < valid {
                copy.push(data[i]);
            } else {
                copy.push(0u8);
            }
            i += 1;
        }
        assert(copy@ =~= zero_from(data@, valid as int));
        MappedSegment {
            base_offset,
            data: copy,
            write_position: valid,
            committed_position: valid,
            flushed_position: valid,
            transient,
            readers: 0,
        }
    }

    /// How many reads of the segment are under way.
    pub fn readers(&self) -> (count: usize)
        ensures
            count == self@.readers,
    {
        self.readers
    }

    /// Takes note of a read that begins; as long as it is under way the
    /// segment must not be given up. Refuses only if the count of reads
    /// cannot go up any more.
    pub fn hold(&mut self) -> (held: bool)
        ensures
            held == (old(self)@.readers < usize::MAX),
            held ==> final(self)@ == old(self)@.hold(),
            !held ==> final(self)@ == old(self)@,
    {
        if self.readers < usize::MAX {
            self.readers = self.readers + 1;
            true
        } else {
            false
        }
    }

    /// Takes note of a read that has ended.
    pub fn release(&mut self)
        ensures
            final(self)@ == old(self)@.release(),
    {
        if self.readers > 0 {
            self.readers = self.readers - 1;
        }
    }

    pub fn base_offset(&self) -> (offset: u64)
        ensures
            offset == self@.base_offset,
    {
        self.base_offset
    }

    pub fn capacity(&self) -> (size: usize)
        ensures
            size == self@.image.len(),
    {
        self.data.len()
    }

    pub fn write_position(&self) -> (position: usize)
        ensures
            position == self@.write_position,
    {
        self.write_position
    }

    pub fn committed_position(&self) -> (position: usize)
        ensures
            position == self@.committed_position,
    {
        self.committed_position
    }

    pub fn flushed_position(&self) -> (position: usize)
        ensures
            position == self@.flushed_position,
    {
        self.flushed_position
    }

    pub fn is_transient(&self) -> (transient: bool)
        ensures
            transient == self@.transient,
    {
        self.transient
    }

    /// How many bytes can still be appended.
    pub fn remaining(&self) -> (room: usize)
        requires
            self.wf(),
        ensures
            room == self@.image.len() - self@.write_position,
    {
        self.data.len() - self.write_position
    }

    pub fn is_full(&self) -> (full: bool)
        ensures
            full == self@.is_full(),
    {
        self.write_position == self.data.len()
    }

    /// The whole region, written or not.
    pub fn image(&self) -> (bytes: &[u8])
        ensures
            bytes@ == self@.image,
    {
        self.data.as_slice()
    }

    /// Appends `bytes` and returns the position at which they start. Fails
    /// with `SegmentFull`, changing nothing, exactly if they do not fit in
    /// what remains.
    pub fn append(&mut self, bytes: &[u8]) -> (result: Result<usize, StoreError>)
        requires
            old(self).wf(),
        ensures
            final(self).wf(),
            bytes@.len() <= old(self)@.image.len() - old(self)@.write_position ==> result == Ok::<
                usize,
                StoreError,
            >(old(self)@.write_position as usize) && final(self)@ == old(self)@.append(bytes@),
            bytes@.len() > old(self)@.image.len() - old(self)@.write_position ==> result == Err::<
                usize,
                StoreError,
            >(StoreError::SegmentFull) && final(self)@ == old(self)@,
    {
        let n = bytes.len();
        let start = self.write_position;
        if n > self.data.len() - start {
            return Err(StoreError::SegmentFull);
        }
        let mut i: usize = 0;
        while i < n
            invariant
                i <= n,
                n == bytes@.len(),
                start + n <= self.data@.len(),
                start + n <= usize::MAX,
                self.data@.len() == old(self).data@.len(),
                start == old(self).write_position,
                self.write_position == old(self).write_position,
                self.committed_position == old(self).committed_position,
                self.flushed_position == old(self).flushed_position,
                self.base_offset == old(self).base_offset,
                self.transient == old(self).transient,
                self.readers == old(self).readers,
                self.data@ == overwrite(
                    old(self).data@,
                    start as int,
                    bytes@.subrange(0, i as int),
                ),
            decreases n - i,
        {
            self.data.set(start + i, bytes[i]);
            i += 1;
            assert(self.data@ =~= overwrite(
                old(self).data@,
                start as int,
                bytes@.subrange(0, i as int),
            ));
        }
        assert(bytes@.subrange(0, n as int) =~= bytes@);
        self.write_position = start + n;
        if !self.transient {
            self.committed_position = start + n;
        }
        Ok(start)
    }

    /// Gives the remainder of the segment up to padding: the write position
    /// moves to the end, over bytes that are zero.
    pub fn seal(&mut self)
        requires
            old(self).wf(),
        ensures
            final(self).wf(),
            final(self)@ == old(self)@.seal(),
    {
        self.write_position = self.data.len();
        if !self.transient {
            self.committed_position = self.data.len();
        }
    }

    pub fn is_able_to_commit(&self, least_pages: usize) -> (able: bool)
        ensures
            able == self@.able_to_commit(least_pages as nat),
    {
        self.transient && worth(
            self.write_position == self.data.len(),
            self.committed_position,
            self.write_position,
            least_pages,
        )
    }

    /// Moves what the transient buffer holds into the mapped region, unless
    /// fewer than `least_pages` pages wait there. Returns the committed
    /// position.
    pub fn commit(&mut self, least_pages: usize) -> (position: usize)
        requires
            old(self).wf(),
        ensures
            final(self).wf(),
            final(self)@ == old(self)@.commit(least_pages as nat),
            position == final(self)@.committed_position,
    {
        if self.is_able_to_commit(least_pages) {
            self.committed_position = self.write_position;
        }
        self.committed_position
    }

    pub fn is_able_to_flush(&self, least_pages: usize) -> (able: bool)
        ensures
            able == self@.able_to_flush(least_pages as nat),
    {
        worth(
            self.write_position == self.data.len(),
            self.flushed_position,
            self.committed_position,
            least_pages,
        )
    }

    /// Makes the committed bytes durable, unless fewer than `least_pages`
    /// dirty pages exist. Returns the flushed position.
    pub fn flush(&mut self, least_pages: usize) -> (position: usize)
        requires
            old(self).wf(),
        ensures
            final(self).wf(),
            final(self)@ == old(self)@.flush(least_pages as nat),
            position == final(self)@.flushed_position,
    {
        if self.is_able_to_flush(least_pages) {
            self.flushed_position = self.committed_position;
        }
        self.flushed_position
    }

    /// The `length` bytes at `position`. Fails with `OutOfRange` exactly if
    /// they are not all below the write position.
    pub fn read(&self, position: usize, length: usize) -> (result: Result<&[u8], StoreError>)
        requires
            self.wf(),
        ensures
            position + length <= self@.write_position ==> result is Ok && result->Ok_0@
                == self@.image.subrange(position as int, position + length),
            position + length > self@.write_position ==> result == Err::<&[u8], StoreError>(
                StoreError::OutOfRange,
            ),
    {
        if position > self.write_position || length > self.write_position - position {
            return Err(StoreError::OutOfRange);
        }
        Ok(slice_subrange(self.data.as_slice(), position, position + length))
    }
}

} // verus!
