//! The failures that the store reports, and the classes they fall into.

use vstd::prelude::*;

verus! {

/// A failure of a store operation.
#[derive(Clone, Copy, Debug, PartialEq, Eq, Structural)]
pub enum StoreError {
    /// The segment has too little room left for the bytes.
    SegmentFull,
    /// A new segment is needed and none can be allocated.
    DiskFull,
    /// The message is larger than the store accepts.
    MessageIllegal,
    /// An earlier write has held the append point for longer than allowed.
    PageCacheBusy,
    /// A position inside a segment lies beyond what was written.
    OutOfRange,
    /// An offset lies outside the bounds of the log or of a queue.
    OffsetOutOfRange,
    /// The bytes were not flushed before the deadline.
    FlushTimeout,
    /// Too few replicas acknowledged the bytes before the deadline.
    ReplicationTimeout,
    /// Stored or received bytes are not what they must be.
    Corrupted,
    /// The replication session is gone.
    Disconnected,
}

/// The class of a failure, which decides how it is handled.
#[derive(Clone, Copy, Debug, PartialEq, Eq, Structural)]
pub enum ErrorKind {
    /// No room: answered by rollover or backpressure, never by losing data.
    Capacity,
    /// Broken bytes: answered by truncation during recovery.
    Integrity,
    /// Durability not observed in time: the append itself stands.
    Timeout,
    /// A caller's offset or size is outside the valid bounds.
    Range,
    /// A replication peer is gone: answered by a new handshake.
    Connectivity,
}

/// What the caller of an append sees.
#[derive(Clone, Copy, Debug, PartialEq, Eq, Structural)]
pub enum AppendStatus {
    Success,
    Timeout,
    Rejected,
}

/// What the caller of an append sees of its result: success, or what the
/// failure's class says.
pub fn append_status<T>(result: &Result<T, StoreError>) -> (status: AppendStatus)
    ensures
        result is Ok ==> status == AppendStatus::Success,
        result matches Err(e) ==> status == e.spec_status(),
{
    match result {
        Ok(_) => AppendStatus::Success,
        Err(e) => e.status(),
    }
}

impl StoreError {
    pub open spec fn spec_kind(self) -> ErrorKind {
        match self {
            StoreError::SegmentFull => ErrorKind::Capacity,
            StoreError::DiskFull => ErrorKind::Capacity,
            StoreError::PageCacheBusy => ErrorKind::Capacity,
            StoreError::MessageIllegal => ErrorKind::Range,
            StoreError::OutOfRange => ErrorKind::Range,
            StoreError::OffsetOutOfRange => ErrorKind::Range,
            StoreError::FlushTimeout => ErrorKind::Timeout,
            StoreError::ReplicationTimeout => ErrorKind::Timeout,
            StoreError::Corrupted => ErrorKind::Integrity,
            StoreError::Disconnected => ErrorKind::Connectivity,
        }
    }

    /// The class of this failure.
    pub fn kind(self) -> (kind: ErrorKind)
        ensures
            kind == self.spec_kind(),
    {
        match self {
            StoreError::SegmentFull => ErrorKind::Capacity,
            StoreError::DiskFull => ErrorKind::Capacity,
            StoreError::PageCacheBusy => ErrorKind::Capacity,
            StoreError::MessageIllegal => ErrorKind::Range,
            StoreError::OutOfRange => ErrorKind::Range,
            StoreError::OffsetOutOfRange => ErrorKind::Range,
            StoreError::FlushTimeout => ErrorKind::Timeout,
            StoreError::ReplicationTimeout => ErrorKind::Timeout,
            StoreError::Corrupted => ErrorKind::Integrity,
            StoreError::Disconnected => ErrorKind::Connectivity,
        }
    }

    /// A timeout leaves the append in place; every other failure rejects it.
    pub open spec fn spec_status(self) -> AppendStatus {
        if self.spec_kind() == ErrorKind::Timeout {
            AppendStatus::Timeout
        } else {
            AppendStatus::Rejected
        }
    }

    /// What the caller of an append sees of this failure.
    pub fn status(self) -> (status: AppendStatus)
        ensures
            status == self.spec_status(),
            status != AppendStatus::Success,
    {
        match self.kind() {
            ErrorKind::Timeout => AppendStatus::Timeout,
            _ => AppendStatus::Rejected,
        }
    }

    /// The name of the failure.
    pub fn name(self) -> (text: &'static str)
        ensures
            text@ == self.spec_name(),
    {
        match self {
            StoreError::SegmentFull => "segment full",
            StoreError::DiskFull => "disk full",
            StoreError::MessageIllegal => "message illegal",
            StoreError::PageCacheBusy => "page cache busy",
            StoreError::OutOfRange => "out of range",
            StoreError::OffsetOutOfRange => "offset out of range",
            StoreError::FlushTimeout => "flush timeout",
            StoreError::ReplicationTimeout => "replication timeout",
            StoreError::Corrupted => "corrupted",
            StoreError::Disconnected => "disconnected",
        }
    }

    pub open spec fn spec_name(self) -> Seq<char> {
        match self {
            StoreError::SegmentFull => "segment full"@,
            StoreError::DiskFull => "disk full"@,
            StoreError::MessageIllegal => "message illegal"@,
            StoreError::PageCacheBusy => "page cache busy"@,
            StoreError::OutOfRange => "out of range"@,
            StoreError::OffsetOutOfRange => "offset out of range"@,
            StoreError::FlushTimeout => "flush timeout"@,
            StoreError::ReplicationTimeout => "replication timeout"@,
            StoreError::Corrupted => "corrupted"@,
            StoreError::Disconnected => "disconnected"@,
        }
    }
}

} // verus!
