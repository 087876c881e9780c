//! The recovery scan: how far the bytes found in a log's segments can be
//! trusted.
//!
//! The scan walks a segment record by record and stops at the first position
//! where no valid record starts. If that position is blank (the length field
//! there is zero, or too little room is left for one) and a later segment
//! exists, the rest of the segment is padding and the scan goes on in the
//! next segment; else the log ends there.

use crate::codec::get_u32;
use crate::codec::lemma_u32_bytes_of_value;
use crate::codec::u32_bytes;
use crate::codec::u32_value;
use crate::record::body_at;
use crate::record::declared_length;
use crate::record::decode_record;
use crate::record::field_u32;
use crate::record::MESSAGE_MAGIC_CODE;
use crate::record::properties_at;
use crate::record::record_at;
use crate::record::record_valid_at;
use crate::segment::zero_from;
use vstd::prelude::*;

verus! {

/// Where the scan of one segment stops when it starts at `p`: the first
/// position, reached over valid records, at which no valid record starts.
/// `base` is the physical offset of the segment's first byte.
pub open spec fn scan_segment(image: Seq<u8>, base: int, p: int, check_crc: bool) -> int
    decreases image.len() - p,
{
    if record_valid_at(image, p, base + p, check_crc) {
        scan_segment(image, base, p + declared_length(image, p), check_crc)
    } else {
        p
    }
}

/// Whether position `p` of a segment is blank: no length field fits there, or
/// the length it holds is zero.
pub open spec fn blank_at(image: Seq<u8>, p: int) -> bool {
    p + 4 > image.len() || declared_length(image, p) == 0
}

/// Where the scan of the log stops when it starts at segment `k`: the index
/// of a segment and a position in it.
pub open spec fn scan_log(images: Seq<Seq<u8>>, base: int, size: int, k: int, check_crc: bool) -> (
    int,
    int,
)
    decreases images.len() - k,
{
    if 0 <= k < images.len() {
        let q = scan_segment(images[k], base + k * size, 0, check_crc);
        if blank_at(images[k], q) && k + 1 < images.len() {
            scan_log(images, base, size, k + 1, check_crc)
        } else {
            (k, q)
        }
    } else {
        (k, 0)
    }
}

/// The physical offset up to which the log is valid, when the segments
/// before segment `from` are taken on trust and the scan starts there.
pub open spec fn last_valid_offset_from(
    images: Seq<Seq<u8>>,
    base: int,
    size: int,
    from: int,
    check_crc: bool,
) -> int {
    let (k, q) = scan_log(images, base, size, from, check_crc);
    base + k * size + q
}

/// The physical offset up to which the log is valid.
pub open spec fn last_valid_offset(images: Seq<Seq<u8>>, base: int, size: int, check_crc: bool) -> int {
    last_valid_offset_from(images, base, size, 0, check_crc)
}

/// The segments that recovery keeps: those up to the one in which the scan
/// stopped, that one wiped from the stop on.
pub open spec fn truncated(images: Seq<Seq<u8>>, k: int, q: int) -> Seq<Seq<u8>> {
    Seq::new(
        (k + 1) as nat,
        |i: int|
            if i < k {
                images[i]
            } else {
                zero_from(images[k], q)
            },
    )
}

/// The scan of a segment stops inside the segment, not before its start, and
/// where it stops no valid record starts.
pub proof fn lemma_scan_segment_bounds(image: Seq<u8>, base: int, p: int, check_crc: bool)
    requires
        0 <= p <= image.len(),
    ensures
        p <= scan_segment(image, base, p, check_crc) <= image.len(),
        !record_valid_at(
            image,
            scan_segment(image, base, p, check_crc),
            base + scan_segment(image, base, p, check_crc),
            check_crc,
        ),
    decreases image.len() - p,
{
    if record_valid_at(image, p, base + p, check_crc) {
        lemma_scan_segment_bounds(image, base, p + declared_length(image, p), check_crc);
    }
}

/// A record is valid by its own bytes alone: where two sequences hold the
/// same bytes over the length that a valid record declares, the record is
/// valid in both and is the same record.
pub proof fn lemma_valid_agree(a: Seq<u8>, b: Seq<u8>, p: int, offset: int, check_crc: bool)
    requires
        record_valid_at(a, p, offset, check_crc),
        p + declared_length(a, p) <= b.len(),
        forall|i: int| p <= i < p + declared_length(a, p) ==> a[i] == b[i],
    ensures
        record_valid_at(b, p, offset, check_crc),
        declared_length(b, p) == declared_length(a, p),
        record_at(b, p) == record_at(a, p),
{
    assert(a.subrange(p, p + 4) =~= b.subrange(p, p + 4));
    assert(a.subrange(p + 4, p + 8) =~= b.subrange(p + 4, p + 8));
    assert(a.subrange(p + 8, p + 12) =~= b.subrange(p + 8, p + 12));
    assert(a.subrange(p + 12, p + 16) =~= b.subrange(p + 12, p + 16));
    assert(a.subrange(p + 16, p + 20) =~= b.subrange(p + 16, p + 20));
    assert(a.subrange(p + 20, p + 28) =~= b.subrange(p + 20, p + 28));
    assert(a.subrange(p + 28, p + 36) =~= b.subrange(p + 28, p + 36));
    assert(a.subrange(p + 36, p + 44) =~= b.subrange(p + 36, p + 44));
    assert(a.subrange(p + 44, p + 52) =~= b.subrange(p + 44, p + 52));
    assert(a.subrange(p + 52, p + 60) =~= b.subrange(p + 52, p + 60));
    assert(a.subrange(p + 60, p + 68) =~= b.subrange(p + 60, p + 68));
    assert(a.subrange(p + 68, p + 72) =~= b.subrange(p + 68, p + 72));
    assert(a.subrange(p + 72, p + 76) =~= b.subrange(p + 72, p + 76));
    assert(body_at(a, p) =~= body_at(b, p));
    assert(properties_at(a, p) =~= properties_at(b, p));
}

/// Where only zeros lie from `p` on, no valid record starts at `p`.
pub proof fn lemma_zeros_invalid(image: Seq<u8>, p: int, offset: int, check_crc: bool)
    requires
        0 <= p,
        forall|i: int| p <= i < image.len() ==> image[i] == 0u8,
    ensures
        !record_valid_at(image, p, offset, check_crc),
        blank_at(image, p),
{
    if p + 4 <= image.len() {
        reveal(u32_value);
        let field = image.subrange(p, p + 4);
        assert(field[0] == 0 && field[1] == 0 && field[2] == 0 && field[3] == 0);
        assert(declared_length(image, p) == 0);
    }
}

/// A header whose magic code was not written out in full does not start a
/// valid record: where one of the four bytes of the magic code is zero, the
/// record is invalid.
pub proof fn lemma_torn_header_invalid(image: Seq<u8>, p: int, offset: int, check_crc: bool)
    requires
        0 <= p,
        p + 8 <= image.len(),
        image[p + 4] == 0u8 || image[p + 5] == 0u8 || image[p + 6] == 0u8 || image[p + 7] == 0u8,
    ensures
        !record_valid_at(image, p, offset, check_crc),
{
    let field = image.subrange(p + 4, p + 8);
    if field_u32(image, p + 4) == MESSAGE_MAGIC_CODE {
        lemma_u32_bytes_of_value(field);
        reveal(u32_bytes);
        let magic = u32_bytes(MESSAGE_MAGIC_CODE);
        assert(magic[0] == 0xDAu8 && magic[1] == 0xA3u8 && magic[2] == 0x20u8 && magic[3]
            == 0xA7u8);
        assert(field[0] == image[p + 4] && field[1] == image[p + 5] && field[2] == image[p + 6]
            && field[3] == image[p + 7]);
    }
}

/// The scan of a segment goes by the bytes below its stop alone: in a second
/// segment that holds the same bytes below the stop, the scan from `p` comes
/// by the stop too.
pub proof fn lemma_scan_segment_path(
    a: Seq<u8>,
    b: Seq<u8>,
    base: int,
    p: int,
    m: int,
    check_crc: bool,
)
    requires
        a.len() == b.len(),
        0 <= p <= a.len(),
        m == scan_segment(a, base, p, check_crc),
        forall|i: int| 0 <= i < m ==> a[i] == b[i],
    ensures
        scan_segment(b, base, p, check_crc) == scan_segment(b, base, m, check_crc),
    decreases a.len() - p,
{
    if record_valid_at(a, p, base + p, check_crc) {
        let next = p + declared_length(a, p);
        lemma_scan_segment_bounds(a, base, next, check_crc);
        lemma_valid_agree(a, b, p, base + p, check_crc);
        lemma_scan_segment_path(a, b, base, next, m, check_crc);
    }
}

/// The scan of the log stops in a segment that exists, at the place where
/// that segment's own scan stops, and either that place is not blank or the
/// segment is the last.
pub proof fn lemma_scan_log_bounds(
    images: Seq<Seq<u8>>,
    base: int,
    size: int,
    j: int,
    check_crc: bool,
)
    requires
        0 <= j < images.len(),
    ensures
        ({
            let (k, q) = scan_log(images, base, size, j, check_crc);
            &&& j <= k < images.len()
            &&& q == scan_segment(images[k], base + k * size, 0, check_crc)
            &&& 0 <= q <= images[k].len()
            &&& !(blank_at(images[k], q) && k + 1 < images.len())
        }),
    decreases images.len() - j,
{
    let q = scan_segment(images[j], base + j * size, 0, check_crc);
    lemma_scan_segment_bounds(images[j], base + j * size, 0, check_crc);
    if blank_at(images[j], q) && j + 1 < images.len() {
        lemma_scan_log_bounds(images, base, size, j + 1, check_crc);
    }
}

/// The scan of the log goes by the segments before its stop alone: in a
/// second row of segments that holds the same segments before the stop, and
/// a segment at the stop, the scan from `j` comes by the stop's segment too.
pub proof fn lemma_scan_log_prefix(
    a: Seq<Seq<u8>>,
    b: Seq<Seq<u8>>,
    base: int,
    size: int,
    j: int,
    check_crc: bool,
)
    requires
        0 <= j < a.len(),
        scan_log(a, base, size, j, check_crc).0 < b.len(),
        forall|i: int| j <= i < scan_log(a, base, size, j, check_crc).0 ==> a[i] == b[i],
    ensures
        scan_log(b, base, size, j, check_crc) == scan_log(
            b,
            base,
            size,
            scan_log(a, base, size, j, check_crc).0,
            check_crc,
        ),
    decreases a.len() - j,
{
    let q = scan_segment(a[j], base + j * size, 0, check_crc);
    if blank_at(a[j], q) && j + 1 < a.len() {
        lemma_scan_log_bounds(a, base, size, j + 1, check_crc);
        assert(a[j] == b[j]);
        lemma_scan_log_prefix(a, b, base, size, j + 1, check_crc);
    }
}

/// Recovery is idempotent: a second recovery, run on what the first one
/// kept and from the same checkpoint, stops at the same segment and
/// position, hence at the same last valid offset.
pub proof fn lemma_recovery_idempotent_from(
    images: Seq<Seq<u8>>,
    base: int,
    size: int,
    from: int,
    check_crc: bool,
)
    requires
        0 <= from < images.len(),
    ensures
        ({
            let (k, q) = scan_log(images, base, size, from, check_crc);
            &&& scan_log(truncated(images, k, q), base, size, from, check_crc) == (k, q)
            &&& last_valid_offset_from(truncated(images, k, q), base, size, from, check_crc)
                == last_valid_offset_from(images, base, size, from, check_crc)
        }),
{
    let (k, q) = scan_log(images, base, size, from, check_crc);
    let kept = truncated(images, k, q);
    lemma_scan_log_bounds(images, base, size, from, check_crc);
    lemma_scan_log_prefix(images, kept, base, size, from, check_crc);
    let wiped = zero_from(images[k], q);
    assert(kept[k] == wiped);
    lemma_scan_segment_path(images[k], wiped, base + k * size, 0, q, check_crc);
    lemma_zeros_invalid(wiped, q, base + k * size + q, check_crc);
}

/// Recovery is idempotent: a second recovery, run on what the first one
/// kept, stops at the same segment and position, hence at the same last valid
/// offset.
pub proof fn lemma_recovery_idempotent(images: Seq<Seq<u8>>, base: int, size: int, check_crc: bool)
    requires
        images.len() >= 1,
    ensures
        ({
            let (k, q) = scan_log(images, base, size, 0, check_crc);
            &&& scan_log(truncated(images, k, q), base, size, 0, check_crc) == (k, q)
            &&& last_valid_offset(truncated(images, k, q), base, size, check_crc)
                == last_valid_offset(images, base, size, check_crc)
        }),
{
    lemma_recovery_idempotent_from(images, base, size, 0, check_crc);
}

/// Where the scan of `image` stops, starting at its first byte.
pub fn scan_segment_end(image: &[u8], base: u64, check_crc: bool) -> (stop: usize)
    requires
        base + image.len() <= u64::MAX,
    ensures
        stop == scan_segment(image@, base as int, 0, check_crc),
        stop <= image.len(),
{
    let mut p: usize = 0;
    loop
        invariant
            base + image.len() <= u64::MAX,
            p <= image.len(),
            scan_segment(image@, base as int, 0, check_crc) == scan_segment(
                image@,
                base as int,
                p as int,
                check_crc,
            ),
        ensures
            p == scan_segment(image@, base as int, 0, check_crc),
            p <= image.len(),
        decreases image.len() - p,
    {
        match decode_record(image, p, base + p as u64, check_crc) {
            Some(record) => {
                p = p + record.length as usize;
            },
            None => {
                break ;
            },
        }
    }
    p
}

/// Whether position `p` of `image` is blank.
pub fn is_blank(image: &[u8], p: usize) -> (blank: bool)
    ensures
        blank == blank_at(image@, p as int),
{
    if image.len() < 4 || p > image.len() - 4 {
        true
    } else {
        get_u32(image, p) == 0
    }
}

} // verus!
