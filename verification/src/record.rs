//! The message record as it lies in the commit log.
//!
//! A record is a header of fixed width followed by the message's properties
//! and its body. All numbers are big-endian.
//!
//! | at | width | field |
//! |----|-------|-------|
//! | 0  | 4 | length of the whole record |
//! | 4  | 4 | magic code |
//! | 8  | 4 | check value of the body |
//! | 12 | 4 | queue id |
//! | 16 | 4 | flag |
//! | 20 | 8 | queue offset |
//! | 28 | 8 | physical offset |
//! | 36 | 8 | born timestamp |
//! | 44 | 8 | store timestamp |
//! | 52 | 8 | born host |
//! | 60 | 8 | tags code |
//! | 68 | 4 | length of the properties |
//! | 72 | 4 | length of the body |
//! | 76 |   | properties, then body |

use crate::codec::bits_i64;
use crate::codec::get_i64;
use crate::codec::get_u32;
use crate::codec::get_u64;
use crate::codec::i64_bits;
use crate::codec::lemma_i64_round_trip;
use crate::codec::lemma_u32_round_trip;
use crate::codec::lemma_u64_round_trip;
use crate::codec::put_bytes;
use crate::codec::put_i64;
use crate::codec::put_u32;
use crate::codec::put_u64;
use crate::codec::u32_bytes;
use crate::codec::u32_value;
use crate::codec::u64_bytes;
use crate::codec::u64_value;
use crate::crc::checksum;
use crate::crc::crc32;
use vstd::prelude::*;
use vstd::slice::slice_subrange;

verus! {

/// Marks the start of a message record. None of its four bytes is zero, so a
/// header that was only partly written never carries it.
pub const MESSAGE_MAGIC_CODE: u32 = 0xDAA3_20A7;

/// The width of a record's header.
pub const RECORD_HEADER_SIZE: usize = 76;

/// A message as a producer hands it in.
#[derive(Debug)]
pub struct Message {
    pub queue_id: u32,
    pub flag: u32,
    pub born_timestamp: u64,
    pub store_timestamp: u64,
    pub born_host: u64,
    pub tags_code: i64,
    pub properties: Vec<u8>,
    pub body: Vec<u8>,
}

/// A message as a value.
pub struct MessageView {
    pub queue_id: u32,
    pub flag: u32,
    pub born_timestamp: u64,
    pub store_timestamp: u64,
    pub born_host: u64,
    pub tags_code: i64,
    pub properties: Seq<u8>,
    pub body: Seq<u8>,
}

impl View for Message {
    type V = MessageView;

    open spec fn view(&self) -> MessageView {
        MessageView {
            queue_id: self.queue_id,
            flag: self.flag,
            born_timestamp: self.born_timestamp,
            store_timestamp: self.store_timestamp,
            born_host: self.born_host,
            tags_code: self.tags_code,
            properties: self.properties@,
            body: self.body@,
        }
    }
}

/// A record read back from the log.
#[derive(Debug)]
pub struct Record {
    pub length: u32,
    pub body_crc: u32,
    pub queue_offset: u64,
    pub physical_offset: u64,
    pub message: Message,
}

/// A record as a value.
pub struct RecordView {
    pub length: u32,
    pub body_crc: u32,
    pub queue_offset: u64,
    pub physical_offset: u64,
    pub message: MessageView,
}

impl View for Record {
    type V = RecordView;

    open spec fn view(&self) -> RecordView {
        RecordView {
            length: self.length,
            body_crc: self.body_crc,
            queue_offset: self.queue_offset,
            physical_offset: self.physical_offset,
            message: self.message@,
        }
    }
}

/// The number of bytes that the record of `message` takes.
pub open spec fn record_size(message: MessageView) -> nat {
    RECORD_HEADER_SIZE as nat + message.properties.len() + message.body.len()
}

/// The header of the record of `message`.
pub open spec fn header_bytes(message: MessageView, queue_offset: u64, physical_offset: u64) -> Seq<
    u8,
> {
    u32_bytes(record_size(message) as u32) + u32_bytes(MESSAGE_MAGIC_CODE) + u32_bytes(
        crc32(message.body),
    ) + u32_bytes(message.queue_id) + u32_bytes(message.flag) + u64_bytes(queue_offset) + u64_bytes(
        physical_offset,
    ) + u64_bytes(message.born_timestamp) + u64_bytes(message.store_timestamp) + u64_bytes(
        message.born_host,
    ) + u64_bytes(i64_bits(message.tags_code)) + u32_bytes(message.properties.len() as u32)
        + u32_bytes(message.body.len() as u32)
}

/// The bytes of the record of `message`, stored at `physical_offset` as the
/// `queue_offset`-th message of its queue.
pub open spec fn record_bytes(message: MessageView, queue_offset: u64, physical_offset: u64) -> Seq<
    u8,
>
    recommends
        record_size(message) <= u32::MAX,
{
    header_bytes(message, queue_offset, physical_offset) + message.properties + message.body
}

/// The 32-bit field at `at`.
pub open spec fn field_u32(bytes: Seq<u8>, at: int) -> u32 {
    u32_value(bytes.subrange(at, at + 4))
}

/// The 64-bit field at `at`.
pub open spec fn field_u64(bytes: Seq<u8>, at: int) -> u64 {
    u64_value(bytes.subrange(at, at + 8))
}

/// The length that the record at `p` declares.
pub open spec fn declared_length(bytes: Seq<u8>, p: int) -> int {
    field_u32(bytes, p) as int
}

/// The length of the properties that the record at `p` declares.
pub open spec fn declared_properties(bytes: Seq<u8>, p: int) -> int {
    field_u32(bytes, p + 68) as int
}

/// The length of the body that the record at `p` declares.
pub open spec fn declared_body(bytes: Seq<u8>, p: int) -> int {
    field_u32(bytes, p + 72) as int
}

/// The body of the record at `p`.
pub open spec fn body_at(bytes: Seq<u8>, p: int) -> Seq<u8> {
    bytes.subrange(
        p + RECORD_HEADER_SIZE + declared_properties(bytes, p),
        p + declared_length(bytes, p),
    )
}

/// The properties of the record at `p`.
pub open spec fn properties_at(bytes: Seq<u8>, p: int) -> Seq<u8> {
    bytes.subrange(
        p + RECORD_HEADER_SIZE,
        p + RECORD_HEADER_SIZE + declared_properties(bytes, p),
    )
}

/// Whether a complete and consistent record starts at `p` of `bytes`: its
/// header fits, its declared length is that of header, properties and body
/// together and stays inside `bytes`, it carries the magic code and the
/// physical offset `offset` at which it lies, and, where asked for, its body
/// has the check value that the header names. Its queue offset is no larger
/// than its physical offset: a queue cannot hold more messages than the log
/// holds bytes.
pub open spec fn record_valid_at(bytes: Seq<u8>, p: int, offset: int, check_crc: bool) -> bool {
    &&& 0 <= p
    &&& p + RECORD_HEADER_SIZE <= bytes.len()
    &&& declared_length(bytes, p) == RECORD_HEADER_SIZE + declared_properties(bytes, p)
        + declared_body(bytes, p)
    &&& p + declared_length(bytes, p) <= bytes.len()
    &&& field_u32(bytes, p + 4) == MESSAGE_MAGIC_CODE
    &&& field_u64(bytes, p + 28) == offset
    &&& field_u64(bytes, p + 20) <= offset
    &&& check_crc ==> crc32(body_at(bytes, p)) == field_u32(bytes, p + 8)
}

/// The record that starts at `p` of `bytes`.
pub open spec fn record_at(bytes: Seq<u8>, p: int) -> RecordView {
    RecordView {
        length: field_u32(bytes, p),
        body_crc: field_u32(bytes, p + 8),
        queue_offset: field_u64(bytes, p + 20),
        physical_offset: field_u64(bytes, p + 28),
        message: MessageView {
            queue_id: field_u32(bytes, p + 12),
            flag: field_u32(bytes, p + 16),
            born_timestamp: field_u64(bytes, p + 36),
            store_timestamp: field_u64(bytes, p + 44),
            born_host: field_u64(bytes, p + 52),
            tags_code: bits_i64(field_u64(bytes, p + 60)),
            properties: properties_at(bytes, p),
            body: body_at(bytes, p),
        },
    }
}

/// The record that `record_bytes` spells.
pub open spec fn record_of(message: MessageView, queue_offset: u64, physical_offset: u64) -> RecordView {
    RecordView {
        length: record_size(message) as u32,
        body_crc: crc32(message.body),
        queue_offset,
        physical_offset,
        message,
    }
}

impl Message {
    /// The number of bytes that the record of this message takes, or `None`
    /// if that number does not fit the record's length field.
    pub fn encoded_size(&self) -> (size: Option<usize>)
        ensures
            size is Some <==> record_size(self@) <= u32::MAX,
            size matches Some(n) ==> n == record_size(self@),
    {
        let limit: usize = 0xFFFF_FFFF - RECORD_HEADER_SIZE;
        let p = self.properties.len();
        let b = self.body.len();
        if p > limit || b > limit - p {
            None
        } else {
            Some(RECORD_HEADER_SIZE + p + b)
        }
    }
}

/// Writes the record of `message`.
pub fn encode_record(message: &Message, queue_offset: u64, physical_offset: u64) -> (bytes: Vec<u8>)
    requires
        record_size(message@) <= u32::MAX,
    ensures
        bytes@ == record_bytes(message@, queue_offset, physical_offset),
        bytes@.len() == record_size(message@),
{
    let p = message.properties.len();
    let b = message.body.len();
    let mut out: Vec<u8> = Vec::new();
    put_u32(&mut out, (RECORD_HEADER_SIZE + p + b) as u32);
    put_u32(&mut out, MESSAGE_MAGIC_CODE);
    put_u32(&mut out, checksum(message.body.as_slice()));
    put_u32(&mut out, message.queue_id);
    put_u32(&mut out, message.flag);
    put_u64(&mut out, queue_offset);
    put_u64(&mut out, physical_offset);
    put_u64(&mut out, message.born_timestamp);
    put_u64(&mut out, message.store_timestamp);
    put_u64(&mut out, message.born_host);
    put_i64(&mut out, message.tags_code);
    put_u32(&mut out, p as u32);
    put_u32(&mut out, b as u32);
    assert(out@ == header_bytes(message@, queue_offset, physical_offset));
    proof {
        lemma_header_length(message@, queue_offset, physical_offset);
    }
    put_bytes(&mut out, message.properties.as_slice());
    put_bytes(&mut out, message.body.as_slice());
    out
}

/// A header is 76 bytes long.
pub proof fn lemma_header_length(message: MessageView, queue_offset: u64, physical_offset: u64)
    ensures
        header_bytes(message, queue_offset, physical_offset).len() == RECORD_HEADER_SIZE,
        record_bytes(message, queue_offset, physical_offset).len() == record_size(message),
{
    lemma_u32_round_trip(record_size(message) as u32);
    lemma_u32_round_trip(MESSAGE_MAGIC_CODE);
    lemma_u32_round_trip(crc32(message.body));
    lemma_u32_round_trip(message.queue_id);
    lemma_u32_round_trip(message.flag);
    lemma_u64_round_trip(queue_offset);
    lemma_u64_round_trip(physical_offset);
    lemma_u64_round_trip(message.born_timestamp);
    lemma_u64_round_trip(message.store_timestamp);
    lemma_u64_round_trip(message.born_host);
    lemma_u64_round_trip(i64_bits(message.tags_code));
    lemma_u32_round_trip(message.properties.len() as u32);
    lemma_u32_round_trip(message.body.len() as u32);
}

/// A field of a record that lies inside a longer sequence is the field of the
/// record alone.
proof fn lemma_window(bytes: Seq<u8>, p: int, n: int, record: Seq<u8>, a: int, b: int)
    requires
        0 <= p,
        p + n <= bytes.len(),
        record.len() == n,
        bytes.subrange(p, p + n) == record,
        0 <= a <= b <= n,
    ensures
        bytes.subrange(p + a, p + b) == record.subrange(a, b),
{
    assert(bytes.subrange(p + a, p + b) =~= bytes.subrange(p, p + n).subrange(a, b));
}

/// The fields of a freshly written record, each at its place.
proof fn lemma_record_fields(message: MessageView, queue_offset: u64, physical_offset: u64)
    requires
        record_size(message) <= u32::MAX,
    ensures
        ({
            let r = record_bytes(message, queue_offset, physical_offset);
            let props = message.properties.len() as int;
            &&& r.len() == record_size(message)
            &&& r.subrange(0, 4) == u32_bytes(record_size(message) as u32)
            &&& r.subrange(4, 8) == u32_bytes(MESSAGE_MAGIC_CODE)
            &&& r.subrange(8, 12) == u32_bytes(crc32(message.body))
            &&& r.subrange(12, 16) == u32_bytes(message.queue_id)
            &&& r.subrange(16, 20) == u32_bytes(message.flag)
            &&& r.subrange(20, 28) == u64_bytes(queue_offset)
            &&& r.subrange(28, 36) == u64_bytes(physical_offset)
            &&& r.subrange(36, 44) == u64_bytes(message.born_timestamp)
            &&& r.subrange(44, 52) == u64_bytes(message.store_timestamp)
            &&& r.subrange(52, 60) == u64_bytes(message.born_host)
            &&& r.subrange(60, 68) == u64_bytes(i64_bits(message.tags_code))
            &&& r.subrange(68, 72) == u32_bytes(message.properties.len() as u32)
            &&& r.subrange(72, 76) == u32_bytes(message.body.len() as u32)
            &&& r.subrange(76, 76 + props) == message.properties
            &&& r.subrange(76 + props, r.len() as int) == message.body
        }),
{
    let r = record_bytes(message, queue_offset, physical_offset);
    let props = message.properties.len() as int;
    lemma_u32_round_trip(record_size(message) as u32);
    lemma_u32_round_trip(MESSAGE_MAGIC_CODE);
    lemma_u32_round_trip(crc32(message.body));
    lemma_u32_round_trip(message.queue_id);
    lemma_u32_round_trip(message.flag);
    lemma_u64_round_trip(queue_offset);
    lemma_u64_round_trip(physical_offset);
    lemma_u64_round_trip(message.born_timestamp);
    lemma_u64_round_trip(message.store_timestamp);
    lemma_u64_round_trip(message.born_host);
    lemma_u64_round_trip(i64_bits(message.tags_code));
    lemma_u32_round_trip(message.properties.len() as u32);
    lemma_u32_round_trip(message.body.len() as u32);
    assert(r.subrange(0, 4) =~= u32_bytes(record_size(message) as u32));
    assert(r.subrange(4, 8) =~= u32_bytes(MESSAGE_MAGIC_CODE));
    assert(r.subrange(8, 12) =~= u32_bytes(crc32(message.body)));
    assert(r.subrange(12, 16) =~= u32_bytes(message.queue_id));
    assert(r.subrange(16, 20) =~= u32_bytes(message.flag));
    assert(r.subrange(20, 28) =~= u64_bytes(queue_offset));
    assert(r.subrange(28, 36) =~= u64_bytes(physical_offset));
    assert(r.subrange(36, 44) =~= u64_bytes(message.born_timestamp));
    assert(r.subrange(44, 52) =~= u64_bytes(message.store_timestamp));
    assert(r.subrange(52, 60) =~= u64_bytes(message.born_host));
    assert(r.subrange(60, 68) =~= u64_bytes(i64_bits(message.tags_code)));
    assert(r.subrange(68, 72) =~= u32_bytes(message.properties.len() as u32));
    assert(r.subrange(72, 76) =~= u32_bytes(message.body.len() as u32));
    assert(r.subrange(76, 76 + props) =~= message.properties);
    assert(r.subrange(76 + props, r.len() as int) =~= message.body);
}

/// What was written is read back: wherever the bytes of a record lie, a valid
/// record starts there, with or without the check of the body, and it is the
/// record that was written.
pub proof fn lemma_record_round_trip(
    bytes: Seq<u8>,
    p: int,
    message: MessageView,
    queue_offset: u64,
    physical_offset: u64,
)
    requires
        record_size(message) <= u32::MAX,
        queue_offset <= physical_offset,
        0 <= p,
        p + record_size(message) <= bytes.len(),
        bytes.subrange(p, p + record_size(message)) == record_bytes(
            message,
            queue_offset,
            physical_offset,
        ),
    ensures
        record_valid_at(bytes, p, physical_offset as int, true),
        record_valid_at(bytes, p, physical_offset as int, false),
        declared_length(bytes, p) == record_size(message),
        record_at(bytes, p) == record_of(message, queue_offset, physical_offset),
{
    let r = record_bytes(message, queue_offset, physical_offset);
    let n = record_size(message) as int;
    let props = message.properties.len() as int;
    lemma_record_fields(message, queue_offset, physical_offset);
    lemma_window(bytes, p, n, r, 0, 4);
    lemma_window(bytes, p, n, r, 4, 8);
    lemma_window(bytes, p, n, r, 8, 12);
    lemma_window(bytes, p, n, r, 12, 16);
    lemma_window(bytes, p, n, r, 16, 20);
    lemma_window(bytes, p, n, r, 20, 28);
    lemma_window(bytes, p, n, r, 28, 36);
    lemma_window(bytes, p, n, r, 36, 44);
    lemma_window(bytes, p, n, r, 44, 52);
    lemma_window(bytes, p, n, r, 52, 60);
    lemma_window(bytes, p, n, r, 60, 68);
    lemma_window(bytes, p, n, r, 68, 72);
    lemma_window(bytes, p, n, r, 72, 76);
    lemma_window(bytes, p, n, r, 76, 76 + props);
    lemma_window(bytes, p, n, r, 76 + props, n);
    lemma_u32_round_trip(record_size(message) as u32);
    lemma_u32_round_trip(MESSAGE_MAGIC_CODE);
    lemma_u32_round_trip(crc32(message.body));
    lemma_u32_round_trip(message.queue_id);
    lemma_u32_round_trip(message.flag);
    lemma_u64_round_trip(queue_offset);
    lemma_u64_round_trip(physical_offset);
    lemma_u64_round_trip(message.born_timestamp);
    lemma_u64_round_trip(message.store_timestamp);
    lemma_u64_round_trip(message.born_host);
    lemma_u64_round_trip(i64_bits(message.tags_code));
    lemma_i64_round_trip(message.tags_code);
    lemma_u32_round_trip(message.properties.len() as u32);
    lemma_u32_round_trip(message.body.len() as u32);
    assert(declared_length(bytes, p) == n);
    assert(declared_properties(bytes, p) == props);
    assert(declared_body(bytes, p) == message.body.len());
    assert(properties_at(bytes, p) == message.properties);
    assert(body_at(bytes, p) == message.body);
}

/// Copies `data[from..to]`.
fn copy_range(data: &[u8], from: usize, to: usize) -> (out: Vec<u8>)
    requires
        from <= to <= data.len(),
    ensures
        out@ == data@.subrange(from as int, to as int),
{
    let mut out: Vec<u8> = Vec::new();
    put_bytes(&mut out, slice_subrange(data, from, to));
    assert(out@ =~= data@.subrange(from as int, to as int));
    out
}

/// Reads the record that starts at `pos` of `data`, if a complete and
/// consistent one does; `offset` is the physical offset of that position.
pub fn decode_record(data: &[u8], pos: usize, offset: u64, check_crc: bool) -> (found: Option<
    Record,
>)
    ensures
        found is Some <==> record_valid_at(data@, pos as int, offset as int, check_crc),
        found matches Some(record) ==> record@ == record_at(data@, pos as int),
{
    let total = data.len();
    if total < RECORD_HEADER_SIZE || pos > total - RECORD_HEADER_SIZE {
        return None;
    }
    let length = get_u32(data, pos);
    let magic = get_u32(data, pos + 4);
    let body_crc = get_u32(data, pos + 8);
    let physical_offset = get_u64(data, pos + 28);
    let queue_offset = get_u64(data, pos + 20);
    let properties_len = get_u32(data, pos + 68);
    let body_len = get_u32(data, pos + 72);
    if magic != MESSAGE_MAGIC_CODE || physical_offset != offset || queue_offset > offset {
        return None;
    }
    let declared: u64 = RECORD_HEADER_SIZE as u64 + properties_len as u64 + body_len as u64;
    if length as u64 != declared || length as u64 > (total - pos) as u64 {
        return None;
    }
    let body_start: usize = pos + RECORD_HEADER_SIZE + properties_len as usize;
    let end: usize = pos + length as usize;
    let body = copy_range(data, body_start, end);
    if check_crc && checksum(body.as_slice()) != body_crc {
        return None;
    }
    let properties = copy_range(data, pos + RECORD_HEADER_SIZE, body_start);
    let message = Message {
        queue_id: get_u32(data, pos + 12),
        flag: get_u32(data, pos + 16),
        born_timestamp: get_u64(data, pos + 36),
        store_timestamp: get_u64(data, pos + 44),
        born_host: get_u64(data, pos + 52),
        tags_code: get_i64(data, pos + 60),
        properties,
        body,
    };
    Some(Record { length, body_crc, queue_offset, physical_offset, message })
}

} // verus!
