//! The layout of a record in a segment's data file:
//!
//! * four bytes: the payload's length, little-endian;
//! * four bytes: the CRC-32 of the payload, little-endian;
//! * the payload.

use vstd::prelude::*;

use crate::wire;
use crate::wire::{get_le, put_le};

use super::{LogError, LogErrorView};

verus! {

/// Bytes before the payload of a record.
pub const HEADER_SIZE: u64 = 8;

/// One step of polynomial division by the reflected IEEE polynomial.
pub open spec fn crc_shift(c: u32) -> u32 {
    if c & 1 == 1 {
        (c >> 1) ^ 0xEDB8_8320
    } else {
        c >> 1
    }
}

/// `n` steps of polynomial division.
pub open spec fn crc_shifted(c: u32, n: nat) -> u32
    decreases n,
{
    if n == 0 {
        c
    } else {
        crc_shift(crc_shifted(c, (n - 1) as nat))
    }
}

/// What the division leaves of `data`, starting with all bits set.
pub open spec fn crc_register(data: Seq<u8>) -> u32
    decreases data.len(),
{
    if data.len() == 0 {
        0xFFFF_FFFF
    } else {
        crc_shifted(crc_register(data.drop_last()) ^ (data.last() as u32), 8)
    }
}

/// The CRC-32 checksum (IEEE polynomial) of `data`.
pub open spec fn crc32_ieee(data: Seq<u8>) -> u32 {
    crc_register(data) ^ 0xFFFF_FFFF
}

/// Calls `crc32fast::hash`, which gives the CRC-32 checksum of `data` with the IEEE
/// polynomial, bits reflected and inverted at both ends.
#[verifier::external_body]
pub(crate) fn crc32(data: &[u8]) -> (sum: u32)
    ensures
        sum == crc32_ieee(data@),
{
    crc32fast::hash(data)
}

proof fn lemma_crc_shift_tells_apart(a: u32, b: u32)
    requires
        a != b,
    ensures
        crc_shift(a) != crc_shift(b),
{
    assert(a != b ==> (if a & 1 == 1 { (a >> 1) ^ 0xEDB8_8320 } else { a >> 1 }) != (if b & 1 == 1 {
        (b >> 1) ^ 0xEDB8_8320
    } else {
        b >> 1
    })) by (bit_vector);
}

proof fn lemma_crc_shifted_tells_apart(a: u32, b: u32, n: nat)
    requires
        a != b,
    ensures
        crc_shifted(a, n) != crc_shifted(b, n),
    decreases n,
{
    if n > 0 {
        lemma_crc_shifted_tells_apart(a, b, (n - 1) as nat);
        lemma_crc_shift_tells_apart(
            crc_shifted(a, (n - 1) as nat),
            crc_shifted(b, (n - 1) as nat),
        );
    }
}

proof fn lemma_xor_tells_apart(a: u32, b: u32, c: u32)
    requires
        a != b,
    ensures
        a ^ c != b ^ c,
        c ^ a != c ^ b,
{
    assert(a != b ==> a ^ c != b ^ c && c ^ a != c ^ b) by (bit_vector);
}

proof fn lemma_changed_byte_changes_the_register(data: Seq<u8>, i: int, b: u8)
    requires
        0 <= i < data.len(),
        b != data[i],
    ensures
        crc_register(data.update(i, b)) != crc_register(data),
    decreases data.len(),
{
    let changed = data.update(i, b);
    let front = data.drop_last();
    let last = data.last() as u32;
    if i == data.len() - 1 {
        assert(changed.drop_last() =~= front);
        lemma_xor_tells_apart(b as u32, last, crc_register(front));
    } else {
        assert(changed.drop_last() =~= front.update(i, b));
        lemma_changed_byte_changes_the_register(front, i, b);
        lemma_xor_tells_apart(crc_register(front.update(i, b)), crc_register(front), last);
    }
    lemma_crc_shifted_tells_apart(
        crc_register(changed.drop_last()) ^ (changed.last() as u32),
        crc_register(front) ^ last,
        8,
    );
}

/// Data of which one byte was changed has another checksum.
pub proof fn law_changed_byte_changes_the_checksum(data: Seq<u8>, i: int, b: u8)
    requires
        0 <= i < data.len(),
        b != data[i],
    ensures
        crc32_ieee(data.update(i, b)) != crc32_ieee(data),
{
    lemma_changed_byte_changes_the_register(data, i, b);
    lemma_xor_tells_apart(crc_register(data.update(i, b)), crc_register(data), 0xFFFF_FFFF);
}

/// A record of which one byte of the payload was changed is not read: the checksum
/// that is stored with it and the one of what is there are reported.
pub proof fn law_changed_payload_is_detected(data: Seq<u8>, pos: int, i: int, b: u8)
    requires
        0 <= pos,
        record_at(data, pos) is Ok,
        0 <= i < length_at(data, pos),
        b != data[pos + 8 + i],
    ensures
        record_at(data.update(pos + 8 + i, b), pos) == Err::<Seq<u8>, LogErrorView>(
            LogErrorView::CrcMismatch {
                expected: crc32_ieee(record_at(data, pos)->Ok_0),
                actual: crc32_ieee(record_at(data, pos)->Ok_0.update(i, b)),
            },
        ),
{
    let changed = data.update(pos + 8 + i, b);
    let payload = record_at(data, pos)->Ok_0;
    assert(changed.subrange(pos, pos + 4) =~= data.subrange(pos, pos + 4));
    assert(changed.subrange(pos + 4, pos + 8) =~= data.subrange(pos + 4, pos + 8));
    let end = pos + 8 + length_at(data, pos);
    assert(changed.subrange(pos + 8, end) =~= data.subrange(pos + 8, end).update(i, b));
    law_changed_byte_changes_the_checksum(payload, i, b);
}

/// The bytes of the record that holds `payload`. Of a length that does not fit
/// four bytes the low four are stored.
pub open spec fn record_bytes(payload: Seq<u8>) -> Seq<u8> {
    wire::le_bytes(payload.len(), 4) + wire::le_bytes(crc32_ieee(payload) as nat, 4) + payload
}

/// The bytes of the records that hold `payloads`, one after the other.
pub open spec fn records_bytes(payloads: Seq<Seq<u8>>) -> Seq<u8>
    decreases payloads.len(),
{
    if payloads.len() == 0 {
        Seq::empty()
    } else {
        records_bytes(payloads.drop_last()) + record_bytes(payloads.last())
    }
}

/// The payload length that the header at `pos` gives.
pub open spec fn length_at(data: Seq<u8>, pos: int) -> nat {
    wire::le_value(data.subrange(pos, pos + 4))
}

/// What a read of the record at `pos` gives.
pub open spec fn record_at(data: Seq<u8>, pos: int) -> Result<Seq<u8>, LogErrorView> {
    if pos + 8 > data.len() {
        Err(LogErrorView::CorruptRecord("truncated header"@))
    } else if pos + 8 + length_at(data, pos) > data.len() {
        Err(LogErrorView::CorruptRecord("truncated payload"@))
    } else {
        let payload = data.subrange(pos + 8, pos + 8 + length_at(data, pos));
        checked(payload, wire::le_value(data.subrange(pos + 4, pos + 8)) as u32)
    }
}

/// The position `skip` records after `pos`, as the length fields chain them;
/// nothing if the data ends in a length field that is needed.
pub open spec fn position_after(data: Seq<u8>, pos: int, skip: nat) -> Option<int>
    decreases skip,
{
    if skip == 0 {
        Some(pos)
    } else if pos + 4 > data.len() {
        None
    } else {
        position_after(data, pos + 8 + length_at(data, pos), (skip - 1) as nat)
    }
}

/// How many headers follow each other from `pos` on. A last record whose payload
/// is cut off counts.
pub open spec fn header_count(data: Seq<u8>, pos: int) -> nat
    decreases
        (if 0 <= pos && pos + 8 <= data.len() {
            data.len() - pos
        } else {
            0
        }),
{
    if pos < 0 || pos + 8 > data.len() {
        0
    } else {
        1 + header_count(data, pos + 8 + length_at(data, pos))
    }
}

/// Whether each length fits the four bytes that a record has for it.
pub open spec fn all_short(payloads: Seq<Seq<u8>>) -> bool {
    forall|i: int| 0 <= i < payloads.len() ==> (#[trigger] payloads[i]).len() < 0x1_0000_0000
}

/// Where record `i` starts in `records_bytes(payloads)`.
pub open spec fn position_of(payloads: Seq<Seq<u8>>, i: int) -> int {
    records_bytes(payloads.take(i)).len() as int
}

/// The records in front are a prefix of the bytes.
proof fn lemma_records_prefix(payloads: Seq<Seq<u8>>, i: int)
    requires
        0 <= i <= payloads.len(),
    ensures
        position_of(payloads, i) <= records_bytes(payloads).len(),
        records_bytes(payloads).take(position_of(payloads, i)) == records_bytes(payloads.take(i)),
    decreases payloads.len(),
{
    let data = records_bytes(payloads);
    if i == payloads.len() {
        assert(payloads.take(i) =~= payloads);
        assert(data.take(data.len() as int) =~= data);
    } else {
        let front = payloads.drop_last();
        lemma_records_prefix(front, i);
        assert(front.take(i) =~= payloads.take(i));
        assert(data.take(position_of(payloads, i)) =~= records_bytes(front).take(
            position_of(payloads, i),
        ));
    }
}

/// Each record stands at its position, and a read there gives its payload.
pub proof fn lemma_record_stands(payloads: Seq<Seq<u8>>, i: int)
    requires
        0 <= i < payloads.len(),
        all_short(payloads),
    ensures
        0 <= position_of(payloads, i),
        position_of(payloads, i + 1) == position_of(payloads, i) + 8 + payloads[i].len(),
        position_of(payloads, i + 1) <= records_bytes(payloads).len(),
        length_at(records_bytes(payloads), position_of(payloads, i)) == payloads[i].len(),
        record_at(records_bytes(payloads), position_of(payloads, i)) == Ok::<Seq<u8>, LogErrorView>(
            payloads[i],
        ),
{
    let data = records_bytes(payloads);
    let p = position_of(payloads, i);
    let payload = payloads[i];
    let upto = payloads.take(i + 1);
    lemma_records_prefix(payloads, i + 1);
    assert(upto.drop_last() =~= payloads.take(i));
    assert(upto.last() == payload);
    let record = record_bytes(payload);
    wire::lemma_le_bytes_len(payload.len(), 4);
    wire::lemma_le_bytes_len(crc32_ieee(payload) as nat, 4);
    let end = position_of(payloads, i + 1);
    assert(data.take(end) == records_bytes(payloads.take(i)) + record);
    let stands = data.subrange(p, end);
    assert(stands =~= data.take(end).skip(p));
    assert(stands =~= record);
    wire::lemma_le_ranges();
    assert(record.subrange(0, 4) =~= wire::le_bytes(payload.len(), 4));
    assert(data.subrange(p, p + 4) =~= stands.subrange(0, 4));
    wire::lemma_le_value_of_bytes(payload.len(), 4);
    assert(record.subrange(4, 8) =~= wire::le_bytes(crc32_ieee(payload) as nat, 4));
    assert(data.subrange(p + 4, p + 8) =~= stands.subrange(4, 8));
    wire::lemma_le_value_of_bytes(crc32_ieee(payload) as nat, 4);
    assert(record.skip(8) =~= payload);
    assert(data.subrange(p + 8, p + 8 + payload.len()) =~= stands.skip(8));
}

/// The chain of length fields leads from each record to those after it.
pub proof fn lemma_position_after(payloads: Seq<Seq<u8>>, i: int, skip: nat)
    requires
        0 <= i,
        i + skip <= payloads.len(),
        all_short(payloads),
    ensures
        position_after(records_bytes(payloads), position_of(payloads, i), skip) == Some(
            position_of(payloads, i + skip),
        ),
    decreases skip,
{
    if skip > 0 {
        lemma_record_stands(payloads, i);
        lemma_position_after(payloads, i + 1, (skip - 1) as nat);
    }
}

/// Following the headers finds every record and ends with the data.
pub proof fn lemma_headers_of_records(payloads: Seq<Seq<u8>>, i: int)
    requires
        0 <= i <= payloads.len(),
        all_short(payloads),
    ensures
        header_count(records_bytes(payloads), position_of(payloads, i)) == payloads.len() - i,
    decreases payloads.len() - i,
{
    if i < payloads.len() {
        lemma_record_stands(payloads, i);
        lemma_headers_of_records(payloads, i + 1);
    } else {
        assert(payloads.take(i) =~= payloads);
    }
}

/// Appends the record that holds `payload`.
pub fn push_record(buf: &mut Vec<u8>, payload: &[u8])
    ensures
        final(buf)@ == old(buf)@ + record_bytes(payload@),
{
    put_le(buf, payload.len() as u64, 4);
    put_le(buf, crc32(payload) as u64, 4);
    buf.extend_from_slice(payload);
    assert(buf@ =~= old(buf)@ + record_bytes(payload@));
}

/// Where a read of a record in a data file stands.
#[derive(Debug, Clone, Copy)]
pub enum Cursor {
    /// At a record, with so many more to skip.
    Seek { pos: u64, skip: u64 },
    /// At a payload, of which the header gave the length and the checksum.
    Payload { pos: u64, length: u32, stored: u32 },
}

/// What came of reading bytes at a position of a data file.
#[derive(Debug)]
pub enum Chunk {
    /// The bytes that were asked for; fewer only where the file ends.
    Bytes(Vec<u8>),
    /// The position could not be gone to; the text is the system's.
    SeekFailed(String),
    /// The bytes could not be read; the text is the system's.
    ReadFailed(String),
}

/// A `Chunk` with its bytes and texts as sequences.
pub enum ChunkView {
    Bytes(Seq<u8>),
    SeekFailed(Seq<char>),
    ReadFailed(Seq<char>),
}

impl View for Chunk {
    type V = ChunkView;

    open spec fn view(&self) -> ChunkView {
        match self {
            Chunk::Bytes(bytes) => ChunkView::Bytes(bytes@),
            Chunk::SeekFailed(text) => ChunkView::SeekFailed(text@),
            Chunk::ReadFailed(text) => ChunkView::ReadFailed(text@),
        }
    }
}

/// How a read goes on.
#[derive(Debug)]
pub enum Progress {
    /// From here.
    Next(Cursor),
    /// It is through, with this outcome.
    Done(Result<Vec<u8>, LogError>),
}

/// A `Progress` with its outcome by its views.
pub enum ProgressView {
    Next(Cursor),
    Done(Result<Seq<u8>, LogErrorView>),
}

impl View for Progress {
    type V = ProgressView;

    open spec fn view(&self) -> ProgressView {
        match self {
            Progress::Next(cursor) => ProgressView::Next(*cursor),
            Progress::Done(r) => ProgressView::Done(super::outcome(*r)),
        }
    }
}

impl ProgressView {
    /// Whether the read has this outcome where the file holds `data`.
    pub open spec fn leads_to(self, data: Seq<u8>, r: Result<Seq<u8>, LogErrorView>) -> bool {
        match self {
            ProgressView::Next(cursor) => cursor.outcome_on(data) == r,
            ProgressView::Done(done) => done == r,
        }
    }
}

/// The end of a read that finds a record damaged.
pub open spec fn corrupt(text: Seq<char>) -> ProgressView {
    ProgressView::Done(Err(LogErrorView::CorruptRecord(text)))
}

/// The end of a read that the system refuses.
pub open spec fn failed(text: Seq<char>) -> ProgressView {
    ProgressView::Done(Err(LogErrorView::Io(text)))
}

/// The outcome of reading a payload under its checksum.
pub open spec fn checked(payload: Seq<u8>, stored: u32) -> Result<Seq<u8>, LogErrorView> {
    if crc32_ieee(payload) != stored {
        Err(LogErrorView::CrcMismatch { expected: stored, actual: crc32_ieee(payload) })
    } else {
        Ok(payload)
    }
}

impl Cursor {
    /// The position from which bytes are needed.
    pub open spec fn position(self) -> u64 {
        match self {
            Cursor::Seek { pos, skip } => pos,
            Cursor::Payload { pos, length, stored } => pos,
        }
    }

    /// How many bytes are needed: a length to skip a record by, a whole header, or
    /// the payload.
    pub open spec fn wanted(self) -> nat {
        match self {
            Cursor::Seek { pos, skip } => if skip > 0 {
                4
            } else {
                8
            },
            Cursor::Payload { pos, length, stored } => length as nat,
        }
    }

    /// How the read goes on after `chunk`.
    pub open spec fn after(self, chunk: ChunkView) -> ProgressView {
        match (self, chunk) {
            (_, ChunkView::SeekFailed(text)) => failed(text),
            (Cursor::Seek { pos, skip }, ChunkView::ReadFailed(text)) => if skip > 0 {
                corrupt("truncated during scan"@)
            } else {
                failed(text)
            },
            (Cursor::Payload { pos, length, stored }, ChunkView::ReadFailed(text)) => failed(text),
            (Cursor::Seek { pos, skip }, ChunkView::Bytes(bytes)) => if skip > 0 {
                if bytes.len() < 4 {
                    corrupt("truncated during scan"@)
                } else {
                    ProgressView::Next(
                        Cursor::Seek {
                            pos: (pos + 8 + length_at(bytes, 0)) as u64,
                            skip: (skip - 1) as u64,
                        },
                    )
                }
            } else if bytes.len() < 8 {
                corrupt("truncated header"@)
            } else {
                ProgressView::Next(
                    Cursor::Payload {
                        pos: (pos + 8) as u64,
                        length: length_at(bytes, 0) as u32,
                        stored: length_at(bytes, 4) as u32,
                    },
                )
            },
            (Cursor::Payload { pos, length, stored }, ChunkView::Bytes(bytes)) => if bytes.len()
                < length {
                corrupt("truncated payload"@)
            } else {
                ProgressView::Done(checked(bytes, stored))
            },
        }
    }

    /// The outcome of the whole read where the file holds `data`.
    pub open spec fn outcome_on(self, data: Seq<u8>) -> Result<Seq<u8>, LogErrorView> {
        match self {
            Cursor::Seek { pos, skip } => match position_after(data, pos as int, skip as nat) {
                Some(p) => record_at(data, p),
                None => Err(LogErrorView::CorruptRecord("truncated during scan"@)),
            },
            Cursor::Payload { pos, length, stored } => if self.chunk_of(data).len() < length {
                Err(LogErrorView::CorruptRecord("truncated payload"@))
            } else {
                checked(self.chunk_of(data), stored)
            },
        }
    }

    /// What a file that holds `data` gives where bytes are needed.
    pub open spec fn chunk_of(self, data: Seq<u8>) -> Seq<u8> {
        let start = self.position() as int;
        if start > data.len() {
            Seq::empty()
        } else if start + self.wanted() > data.len() {
            data.skip(start)
        } else {
            data.subrange(start, start + self.wanted())
        }
    }

    /// The position from which bytes are needed, and how many.
    pub fn request(&self) -> (r: (u64, usize))
        ensures
            r.0 == self.position(),
            r.1 == self.wanted(),
    {
        match self {
            Cursor::Seek { pos, skip } => if *skip > 0 {
                (*pos, 4)
            } else {
                (*pos, 8)
            },
            Cursor::Payload { pos, length, stored: _ } => (*pos, *length as usize),
        }
    }

    /// Goes on with what was read. Bytes can only have been read from a position
    /// that a file can have.
    pub fn take(self, chunk: Chunk) -> (progress: Progress)
        requires
            chunk@ matches ChunkView::Bytes(bytes) ==> bytes.len() <= self.wanted()
                && self.position() <= i64::MAX,
        ensures
            progress@ == self.after(chunk@),
    {
        proof {
            wire::lemma_le_ranges();
        }
        let bytes: Vec<u8> = match chunk {
            Chunk::Bytes(bytes) => bytes,
            Chunk::SeekFailed(text) => {
                return Progress::Done(Err(LogError::Io(text)));
            },
            Chunk::ReadFailed(text) => {
                return match self {
                    Cursor::Seek { pos: _, skip } => if skip > 0 {
                        Progress::Done(Err(corrupt_record("truncated during scan")))
                    } else {
                        Progress::Done(Err(LogError::Io(text)))
                    },
                    _ => Progress::Done(Err(LogError::Io(text))),
                };
            },
        };
        match self {
            Cursor::Seek { pos, skip } => if skip > 0 {
                if bytes.len() < 4 {
                    return Progress::Done(Err(corrupt_record("truncated during scan")));
                }
                let length: u64 = get_le(bytes.as_slice(), 0, 4);
                Progress::Next(Cursor::Seek { pos: pos + HEADER_SIZE + length, skip: skip - 1 })
            } else {
                if bytes.len() < 8 {
                    return Progress::Done(Err(corrupt_record("truncated header")));
                }
                let length: u32 = get_le(bytes.as_slice(), 0, 4) as u32;
                let stored: u32 = get_le(bytes.as_slice(), 4, 4) as u32;
                Progress::Next(Cursor::Payload { pos: pos + HEADER_SIZE, length, stored })
            },
            Cursor::Payload { pos: _, length, stored } => {
                if (bytes.len() as u64) < length as u64 {
                    return Progress::Done(Err(corrupt_record("truncated payload")));
                }
                let actual: u32 = crc32(bytes.as_slice());
                if actual != stored {
                    return Progress::Done(
                        Err(LogError::CrcMismatch { expected: stored, actual }),
                    );
                }
                Progress::Done(Ok(bytes))
            },
        }
    }
}

fn corrupt_record(text: &str) -> (e: LogError)
    ensures
        e@ == LogErrorView::CorruptRecord(text@),
{
    LogError::CorruptRecord(String::from_str(text))
}

/// The position from which `skip` records are to be skipped.
pub fn scan_to(start_file_pos: u64, skip: u64) -> (cursor: Cursor)
    ensures
        cursor == (Cursor::Seek { pos: start_file_pos, skip }),
{
    Cursor::Seek { pos: start_file_pos, skip }
}

/// Reading a file step by step has the outcome that the bytes in it call for: each
/// step keeps it, and the last one gives it.
pub proof fn law_read_step_keeps_the_outcome(cursor: Cursor, data: Seq<u8>)
    requires
        data.len() <= i64::MAX,
    ensures
        cursor.after(ChunkView::Bytes(cursor.chunk_of(data))).leads_to(
            data,
            cursor.outcome_on(data),
        ),
{
    wire::lemma_le_ranges();
    let bytes = cursor.chunk_of(data);
    match cursor {
        Cursor::Seek { pos, skip } => {
            let p = pos as int;
            if skip > 0 {
                if p + 4 <= data.len() {
                    assert(bytes.subrange(0, 4) =~= data.subrange(p, p + 4));
                    wire::lemma_le_bytes_of_value(data.subrange(p, p + 4));
                    let next = Cursor::Seek {
                        pos: (pos + 8 + length_at(data, p)) as u64,
                        skip: (skip - 1) as u64,
                    };
                    assert(cursor.after(ChunkView::Bytes(bytes)) == ProgressView::Next(next));
                    assert(next.outcome_on(data) == cursor.outcome_on(data));
                } else {
                    assert(bytes.len() < 4);
                    assert(position_after(data, p, skip as nat) is None);
                }
            } else if p + 8 <= data.len() {
                assert(bytes.subrange(0, 4) =~= data.subrange(p, p + 4));
                assert(bytes.subrange(4, 8) =~= data.subrange(p + 4, p + 8));
                wire::lemma_le_bytes_of_value(data.subrange(p, p + 4));
                wire::lemma_le_bytes_of_value(data.subrange(p + 4, p + 8));
                let next = Cursor::Payload {
                    pos: (pos + 8) as u64,
                    length: length_at(data, p) as u32,
                    stored: length_at(data, p + 4) as u32,
                };
                assert(cursor.after(ChunkView::Bytes(bytes)) == ProgressView::Next(next));
                assert(next.outcome_on(data) == cursor.outcome_on(data));
            } else {
                assert(bytes.len() < 8);
                assert(position_after(data, p, 0) == Some(p));
            }
        },
        Cursor::Payload { pos, length, stored } => {},
    }
}

/// The outcome of a read that is carried through on a file that holds `data`.
pub open spec fn read_through(cursor: Cursor, data: Seq<u8>, steps: nat) -> Option<
    Result<Seq<u8>, LogErrorView>,
>
    decreases steps,
{
    if steps == 0 {
        None
    } else {
        match cursor.after(ChunkView::Bytes(cursor.chunk_of(data))) {
            ProgressView::Next(next) => read_through(next, data, (steps - 1) as nat),
            ProgressView::Done(r) => Some(r),
        }
    }
}

/// A read is through after as many steps as there are records to skip and two more,
/// and has the outcome that the bytes in the file call for.
pub proof fn law_read_comes_to_its_outcome(cursor: Cursor, data: Seq<u8>)
    requires
        data.len() <= i64::MAX,
    ensures
        ({
            let steps = match cursor {
                Cursor::Seek { pos, skip } => skip as nat + 2,
                Cursor::Payload { pos, length, stored } => 1nat,
            };
            read_through(cursor, data, steps) == Some(cursor.outcome_on(data))
        }),
    decreases
            (match cursor {
                Cursor::Seek { pos, skip } => skip as nat + 1,
                Cursor::Payload { pos, length, stored } => 0nat,
            }),
{
    law_read_step_keeps_the_outcome(cursor, data);
    match cursor.after(ChunkView::Bytes(cursor.chunk_of(data))) {
        ProgressView::Next(next) => {
            law_read_comes_to_its_outcome(next, data);
        },
        ProgressView::Done(r) => {},
    }
}

/// Follows the headers from the start of the data: how many there are.
pub fn count_records(data: &[u8]) -> (count: u64)
    requires
        data@.len() <= i64::MAX,
    ensures
        count == header_count(data@, 0),
{
    let mut pos: u64 = 0;
    let mut count: u64 = 0;
    proof {
        wire::lemma_le_ranges();
    }
    while pos <= data.len() as u64 && (data.len() as u64) - pos >= HEADER_SIZE
        invariant
            data@.len() <= i64::MAX,
            wire::le_range(4) == 0x1_0000_0000,
            count <= pos,
            pos <= data@.len() + 0x1_0000_0007,
            header_count(data@, 0) == count + header_count(data@, pos as int),
        decreases data@.len() + 0x1_0000_0008 - pos,
    {
        let length: u64 = get_le(data, pos as usize, 4);
        pos = pos + HEADER_SIZE + length;
        count = count + 1;
    }
    count
}

} // verus!
