//! The layout of a log on disk: its records, its index files and the names of its files.

use vstd::prelude::*;

use super::commit_log;
use super::commit_log::{LogConfig, LogView};
use super::directory;
use super::directory::DirView;
use super::index;
use super::index::IndexView;
use super::record;
use super::record::{ChunkView, Cursor, ProgressView};
use super::segment::SegmentView;
use super::LogErrorView;
use crate::number_laws;
use crate::text;
use crate::wire;

verus! {

/// The layout of a record: the length of the payload in four bytes, its checksum in four
/// bytes, and the payload.
pub proof fn law_record_layout(payload: Seq<u8>)
    ensures
        record::record_bytes(payload).len() == 8 + payload.len(),
        record::record_bytes(payload).subrange(0, 4) == wire::le_bytes(payload.len(), 4),
        record::record_bytes(payload).subrange(4, 8) == wire::le_bytes(
            record::crc32_ieee(payload) as nat,
            4,
        ),
        record::record_bytes(payload).skip(8) == payload,
{
    let bytes = record::record_bytes(payload);
    wire::lemma_le_bytes_len(payload.len(), 4);
    wire::lemma_le_bytes_len(record::crc32_ieee(payload) as nat, 4);
    assert(bytes.subrange(0, 4) =~= wire::le_bytes(payload.len(), 4));
    assert(bytes.subrange(4, 8) =~= wire::le_bytes(record::crc32_ieee(payload) as nat, 4));
    assert(bytes.skip(8) =~= payload);
}

/// Records stand one after the other, with nothing between them.
pub proof fn law_records_follow_each_other(payloads: Seq<Seq<u8>>, payload: Seq<u8>)
    ensures
        record::records_bytes(Seq::<Seq<u8>>::empty()) == Seq::<u8>::empty(),
        record::records_bytes(payloads.push(payload)) == record::records_bytes(payloads)
            + record::record_bytes(payload),
{
    assert(payloads.push(payload).drop_last() =~= payloads);
}

/// A record is read exactly where its header and its payload are there and the checksum
/// of the payload is the one in the header; otherwise it is said what is wrong.
pub proof fn law_record_is_read_under_its_checksum(data: Seq<u8>, pos: int)
    requires
        0 <= pos,
    ensures
        ({
            let r = record::record_at(data, pos);
            if pos + 8 > data.len() {
                r == Err::<Seq<u8>, LogErrorView>(
                    LogErrorView::CorruptRecord("truncated header"@),
                )
            } else {
                let len = wire::le_value(data.subrange(pos, pos + 4));
                let sum = wire::le_value(data.subrange(pos + 4, pos + 8));
                if pos + 8 + len > data.len() {
                    r == Err::<Seq<u8>, LogErrorView>(
                        LogErrorView::CorruptRecord("truncated payload"@),
                    )
                } else {
                    let payload = data.subrange(pos + 8, pos + 8 + len);
                    if record::crc32_ieee(payload) == sum {
                        r == Ok::<Seq<u8>, LogErrorView>(payload)
                    } else {
                        r == Err::<Seq<u8>, LogErrorView>(
                            LogErrorView::CrcMismatch {
                                expected: sum as u32,
                                actual: record::crc32_ieee(payload),
                            },
                        )
                    }
                }
            }
        }),
{
    if pos + 8 <= data.len() {
        wire::lemma_le_bytes_of_value(data.subrange(pos + 4, pos + 8));
        wire::lemma_le_ranges();
    }
}

/// What a read does with a fault of the system, and with a file that ends too soon.
pub proof fn law_read_faults(cursor: Cursor, cause: Seq<char>, bytes: Seq<u8>)
    ensures
        cursor.after(ChunkView::SeekFailed(cause)) == ProgressView::Done(
            Err::<Seq<u8>, LogErrorView>(LogErrorView::Io(cause)),
        ),
        match cursor {
            Cursor::Seek { pos, skip } => {
                &&& cursor.position() == pos
                &&& cursor.wanted() == if skip > 0 {
                    4nat
                } else {
                    8nat
                }
                &&& skip > 0 ==> cursor.after(ChunkView::ReadFailed(cause)) == ProgressView::Done(
                    Err::<Seq<u8>, LogErrorView>(
                        LogErrorView::CorruptRecord("truncated during scan"@),
                    ),
                )
                &&& skip == 0 ==> cursor.after(ChunkView::ReadFailed(cause)) == ProgressView::Done(
                    Err::<Seq<u8>, LogErrorView>(LogErrorView::Io(cause)),
                )
                &&& skip > 0 && bytes.len() < 4 ==> cursor.after(ChunkView::Bytes(bytes))
                    == ProgressView::Done(
                    Err::<Seq<u8>, LogErrorView>(
                        LogErrorView::CorruptRecord("truncated during scan"@),
                    ),
                )
                &&& skip == 0 && bytes.len() < 8 ==> cursor.after(ChunkView::Bytes(bytes))
                    == ProgressView::Done(
                    Err::<Seq<u8>, LogErrorView>(
                        LogErrorView::CorruptRecord("truncated header"@),
                    ),
                )
            },
            Cursor::Payload { pos, length, stored } => {
                &&& cursor.position() == pos
                &&& cursor.wanted() == length
                &&& cursor.after(ChunkView::ReadFailed(cause)) == ProgressView::Done(
                    Err::<Seq<u8>, LogErrorView>(LogErrorView::Io(cause)),
                )
                &&& bytes.len() < length ==> cursor.after(ChunkView::Bytes(bytes))
                    == ProgressView::Done(
                    Err::<Seq<u8>, LogErrorView>(
                        LogErrorView::CorruptRecord("truncated payload"@),
                    ),
                )
            },
        },
{
}

/// The layout of an index file: for each entry its offset in eight bytes and its position
/// in eight bytes. What is left behind the last whole entry does not count.
pub proof fn law_index_layout(entries: Seq<(u64, u64)>, i: int, buf: Seq<u8>, k: int)
    ensures
        index::entries_bytes(entries).len() == 16 * entries.len(),
        0 <= i < entries.len() ==> index::entries_bytes(entries).subrange(16 * i, 16 * i + 8)
            == wire::le_bytes(entries[i].0 as nat, 8),
        0 <= i < entries.len() ==> index::entries_bytes(entries).subrange(16 * i + 8, 16 * i + 16)
            == wire::le_bytes(entries[i].1 as nat, 8),
        index::entries_of(buf).len() == buf.len() / 16,
        0 <= k < buf.len() / 16 ==> index::entries_of(buf)[k].0 == wire::le_value(
            buf.subrange(16 * k, 16 * k + 8),
        ),
        0 <= k < buf.len() / 16 ==> index::entries_of(buf)[k].1 == wire::le_value(
            buf.subrange(16 * k + 8, 16 * k + 16),
        ),
    decreases entries.len(),
{
    if 0 <= k < buf.len() / 16 {
        wire::lemma_le_ranges();
        wire::lemma_le_bytes_of_value(buf.subrange(16 * k, 16 * k + 8));
        wire::lemma_le_bytes_of_value(buf.subrange(16 * k + 8, 16 * k + 16));
    }
    if entries.len() > 0 {
        let front = entries.drop_last();
        let n = (entries.len() - 1) as int;
        let bytes = index::entries_bytes(entries);
        let before = index::entries_bytes(front);
        let a = wire::le_bytes(entries.last().0 as nat, 8);
        let b = wire::le_bytes(entries.last().1 as nat, 8);
        wire::lemma_le_bytes_len(entries.last().0 as nat, 8);
        wire::lemma_le_bytes_len(entries.last().1 as nat, 8);
        law_index_layout(front, i, buf, k);
        if 0 <= i < n {
            assert(bytes.subrange(16 * i, 16 * i + 8) =~= before.subrange(16 * i, 16 * i + 8));
            assert(bytes.subrange(16 * i + 8, 16 * i + 16) =~= before.subrange(
                16 * i + 8,
                16 * i + 16,
            ));
        } else if i == n {
            assert(bytes.subrange(16 * i, 16 * i + 8) =~= a);
            assert(bytes.subrange(16 * i + 8, 16 * i + 16) =~= b);
        }
    }
}

/// An index takes an entry for exactly those records whose place in the segment is a
/// multiple of the interval; with an interval of 0, for the first one only.
pub proof fn law_every_nth_record_is_indexed(idx: IndexView, place: u64, offset: u64, pos: u64)
    ensures
        (exists|q: int| q >= 0 && place == #[trigger] (q * idx.interval)) ==> idx.told(
            place,
            offset,
            pos,
        ).entries == idx.entries + seq![(offset, pos)],
        !(exists|q: int| q >= 0 && place == #[trigger] (q * idx.interval)) ==> idx.told(
            place,
            offset,
            pos,
        ).entries == idx.entries,
        idx.told(place, offset, pos).interval == idx.interval,
{
    let d = idx.interval as int;
    let r = place as int;
    assert(idx.entries.push((offset, pos)) =~= idx.entries + seq![(offset, pos)]);
    if d == 0 {
        if r == 0 {
            assert(r == 0 * d);
        } else {
            assert forall|q: int| q >= 0 implies r != #[trigger] (q * d) by {
                assert(q * d == 0) by (nonlinear_arith)
                    requires
                        d == 0,
                ;
            }
        }
    } else {
        vstd::arithmetic::div_mod::lemma_fundamental_div_mod(r, d);
        if r % d == 0 {
            let q = r / d;
            assert(q >= 0) by (nonlinear_arith)
                requires
                    q == r / d,
                    r >= 0,
                    d > 0,
            ;
            assert(r == q * d) by (nonlinear_arith)
                requires
                    r == d * q + 0,
            ;
        } else {
            assert forall|q: int| q >= 0 implies r != #[trigger] (q * d) by {
                if r == q * d {
                    vstd::arithmetic::div_mod::lemma_mod_multiples_basic(q, d);
                }
            }
        }
    }
}

/// The names of a segment's files: its base offset in twenty decimal digits, and `.log` or
/// `.idx`.
pub proof fn law_file_names(base: u64, i: int)
    ensures
        directory::seg_name(base).len() == 24,
        directory::idx_name(base).len() == 24,
        directory::seg_name(base).skip(20) == ".log"@,
        directory::idx_name(base).skip(20) == ".idx"@,
        directory::seg_name(base).take(20) == directory::idx_name(base).take(20),
        0 <= i < 20 ==> 48 <= directory::seg_name(base)[i] as int <= 57,
        number_laws::read_as_decimal(directory::seg_name(base).take(20)) == base,
{
    reveal_strlit(".log");
    reveal_strlit(".idx");
    let digits = text::padded(base as nat, 10, 20);
    text::lemma_padded_decimal(base as nat, 20);
    text::lemma_ten_to_the_twenty();
    assert(directory::seg_name(base).skip(20) =~= ".log"@);
    assert(directory::idx_name(base).skip(20) =~= ".idx"@);
    assert(directory::seg_name(base).take(20) =~= digits);
    assert(directory::idx_name(base).take(20) =~= digits);
    if 0 <= i < 20 {
        assert(text::is_decimal_digit(digits[i]));
    }
    assert forall|k: int| 0 <= k < digits.len() implies 48 <= (#[trigger] digits[k]) as int
        <= 57 by {
        assert(text::is_decimal_digit(digits[k]));
    }
    number_laws::lemma_read_as_decimal(digits);
}

/// Which names are those of data files, and of which segment: a name that ends in `.log`
/// is, if what stands before that is a number of 64 bits; an ending that is repeated counts
/// as one. No other name is.
pub proof fn law_data_file_names(stem: Seq<char>, name: Seq<char>)
    ensures
        (name.len() < 4 || name.skip(name.len() - 4) != ".log"@) ==> directory::segment_base(
            name,
        ) is None,
        (stem.len() < 4 || stem.skip(stem.len() - 4) != ".log"@) ==> directory::segment_base(
            stem + ".log"@,
        ) == text::parsed(stem, 0xFFFF_FFFF_FFFF_FFFF),
        directory::segment_base(stem + ".log"@ + ".log"@) == directory::segment_base(
            stem + ".log"@,
        ),
{
    reveal_strlit(".log");
    let suffix = directory::data_suffix();
    assert(".log"@ =~= suffix);
    let once = stem + suffix;
    let twice = once + suffix;
    assert(once.skip(once.len() - 4) =~= suffix);
    assert(once.take(once.len() - 4) =~= stem);
    assert(twice.skip(twice.len() - 4) =~= suffix);
    assert(twice.take(twice.len() - 4) =~= once);
    assert(directory::stem(twice) == directory::stem(once));
    assert(directory::stem(once) == directory::stem(stem));
}

proof fn lemma_headers_in_front(payloads: Seq<Seq<u8>>, tail: Seq<u8>, i: int)
    requires
        0 <= i <= payloads.len(),
        record::all_short(payloads),
    ensures
        record::header_count(
            record::records_bytes(payloads) + tail,
            record::position_of(payloads, i),
        ) == payloads.len() - i + record::header_count(
            record::records_bytes(payloads) + tail,
            record::records_bytes(payloads).len() as int,
        ),
    decreases payloads.len() - i,
{
    let data = record::records_bytes(payloads);
    if i < payloads.len() {
        record::lemma_record_stands(payloads, i);
        let p = record::position_of(payloads, i);
        assert((data + tail).subrange(p, p + 4) =~= data.subrange(p, p + 4));
        lemma_headers_in_front(payloads, tail, i + 1);
    } else {
        assert(payloads.take(i) =~= payloads);
    }
}

/// Recovery counts the records of a data file, also a last one whose payload is cut off,
/// but not one whose header is; the next record goes to the end of the file.
pub proof fn law_recovery_counts_the_records(
    payloads: Seq<Seq<u8>>,
    tail: Seq<u8>,
    base: u64,
    max_bytes: u64,
)
    requires
        record::all_short(payloads),
        base + payloads.len() < u64::MAX,
        record::records_bytes(payloads).len() + tail.len() <= u64::MAX,
        tail.len() < 8 || 8 + wire::le_value(tail.subrange(0, 4)) > tail.len(),
    ensures
        ({
            let data = record::records_bytes(payloads) + tail;
            let segment = SegmentView::fresh(data, base, max_bytes).recovered();
            &&& segment.base_offset == base
            &&& segment.max_bytes == max_bytes
            &&& segment.file_pos == data.len()
            &&& tail.len() < 8 ==> segment.next_offset == base + payloads.len()
            &&& tail.len() >= 8 ==> segment.next_offset == base + payloads.len() + 1
        }),
{
    let front = record::records_bytes(payloads);
    let data = front + tail;
    let n = front.len() as int;
    lemma_headers_in_front(payloads, tail, 0);
    assert(payloads.take(0) =~= Seq::<Seq<u8>>::empty());
    if tail.len() >= 8 {
        assert(data.subrange(n, n + 4) =~= tail.subrange(0, 4));
        let end = n + 8 + wire::le_value(tail.subrange(0, 4));
        assert(record::header_count(data, end) == 0);
        assert(record::header_count(data, n) == 1);
    }
}

/// A segment that is opened but not recovered starts at its base offset, behind what its
/// file holds.
pub proof fn law_fresh_segment(data: Seq<u8>, base: u64, max_bytes: u64)
    requires
        data.len() <= u64::MAX,
    ensures
        SegmentView::fresh(data, base, max_bytes).base_offset == base,
        SegmentView::fresh(data, base, max_bytes).next_offset == base,
        SegmentView::fresh(data, base, max_bytes).file_pos == data.len(),
        SegmentView::fresh(data, base, max_bytes).max_bytes == max_bytes,
{
}

/// A record moves a segment on by one offset and by its own length.
pub proof fn law_segment_moves_on_by_a_record(segment: SegmentView, payload: Seq<u8>)
    requires
        segment.next_offset < u64::MAX,
        segment.file_pos + 8 + payload.len() <= u64::MAX,
        payload.len() < 0x1_0000_0000,
    ensures
        segment.appended(payload).base_offset == segment.base_offset,
        segment.appended(payload).next_offset == segment.next_offset + 1,
        segment.appended(payload).file_pos == segment.file_pos + record::record_bytes(
            payload,
        ).len(),
        segment.appended(payload).max_bytes == segment.max_bytes,
{
    law_record_layout(payload);
}

/// The write position moves by what the record's header says, also where the length of the
/// payload does not fit it.
pub proof fn law_segment_moves_on_by_the_header(segment: SegmentView, payload: Seq<u8>)
    requires
        segment.file_pos + 8 + u32::MAX <= u64::MAX,
    ensures
        segment.appended(payload).file_pos == segment.file_pos + 8 + record::length_at(
            record::record_bytes(payload),
            0,
        ),
        segment.appended(payload).data == segment.data + record::record_bytes(payload),
{
    let bytes = record::record_bytes(payload);
    wire::lemma_le_bytes_len(payload.len(), 4);
    assert(bytes.subrange(0, 4) =~= wire::le_bytes(payload.len(), 4));
    wire::lemma_le_ranges();
    lemma_low_bytes(payload.len(), 4);
}

proof fn lemma_low_bytes(n: nat, width: nat)
    ensures
        wire::le_range(width) > 0,
        wire::le_value(wire::le_bytes(n, width)) == n % wire::le_range(width),
    decreases width,
{
    if width > 0 {
        let less = (width - 1) as nat;
        lemma_low_bytes(n / 256, less);
        assert(wire::le_bytes(n, width).drop_first() =~= wire::le_bytes(n / 256, less));
        vstd::arithmetic::div_mod::lemma_mod_breakdown(
            n as int,
            256,
            wire::le_range(less) as int,
        );
    }
}

proof fn lemma_headers_are_few(data: Seq<u8>, pos: int)
    requires
        0 <= pos,
    ensures
        pos <= data.len() ==> 8 * record::header_count(data, pos) <= data.len() - pos,
        pos > data.len() ==> record::header_count(data, pos) == 0,
    decreases
            (if pos + 8 <= data.len() {
                data.len() - pos
            } else {
                0
            }),
{
    if pos + 8 <= data.len() {
        lemma_headers_are_few(data, pos + 8 + record::length_at(data, pos));
        let next = pos + 8 + record::length_at(data, pos);
        if next > data.len() {
            assert(record::header_count(data, next) == 0);
        }
    }
}

/// A directory can be opened unless a file is longer than a file can be or offsets run out
/// of 64 bits.
pub proof fn law_ordinary_directories_can_be_opened(dir: DirView)
    requires
        forall|i: int|
            0 <= i < dir.len() ==> (#[trigger] dir[i]).1.len() <= 0x7FFF_FFFF_FFFF_FFFF,
        forall|base: u64| #[trigger]
            directory::listed(dir, base) ==> base + directory::contents_of(
                dir,
                directory::seg_name(base),
            ).len() <= u64::MAX,
    ensures
        commit_log::openable(dir),
{
    assert forall|base: u64| #[trigger] directory::listed(dir, base) implies base
        + record::header_count(directory::contents_of(dir, directory::seg_name(base)), 0)
        <= u64::MAX by {
        lemma_headers_are_few(directory::contents_of(dir, directory::seg_name(base)), 0);
    }
}

/// A log has a segment for each data file of its directory, or one at offset 0 if there is
/// no data file, and no others; its segments and indexes are those of the files of these
/// offsets, with the limit and the interval of the configuration.
pub proof fn law_opened_log_has_the_files(
    log: LogView,
    dir: DirView,
    config: LogConfig,
    i: int,
    base: u64,
)
    requires
        log.opened(dir, config),
    ensures
        (exists|k: int|
            0 <= k < log.segments.len() && (#[trigger] log.segments[k]).0.base_offset == base)
            <==> ((exists|k: int|
            0 <= k < dir.len() && directory::segment_base((#[trigger] dir[k]).0) == Some(
                base as nat,
            )) || (base == 0 && forall|k: int|
            0 <= k < dir.len() ==> directory::segment_base((#[trigger] dir[k]).0) is None)),
        0 <= i < log.segments.len() ==> {
            let pair = log.segments[i];
            let data = directory::contents_of(dir, directory::seg_name(pair.0.base_offset));
            let buf = directory::contents_of(dir, directory::idx_name(pair.0.base_offset));
            &&& pair.0.data == data
            &&& pair.0.next_offset == (pair.0.base_offset + record::header_count(data, 0)) as u64
            &&& pair.0.file_pos == data.len() as u64
            &&& pair.0.max_bytes == config.max_segment_bytes
            &&& pair.1.entries == index::entries_of(buf)
            &&& pair.1.interval == config.index_interval
        },
{
    assert(commit_log::has_segment(dir, base) <==> (exists|k: int|
        0 <= k < log.segments.len() && (#[trigger] log.segments[k]).0.base_offset == base));
    if forall|k: int| 0 <= k < dir.len() ==> directory::segment_base((#[trigger] dir[k]).0) is None {
        assert forall|b: u64| !#[trigger] directory::listed(dir, b) by {}
    } else {
        let k = choose|k: int|
            0 <= k < dir.len() && !(directory::segment_base((#[trigger] dir[k]).0) is None);
        let found = directory::segment_base(dir[k].0)->0;
        number_laws::law_text_is_read_as_decimal(
            directory::stem(dir[k].0),
            u64::MAX as nat,
        );
        assert(found <= u64::MAX);
        assert(directory::listed(dir, found as u64));
    }
}

/// The words for each log error.
pub proof fn law_log_errors_in_words(e: LogErrorView)
    ensures
        match e {
            LogErrorView::Io(cause) => e.message() == "io error: "@ + cause,
            LogErrorView::CrcMismatch { expected, actual } => e.message()
                == "crc mismatch: expected 0x"@ + text::padded(expected as nat, 16, 8)
                + ", got 0x"@ + text::padded(actual as nat, 16, 8),
            LogErrorView::OffsetOutOfRange(offset) => e.message() == "offset "@ + text::decimal(
                offset as nat,
            ) + " is out of range for this log"@,
            LogErrorView::Empty => e.message() == "log is empty"@,
            LogErrorView::CorruptRecord(cause) => e.message() == "corrupt record: "@ + cause,
        },
{
}

} // verus!
