//! A segment: a run of consecutive records in one data file.

use vstd::prelude::*;

use super::directory;
use super::directory::seg_path;
use super::record;
use super::record::{count_records, Cursor, HEADER_SIZE};

verus! {

/// A run of consecutive records. The records themselves are in the data file.
pub struct Segment {
    /// The first logical offset stored in this segment.
    pub base_offset: u64,
    /// The next offset to be assigned (base_offset + record count).
    pub next_offset: u64,
    /// Current write position in the data file (bytes).
    pub file_pos: u64,
    pub max_bytes: u64,
    /// The bytes that the data file holds if nobody else writes to it.
    pub data: Ghost<Seq<u8>>,
}

/// A segment with the bytes of its data file.
#[verifier::ext_equal]
pub struct SegmentView {
    pub base_offset: u64,
    pub next_offset: u64,
    pub file_pos: u64,
    pub data: Seq<u8>,
    pub max_bytes: u64,
}

impl View for Segment {
    type V = SegmentView;

    open spec fn view(&self) -> SegmentView {
        SegmentView {
            base_offset: self.base_offset,
            next_offset: self.next_offset,
            file_pos: self.file_pos,
            data: self.data@,
            max_bytes: self.max_bytes,
        }
    }
}

impl SegmentView {
    /// What every segment keeps.
    pub open spec fn wf(self) -> bool {
        self.base_offset <= self.next_offset
    }

    /// The segment over a data file with the given bytes, none of them read yet.
    pub open spec fn fresh(data: Seq<u8>, base_offset: u64, max_bytes: u64) -> SegmentView {
        SegmentView {
            base_offset,
            next_offset: base_offset,
            file_pos: data.len() as u64,
            data,
            max_bytes,
        }
    }

    /// The segment once the headers in its file have been followed. A last record
    /// whose payload is cut off keeps its offset; the next record goes to the end of
    /// the file in any case.
    pub open spec fn recovered(self) -> SegmentView {
        SegmentView {
            next_offset: (self.base_offset + record::header_count(self.data, 0)) as u64,
            file_pos: self.data.len() as u64,
            ..self
        }
    }

    /// Whether one more record with this payload stays within the bounds of
    /// offsets and of positions.
    pub open spec fn room_for(self, payload: Seq<u8>) -> bool {
        &&& self.next_offset < u64::MAX
        &&& self.file_pos + 8 + payload.len() % 0x1_0000_0000 <= u64::MAX
    }

    /// The segment with one more record. The write position moves by the length
    /// that the record's header gives.
    pub open spec fn appended(self, payload: Seq<u8>) -> SegmentView {
        SegmentView {
            next_offset: (self.next_offset + 1) as u64,
            file_pos: (self.file_pos + 8 + payload.len() % 0x1_0000_0000) as u64,
            data: self.data + record::record_bytes(payload),
            ..self
        }
    }

    /// Whether the segment takes no more records.
    pub open spec fn full(self) -> bool {
        self.file_pos >= self.max_bytes
    }

    /// Where a read of the record at `offset` starts: at the index entry `start`, or
    /// at the first record if there is none.
    pub open spec fn cursor_from(self, start: Option<(u64, u64)>, offset: u64) -> Cursor {
        match start {
            Some((indexed, file_pos)) => Cursor::Seek {
                pos: file_pos,
                skip: (offset - indexed) as u64,
            },
            None => Cursor::Seek { pos: 0, skip: (offset - self.base_offset) as u64 },
        }
    }
}

impl Segment {
    /// The segment over a data file that holds `data`. `base_offset` is the
    /// logical offset of the first record.
    pub fn open(data: &[u8], base_offset: u64, max_bytes: u64) -> (segment: Segment)
        ensures
            segment@ == SegmentView::fresh(data@, base_offset, max_bytes),
            segment@.wf(),
    {
        let file_pos: u64 = data.len() as u64;
        Segment {
            base_offset,
            next_offset: base_offset,
            file_pos,
            max_bytes,
            data: Ghost(data@),
        }
    }

    /// Follows the records in the data file, which holds `data`, to restore
    /// `next_offset` and `file_pos`. A last record whose payload is cut off keeps its
    /// offset. What is appended behind it is found where an index entry leads to it;
    /// a scan over the damaged record goes by the length that its header claims.
    pub fn recover(&mut self, data: &[u8])
        requires
            data@.len() <= i64::MAX,
            old(self)@.base_offset + record::header_count(data@, 0) <= u64::MAX,
        ensures
            final(self)@ == (SegmentView { data: data@, ..old(self)@ }).recovered(),
            final(self)@.wf(),
    {
        let count: u64 = count_records(data);
        self.file_pos = data.len() as u64;
        self.next_offset = self.base_offset + count;
        self.data = Ghost(data@);
    }

    /// Counts in a record that was written at the end of the data file. Returns the
    /// logical offset assigned to it.
    pub fn append(&mut self, payload: &[u8]) -> (offset: u64)
        requires
            old(self)@.wf(),
            old(self)@.room_for(payload@),
        ensures
            offset == old(self)@.next_offset,
            final(self)@ == old(self)@.appended(payload@),
            final(self)@.wf(),
    {
        let offset: u64 = self.next_offset;
        self.next_offset = self.next_offset + 1;
        self.file_pos = self.file_pos + HEADER_SIZE + payload.len() as u64 % 0x1_0000_0000;
        self.data = Ghost(self.data@ + record::record_bytes(payload@));
        offset
    }

    /// Begins to read the record at `file_position` (bytes from the start of the
    /// data file).
    pub fn read_at(&self, file_position: u64) -> (cursor: Cursor)
        ensures
            cursor == (Cursor::Seek { pos: file_position, skip: 0 }),
            cursor.outcome_on(self@.data) == record::record_at(
                self@.data,
                file_position as int,
            ),
    {
        Cursor::Seek { pos: file_position, skip: 0 }
    }

    /// True when this segment has no more room for new records.
    pub fn is_full(&self) -> (b: bool)
        ensures
            b == self@.full(),
    {
        self.file_pos >= self.max_bytes
    }

    /// Number of records in this segment.
    pub fn record_count(&self) -> (n: u64)
        requires
            self@.wf(),
        ensures
            n == self@.next_offset - self@.base_offset,
    {
        self.next_offset - self.base_offset
    }

    /// The name of the data file, from which records are read.
    pub fn reader(&self) -> (name: String)
        ensures
            name@ == directory::seg_name(self@.base_offset),
    {
        seg_path(self.base_offset)
    }
}

} // verus!
