//! The sparse offset index of a segment.

use vstd::prelude::*;

use crate::wire;
use crate::wire::{get_le, put_le};

verus! {

/// Sparse offset index.
///
/// Every `interval`-th record of the segment has an entry: its logical offset
/// and the position of its first byte in the data file.
pub struct Index {
    entries: Vec<(u64, u64)>,
    interval: u64,
}

/// An index with its entries as a sequence.
#[verifier::ext_equal]
pub struct IndexView {
    pub entries: Seq<(u64, u64)>,
    pub interval: u64,
}

impl View for Index {
    type V = IndexView;

    closed spec fn view(&self) -> IndexView {
        IndexView { entries: self.entries@, interval: self.interval }
    }
}

/// The entry in the sixteen bytes of an index file from `pos` on: eight for the
/// offset and eight for the position, little-endian.
pub open spec fn entry_at(buf: Seq<u8>, pos: int) -> (u64, u64) {
    (
        wire::le_value(buf.subrange(pos, pos + 8)) as u64,
        wire::le_value(buf.subrange(pos + 8, pos + 16)) as u64,
    )
}

/// The entries of an index file. An incomplete last one is left out.
pub open spec fn entries_of(buf: Seq<u8>) -> Seq<(u64, u64)> {
    Seq::new(buf.len() / 16, |i: int| entry_at(buf, 16 * i))
}

/// The bytes of an index file with these entries.
pub open spec fn entries_bytes(entries: Seq<(u64, u64)>) -> Seq<u8>
    decreases entries.len(),
{
    if entries.len() == 0 {
        Seq::empty()
    } else {
        entries_bytes(entries.drop_last()) + wire::le_bytes(entries.last().0 as nat, 8)
            + wire::le_bytes(entries.last().1 as nat, 8)
    }
}

/// Whether the logical offsets never decrease from entry to entry.
pub open spec fn in_order(entries: Seq<(u64, u64)>) -> bool {
    forall|i: int, j: int|
        0 <= i <= j < entries.len() ==> (#[trigger] entries[i]).0 <= (#[trigger] entries[j]).0
}

impl IndexView {
    /// The index over an index file with the given bytes.
    pub open spec fn opened(buf: Seq<u8>, interval: u64) -> IndexView {
        IndexView { entries: entries_of(buf), interval }
    }

    /// Whether the record at this place in the segment gets an entry.
    pub open spec fn takes(self, record_index: u64) -> bool {
        if self.interval == 0 {
            record_index == 0
        } else {
            record_index % self.interval == 0
        }
    }

    /// The index after it was told of a record.
    pub open spec fn told(self, record_index: u64, logical_offset: u64, file_pos: u64) -> IndexView {
        if self.takes(record_index) {
            IndexView { entries: self.entries.push((logical_offset, file_pos)), ..self }
        } else {
            self
        }
    }

    /// The entry in front of the place where a bisection for `target` ends.
    pub open spec fn found(self, target: u64) -> Option<(u64, u64)> {
        let place = bisected(self.entries, target, 0, self.entries.len() as int);
        if place <= 0 {
            None
        } else {
            Some(self.entries[place - 1])
        }
    }
}

/// Whether `found` is the entry for a record at or before `target`: in an index that
/// is in order the last such entry, and none only if every entry is for a later record.
pub open spec fn is_last_upto(
    entries: Seq<(u64, u64)>,
    target: u64,
    found: Option<(u64, u64)>,
) -> bool {
    match found {
        Some(e) => e.0 <= target && exists|i: int|
            0 <= i < entries.len() && #[trigger] entries[i] == e && (in_order(entries)
                ==> forall|j: int| i < j < entries.len() ==> target < entries[j].0),
        None => in_order(entries) ==> forall|j: int|
            0 <= j < entries.len() ==> target < (#[trigger] entries[j]).0,
    }
}

/// The place from which on entries are for offsets larger than `target`, found by
/// halving what is left between `low` and `high`.
pub open spec fn bisected(entries: Seq<(u64, u64)>, target: u64, low: int, high: int) -> int
    decreases high - low,
{
    if low >= high {
        low
    } else {
        let mid = low + (high - low) / 2;
        if entries[mid].0 <= target {
            bisected(entries, target, mid + 1, high)
        } else {
            bisected(entries, target, low, mid)
        }
    }
}

proof fn lemma_bisected(entries: Seq<(u64, u64)>, target: u64, low: int, high: int)
    requires
        0 <= low <= high <= entries.len(),
        0 < low ==> entries[low - 1].0 <= target,
        high < entries.len() ==> target < entries[high].0,
    ensures
        ({
            let place = bisected(entries, target, low, high);
            &&& low <= place <= high
            &&& 0 < place ==> entries[place - 1].0 <= target
            &&& place < entries.len() ==> target < entries[place].0
        }),
    decreases high - low,
{
    if low < high {
        let mid = low + (high - low) / 2;
        if entries[mid].0 <= target {
            lemma_bisected(entries, target, mid + 1, high);
        } else {
            lemma_bisected(entries, target, low, mid);
        }
    }
}

/// A lookup gives an entry of the index whose offset is no larger than the target,
/// or none. In an index that is in order it is the last such entry, and there is
/// none only if every offset is larger.
pub proof fn law_lookup_finds_the_largest(index: IndexView, target: u64)
    ensures
        is_last_upto(index.entries, target, index.found(target)),
{
    let n = index.entries.len() as int;
    lemma_bisected(index.entries, target, 0, n);
    let place = bisected(index.entries, target, 0, n);
    if 0 < place {
        assert(index.entries[place - 1] == index.found(target)->0);
    }
}

proof fn lemma_entries_bytes_len(entries: Seq<(u64, u64)>)
    ensures
        entries_bytes(entries).len() == 16 * entries.len(),
    decreases entries.len(),
{
    if entries.len() > 0 {
        lemma_entries_bytes_len(entries.drop_last());
        wire::lemma_le_bytes_len(entries.last().0 as nat, 8);
        wire::lemma_le_bytes_len(entries.last().1 as nat, 8);
    }
}

/// An index that was written is read back with the same entries, whatever its
/// interval then: it is as long as it was, and every lookup gives what it gave.
pub proof fn law_flushed_index_reopens(index: IndexView, interval: u64, target: u64)
    ensures
        IndexView::opened(entries_bytes(index.entries), interval).entries == index.entries,
        IndexView::opened(entries_bytes(index.entries), interval).found(target) == index.found(
            target,
        ),
{
    lemma_entries_read_back(index.entries);
}

/// An index file that was written gives back its entries when it is read.
pub proof fn lemma_entries_read_back(entries: Seq<(u64, u64)>)
    ensures
        entries_of(entries_bytes(entries)) == entries,
    decreases entries.len(),
{
    lemma_entries_bytes_len(entries);
    if entries.len() > 0 {
        let front = entries.drop_last();
        let buf = entries_bytes(entries);
        let before = entries_bytes(front);
        lemma_entries_bytes_len(front);
        lemma_entries_read_back(front);
        let n = (entries.len() - 1) as int;
        let (offset, pos) = entries.last();
        wire::lemma_le_bytes_len(offset as nat, 8);
        wire::lemma_le_bytes_len(pos as nat, 8);
        wire::lemma_le_ranges();
        wire::lemma_le_value_of_bytes(offset as nat, 8);
        wire::lemma_le_value_of_bytes(pos as nat, 8);
        assert(buf.subrange(16 * n, 16 * n + 8) =~= wire::le_bytes(offset as nat, 8));
        assert(buf.subrange(16 * n + 8, 16 * n + 16) =~= wire::le_bytes(pos as nat, 8));
        assert forall|i: int| 0 <= i < n implies entry_at(buf, 16 * i) == entries[i] by {
            assert(entries_of(before)[i] == front[i]);
            assert(buf.subrange(16 * i, 16 * i + 8) =~= before.subrange(16 * i, 16 * i + 8));
            assert(buf.subrange(16 * i + 8, 16 * i + 16) =~= before.subrange(
                16 * i + 8,
                16 * i + 16,
            ));
        }
    }
    assert(entries_of(entries_bytes(entries)) =~= entries);
}

impl Index {
    /// The index over an index file that holds `buf`; a missing file counts as an
    /// empty one.
    pub fn open(buf: &[u8], interval: u64) -> (index: Index)
        ensures
            index@ == IndexView::opened(buf@, interval),
    {
        let mut entries: Vec<(u64, u64)> = Vec::new();
        let count: usize = buf.len() / 16;
        let mut i: usize = 0;
        proof {
            wire::lemma_le_ranges();
        }
        while i < count
            invariant
                count == buf@.len() / 16,
                i <= count,
                16 * count <= usize::MAX,
                wire::le_range(8) == 0x1_0000_0000_0000_0000,
                entries@.len() == i,
                forall|k: int| 0 <= k < i ==> entries@[k] == entry_at(buf@, 16 * k),
            decreases count - i,
        {
            let offset: u64 = get_le(buf, 16 * i, 8);
            let file_pos: u64 = get_le(buf, 16 * i + 8, 8);
            entries.push((offset, file_pos));
            i = i + 1;
        }
        assert(entries@ =~= entries_of(buf@));
        Index { entries, interval }
    }

    /// Called after every append so the index can decide whether to record this
    /// entry. `record_index` is the 0-based position of the record within the
    /// segment.
    pub fn maybe_record(&mut self, record_index: u64, logical_offset: u64, file_pos: u64)
        ensures
            final(self)@ == old(self)@.told(record_index, logical_offset, file_pos),
    {
        let due: bool = if self.interval == 0 {
            record_index == 0
        } else {
            record_index % self.interval == 0
        };
        if due {
            self.entries.push((logical_offset, file_pos));
        }
    }

    /// The entry whose logical offset is the largest value not above `target`.
    /// There is none where every entry is for a later record, and in an empty
    /// index.
    pub fn lookup(&self, target: u64) -> (found: Option<(u64, u64)>)
        ensures
            is_last_upto(self@.entries, target, found),
            found == self@.found(target),
    {
        let mut low: usize = 0;
        let mut high: usize = self.entries.len();
        while low < high
            invariant
                low <= high <= self.entries@.len(),
                bisected(self.entries@, target, low as int, high as int) == bisected(
                    self.entries@,
                    target,
                    0,
                    self.entries@.len() as int,
                ),
            decreases high - low,
        {
            let mid: usize = low + (high - low) / 2;
            if self.entries[mid].0 <= target {
                low = mid + 1;
            } else {
                high = mid;
            }
        }
        proof {
            law_lookup_finds_the_largest(self@, target);
        }
        if low == 0 {
            None
        } else {
            Some(self.entries[low - 1])
        }
    }

    /// The bytes of the index file.
    pub fn flush(&self) -> (buf: Vec<u8>)
        ensures
            buf@ == entries_bytes(self@.entries),
    {
        let mut buf: Vec<u8> = Vec::new();
        let mut i: usize = 0;
        assert(self.entries@.take(0) =~= Seq::<(u64, u64)>::empty());
        while i < self.entries.len()
            invariant
                i <= self.entries@.len(),
                buf@ == entries_bytes(self.entries@.take(i as int)),
            decreases self.entries@.len() - i,
        {
            let entry: (u64, u64) = self.entries[i];
            put_le(&mut buf, entry.0, 8);
            put_le(&mut buf, entry.1, 8);
            assert(self.entries@.take(i + 1).drop_last() =~= self.entries@.take(i as int));
            i = i + 1;
        }
        assert(self.entries@.take(i as int) =~= self.entries@);
        buf
    }

    /// Number of entries.
    pub fn len(&self) -> (n: usize)
        ensures
            n == self@.entries.len(),
    {
        self.entries.len()
    }

    /// Whether there is no entry.
    pub fn is_empty(&self) -> (b: bool)
        ensures
            b == (self@.entries.len() == 0),
    {
        self.entries.is_empty()
    }
}

} // verus!
