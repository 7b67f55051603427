//! What a commit log promises as a whole: records are read back as they were
//! appended, under consecutive offsets, also after the log was opened again.

use vstd::prelude::*;

use super::commit_log;
use super::commit_log::{LogConfig, LogView};
use super::directory;
use super::directory::DirView;
use super::index;
use super::index::IndexView;
use super::record;
use super::segment::SegmentView;
use super::LogErrorView;

verus! {

/// The payloads of all segments, in order.
pub open spec fn joined(parts: Seq<Seq<Seq<u8>>>) -> Seq<Seq<u8>>
    decreases parts.len(),
{
    if parts.len() == 0 {
        Seq::empty()
    } else {
        joined(parts.drop_last()) + parts.last()
    }
}

/// Whether the segment consists of the records of these payloads.
pub open spec fn segment_holds(seg: SegmentView, payloads: Seq<Seq<u8>>) -> bool {
    &&& record::all_short(payloads)
    &&& seg.data == record::records_bytes(payloads)
    &&& seg.next_offset == seg.base_offset + payloads.len()
    &&& seg.file_pos == seg.data.len()
}

/// Whether each entry is for one of the records and gives its position.
pub open spec fn entries_true(
    base: u64,
    payloads: Seq<Seq<u8>>,
    entries: Seq<(u64, u64)>,
) -> bool {
    &&& index::in_order(entries)
    &&& forall|i: int|
        0 <= i < entries.len() ==> base <= (#[trigger] entries[i]).0 < base + payloads.len()
            && entries[i].1 == record::position_of(payloads, entries[i].0 - base)
}

/// Whether no index file with an entry waits for a segment after `base`.
pub open spec fn no_stray_index(dir: DirView, base: u64) -> bool {
    forall|b: u64|
        base < b ==> index::entries_of(
            directory::contents_of(dir, #[trigger] directory::idx_name(b)),
        ).len() == 0
}

impl LogView {
    /// Whether segment `i` consists of the records of `parts[i]`, for each `i`, and
    /// each segment goes on where the one before it ends.
    pub open spec fn holds_parts(self, parts: Seq<Seq<Seq<u8>>>) -> bool {
        &&& self.wf()
        &&& parts.len() == self.segments.len()
        &&& forall|i: int|
            0 <= i < parts.len() ==> segment_holds((#[trigger] self.segments[i]).0, parts[i])
        &&& forall|i: int|
            0 <= i < parts.len() ==> entries_true(
                (#[trigger] self.segments[i]).0.base_offset,
                parts[i],
                self.segments[i].1.entries,
            )
        &&& forall|i: int|
            0 < i < parts.len() ==> (#[trigger] self.segments[i]).0.base_offset
                == self.segments[i - 1].0.next_offset
    }

    /// Whether the log consists of the records of these payloads, in this order.
    pub open spec fn holds(self, payloads: Seq<Seq<u8>>) -> bool {
        exists|parts: Seq<Seq<Seq<u8>>>| #[trigger]
            self.holds_parts(parts) && joined(parts) == payloads
    }

    /// Whether the directory has the files of the log: the data files of its
    /// segments and no other, and index files whose entries are true.
    pub open spec fn stored_parts(self, dir: DirView, parts: Seq<Seq<Seq<u8>>>) -> bool {
        &&& forall|i: int|
            0 <= i < self.segments.len() ==> directory::file_in(
                dir,
                directory::seg_name((#[trigger] self.segments[i]).0.base_offset),
            ) == Some(self.segments[i].0.data)
        &&& forall|i: int|
            0 <= i < self.segments.len() ==> entries_true(
                (#[trigger] self.segments[i]).0.base_offset,
                parts[i],
                index::entries_of(
                    directory::contents_of(
                        dir,
                        directory::idx_name(self.segments[i].0.base_offset),
                    ),
                ),
            )
        &&& forall|b: u64| #[trigger]
            directory::listed(dir, b) ==> exists|i: int|
                0 <= i < self.segments.len() && (#[trigger] self.segments[i]).0.base_offset == b
        &&& no_stray_index(dir, self.segments.last().0.base_offset)
    }

    /// Whether the log consists of the records of these payloads and the directory
    /// has its files.
    pub open spec fn kept_in(self, dir: DirView, payloads: Seq<Seq<u8>>) -> bool {
        exists|parts: Seq<Seq<Seq<u8>>>| #[trigger]
            self.holds_parts(parts) && joined(parts) == payloads && self.stored_parts(dir, parts)
    }

    /// Whether the files of a segment that the log is rotated to hold what the log
    /// left there: nothing, or, if the active segment has no record, what belongs to
    /// that.
    pub open spec fn own_files(self, data: Seq<u8>, buf: Seq<u8>) -> bool {
        let (seg, idx) = self.segments.last();
        if seg.next_offset == seg.base_offset {
            data == seg.data && index::entries_of(buf) == idx.entries
        } else {
            data.len() == 0 && index::entries_of(buf).len() == 0
        }
    }

    /// The log as the next append finds it, if nobody else writes to the directory:
    /// rotated if the active segment is full.
    pub open spec fn ready(self) -> LogView {
        let (seg, idx) = self.segments.last();
        if !self.full() {
            self
        } else if seg.next_offset == seg.base_offset {
            self.rotated(seg.data, index::entries_bytes(idx.entries))
        } else {
            self.rotated(Seq::empty(), Seq::empty())
        }
    }

    /// The log after a sequence of appends, if nobody else writes to the directory.
    pub open spec fn appended_all(self, payloads: Seq<Seq<u8>>) -> LogView
        decreases payloads.len(),
    {
        if payloads.len() == 0 {
            self
        } else {
            self.appended_all(payloads.drop_last()).ready().appended(payloads.last())
        }
    }

    /// Whether each append of a sequence stays within the bounds of offsets and of
    /// positions.
    pub open spec fn room_for_all(self, payloads: Seq<Seq<u8>>) -> bool {
        forall|i: int|
            0 <= i < payloads.len() ==> self.appended_all(payloads.take(i)).ready().room_for(
                #[trigger] payloads[i],
            )
    }
}

proof fn lemma_joined_prefix(parts: Seq<Seq<Seq<u8>>>, k: int)
    requires
        0 <= k <= parts.len(),
    ensures
        joined(parts.take(k)).len() <= joined(parts).len(),
        joined(parts).take(joined(parts.take(k)).len() as int) == joined(parts.take(k)),
    decreases parts.len(),
{
    if k == parts.len() {
        assert(parts.take(k) =~= parts);
        assert(joined(parts).take(joined(parts).len() as int) =~= joined(parts));
    } else {
        let front = parts.drop_last();
        lemma_joined_prefix(front, k);
        assert(front.take(k) =~= parts.take(k));
        let n = joined(parts.take(k)).len() as int;
        assert(joined(parts).take(n) =~= joined(front).take(n));
    }
}

proof fn lemma_joined_index(parts: Seq<Seq<Seq<u8>>>, k: int, i: int)
    requires
        0 <= k < parts.len(),
        0 <= i < parts[k].len(),
    ensures
        joined(parts.take(k)).len() + i < joined(parts).len(),
        joined(parts)[joined(parts.take(k)).len() + i] == parts[k][i],
{
    let upto = parts.take(k + 1);
    assert(upto.drop_last() =~= parts.take(k));
    assert(upto.last() == parts[k]);
    lemma_joined_prefix(parts, k + 1);
    let n = joined(upto).len() as int;
    assert(joined(parts)[joined(parts.take(k)).len() + i] == joined(parts).take(n)[joined(
        parts.take(k),
    ).len() + i]);
}

/// The records in front of a segment are as many as the offsets.
proof fn lemma_parts_in_front(log: LogView, parts: Seq<Seq<Seq<u8>>>, k: int)
    requires
        log.holds_parts(parts),
        0 <= k < parts.len(),
    ensures
        joined(parts.take(k)).len() == log.segments[k].0.base_offset - log.first_offset(),
    decreases k,
{
    if k == 0 {
        assert(parts.take(0) =~= Seq::<Seq<Seq<u8>>>::empty());
    } else {
        lemma_parts_in_front(log, parts, k - 1);
        assert(parts.take(k).drop_last() =~= parts.take(k - 1));
        assert(parts.take(k).last() == parts[k - 1]);
        assert(segment_holds(log.segments[k - 1].0, parts[k - 1]));
        assert(log.segments[k].0.base_offset == log.segments[k - 1].0.next_offset);
    }
}

proof fn lemma_parts_len(log: LogView, parts: Seq<Seq<Seq<u8>>>)
    requires
        log.holds_parts(parts),
    ensures
        joined(parts).len() == log.next_offset() - log.first_offset(),
{
    let n = (parts.len() - 1) as int;
    lemma_parts_in_front(log, parts, n);
    assert(parts.take(n) =~= parts.drop_last());
    assert(segment_holds(log.segments[n].0, parts[n]));
}

/// Offsets are consecutive: a log has one for each record, from the first on.
pub proof fn law_offsets_are_consecutive(log: LogView, payloads: Seq<Seq<u8>>)
    requires
        log.holds(payloads),
    ensures
        log.next_offset() == log.first_offset() + payloads.len(),
{
    let parts = choose|parts: Seq<Seq<Seq<u8>>>| #[trigger]
        log.holds_parts(parts) && joined(parts) == payloads;
    lemma_parts_len(log, parts);
}

/// A segment reads back what it holds, wherever a true index lets the scan start.
proof fn lemma_segment_read(
    seg: SegmentView,
    idx: IndexView,
    ps: Seq<Seq<u8>>,
    offset: u64,
)
    requires
        segment_holds(seg, ps),
        entries_true(seg.base_offset, ps, idx.entries),
        seg.base_offset <= offset < seg.base_offset + ps.len(),
    ensures
        seg.cursor_from(idx.found(offset), offset).outcome_on(seg.data) == Ok::<
            Seq<u8>,
            LogErrorView,
        >(ps[offset - seg.base_offset]),
{
    let i = (offset - seg.base_offset) as int;
    index::law_lookup_finds_the_largest(idx, offset);
    match idx.found(offset) {
        Some(e) => {
            record::lemma_position_after(ps, e.0 - seg.base_offset, (offset - e.0) as nat);
        },
        None => {
            assert(ps.take(0) =~= Seq::<Seq<u8>>::empty());
            record::lemma_position_after(ps, 0, i as nat);
        },
    }
    record::lemma_record_stands(ps, i);
}

/// The segment that is looked in has the offset.
proof fn lemma_looked_in(log: LogView, parts: Seq<Seq<Seq<u8>>>, offset: u64) -> (k: int)
    requires
        log.holds_parts(parts),
        log.first_offset() <= offset < log.next_offset(),
    ensures
        k == commit_log::last_from(log.segments, offset),
        0 <= k < parts.len(),
        log.segments[k].0.base_offset <= offset < log.segments[k].0.base_offset + parts[k].len(),
{
    let k = commit_log::last_from(log.segments, offset);
    commit_log::lemma_last_from(log.segments, offset);
    assert(log.segments[0].0.base_offset <= offset);
    assert(segment_holds(log.segments[k].0, parts[k]));
    if k + 1 < parts.len() {
        assert(log.segments[k + 1].0.base_offset == log.segments[k + 1 - 1].0.next_offset);
    }
    k
}

/// A read gives back the payload that was appended under the offset.
pub proof fn law_read_gives_back(
    log: LogView,
    payloads: Seq<Seq<u8>>,
    offset: u64,
    r: Result<Seq<u8>, LogErrorView>,
)
    requires
        log.holds(payloads),
        log.in_range(offset),
        r == log.reads(offset),
    ensures
        offset - log.first_offset() < payloads.len(),
        r == Ok::<Seq<u8>, LogErrorView>(payloads[offset - log.first_offset()]),
{
    let parts = choose|parts: Seq<Seq<Seq<u8>>>| #[trigger]
        log.holds_parts(parts) && joined(parts) == payloads;
    let k = lemma_looked_in(log, parts, offset);
    let pair = log.segments[k];
    let i = (offset - pair.0.base_offset) as int;
    assert(segment_holds(pair.0, parts[k]));
    assert(entries_true(pair.0.base_offset, parts[k], pair.1.entries));
    lemma_segment_read(pair.0, pair.1, parts[k], offset);
    lemma_joined_index(parts, k, i);
    lemma_parts_in_front(log, parts, k);
}

/// A read past the end, or before the first record, is answered with the offset
/// that is out of range, and only such a read fails in a log that holds whole
/// records.
pub proof fn law_read_out_of_range(
    log: LogView,
    payloads: Seq<Seq<u8>>,
    offset: u64,
    r: Result<Seq<u8>, LogErrorView>,
)
    requires
        log.holds(payloads),
        r == log.reads(offset),
    ensures
        r == Err::<Seq<u8>, LogErrorView>(LogErrorView::OffsetOutOfRange(offset))
            <==> !log.in_range(offset),
        r is Err <==> !log.in_range(offset),
{
    if log.in_range(offset) {
        law_read_gives_back(log, payloads, offset, r);
    }
}

proof fn lemma_position_pushed(payloads: Seq<Seq<u8>>, payload: Seq<u8>, i: int)
    requires
        0 <= i <= payloads.len(),
    ensures
        record::position_of(payloads.push(payload), i) == record::position_of(payloads, i),
{
    assert(payloads.push(payload).take(i) =~= payloads.take(i));
}

/// A segment with one more record holds one more payload, and its index stays
/// true.
proof fn lemma_segment_appended(
    seg: SegmentView,
    idx: IndexView,
    payloads: Seq<Seq<u8>>,
    payload: Seq<u8>,
)
    requires
        seg.wf(),
        segment_holds(seg, payloads),
        entries_true(seg.base_offset, payloads, idx.entries),
        seg.room_for(payload),
        payload.len() < 0x1_0000_0000,
    ensures
        segment_holds(seg.appended(payload), payloads.push(payload)),
        entries_true(
            seg.base_offset,
            payloads.push(payload),
            idx.told(
                (seg.next_offset - seg.base_offset) as u64,
                seg.next_offset,
                seg.file_pos,
            ).entries,
        ),
{
    let more = payloads.push(payload);
    assert(more.drop_last() =~= payloads);
    crate::wire::lemma_le_bytes_len(payload.len(), 4);
    crate::wire::lemma_le_bytes_len(record::crc32_ieee(payload) as nat, 4);
    assert(seg.appended(payload).data =~= record::records_bytes(more));
    assert forall|i: int| 0 <= i < more.len() implies (#[trigger] more[i]).len()
        < 0x1_0000_0000 by {
        if i < payloads.len() {
            assert(more[i] == payloads[i]);
        }
    }
    let told = idx.told(
        (seg.next_offset - seg.base_offset) as u64,
        seg.next_offset,
        seg.file_pos,
    ).entries;
    assert forall|i: int| 0 <= i < told.len() implies seg.base_offset <= (#[trigger] told[i]).0
        < seg.base_offset + more.len() && told[i].1 == record::position_of(
        more,
        told[i].0 - seg.base_offset,
    ) by {
        if i < idx.entries.len() {
            assert(told[i] == idx.entries[i]);
            lemma_position_pushed(payloads, payload, told[i].0 - seg.base_offset);
        } else {
            lemma_position_pushed(payloads, payload, payloads.len() as int);
            assert(payloads.take(payloads.len() as int) =~= payloads);
        }
    }
    assert(index::in_order(told)) by {
        assert forall|i: int, j: int| 0 <= i <= j < told.len() implies (#[trigger] told[i]).0 <= (
        #[trigger] told[j]).0 by {
            if j < idx.entries.len() {
                assert(told[i] == idx.entries[i]);
                assert(told[j] == idx.entries[j]);
            } else if i < idx.entries.len() {
                assert(told[i] == idx.entries[i]);
            }
        }
    }
}

/// The payloads by segment after a rotation.
pub open spec fn parts_rotated(log: LogView, parts: Seq<Seq<Seq<u8>>>) -> Seq<Seq<Seq<u8>>> {
    let seg = log.segments.last().0;
    if seg.next_offset == seg.base_offset {
        parts
    } else {
        parts.push(Seq::empty())
    }
}

/// A rotated log holds the same records, in one more part unless the active
/// segment was empty.
pub proof fn lemma_rotated(
    log: LogView,
    parts: Seq<Seq<Seq<u8>>>,
    data: Seq<u8>,
    buf: Seq<u8>,
)
    requires
        log.holds_parts(parts),
        log.own_files(data, buf),
    ensures
        log.rotated(data, buf).holds_parts(parts_rotated(log, parts)),
        joined(parts_rotated(log, parts)) == joined(parts),
        log.rotated(data, buf).first_offset() == log.first_offset(),
        log.rotated(data, buf).next_offset() == log.next_offset(),
{
    let rotated = log.rotated(data, buf);
    let n = (log.segments.len() - 1) as int;
    let (seg, idx) = log.segments[n];
    assert(segment_holds(seg, parts[n]));
    assert(entries_true(seg.base_offset, parts[n], idx.entries));
    if seg.next_offset == seg.base_offset {
        assert(parts[n] =~= Seq::<Seq<u8>>::empty());
        assert forall|i: int| 0 <= i < n implies #[trigger] rotated.segments[i]
            == log.segments[i] by {}
        assert(rotated.holds_parts(parts)) by {
            assert forall|i: int| 0 <= i < parts.len() implies segment_holds(
                (#[trigger] rotated.segments[i]).0,
                parts[i],
            ) && entries_true(
                rotated.segments[i].0.base_offset,
                parts[i],
                rotated.segments[i].1.entries,
            ) by {
                assert(segment_holds(log.segments[i].0, parts[i]));
                assert(entries_true(
                    log.segments[i].0.base_offset,
                    parts[i],
                    log.segments[i].1.entries,
                ));
            }
            assert forall|i: int| 0 < i < parts.len() implies (
            #[trigger] rotated.segments[i]).0.base_offset == rotated.segments[i
                - 1].0.next_offset by {
                assert(log.segments[i].0.base_offset == log.segments[i - 1].0.next_offset);
            }
        }
    } else {
        let more = parts.push(Seq::empty());
        assert(more.drop_last() =~= parts);
        assert(joined(more) =~= joined(parts));
        assert(record::records_bytes(Seq::<Seq<u8>>::empty()) =~= Seq::<u8>::empty());
        assert forall|i: int| 0 <= i <= n implies #[trigger] rotated.segments[i]
            == log.segments[i] by {}
        assert(data =~= Seq::<u8>::empty());
        assert(rotated.holds_parts(more)) by {
            assert forall|i: int| 0 <= i < more.len() implies segment_holds(
                (#[trigger] rotated.segments[i]).0,
                more[i],
            ) && entries_true(
                rotated.segments[i].0.base_offset,
                more[i],
                rotated.segments[i].1.entries,
            ) by {
                if i <= n {
                    assert(segment_holds(log.segments[i].0, parts[i]));
                    assert(entries_true(
                        log.segments[i].0.base_offset,
                        parts[i],
                        log.segments[i].1.entries,
                    ));
                }
            }
            assert forall|i: int| 0 < i < more.len() implies (
            #[trigger] rotated.segments[i]).0.base_offset == rotated.segments[i
                - 1].0.next_offset by {
                if i <= n {
                    assert(log.segments[i].0.base_offset == log.segments[i - 1].0.next_offset);
                }
            }
            assert forall|i: int, j: int|
                0 <= i < j < rotated.segments.len() implies (
            #[trigger] rotated.segments[i]).0.base_offset < (
            #[trigger] rotated.segments[j]).0.base_offset by {
                if j <= n {
                    assert(log.segments[i].0.base_offset < log.segments[j].0.base_offset);
                } else if i < n {
                    assert(log.segments[i].0.base_offset < log.segments[n].0.base_offset);
                }
            }
        }
    }
}

/// A log that rotates among its own files as the next append asks for holds the same
/// records.
proof fn lemma_ready(log: LogView, payloads: Seq<Seq<u8>>)
    requires
        log.holds(payloads),
    ensures
        log.ready().holds(payloads),
        log.ready().first_offset() == log.first_offset(),
        log.ready().next_offset() == log.next_offset(),
{
    let parts = choose|parts: Seq<Seq<Seq<u8>>>| #[trigger]
        log.holds_parts(parts) && joined(parts) == payloads;
    if log.full() {
        let (seg, idx) = log.segments.last();
        if seg.next_offset == seg.base_offset {
            index::lemma_entries_read_back(idx.entries);
            lemma_rotated(log, parts, seg.data, index::entries_bytes(idx.entries));
        } else {
            lemma_rotated(log, parts, Seq::empty(), Seq::empty());
        }
    }
}

/// The payloads by segment after an append.
pub open spec fn parts_appended(parts: Seq<Seq<Seq<u8>>>, payload: Seq<u8>) -> Seq<Seq<Seq<u8>>> {
    parts.drop_last().push(parts.last().push(payload))
}

pub proof fn lemma_appended(ready: LogView, before: Seq<Seq<Seq<u8>>>, payload: Seq<u8>)
    requires
        ready.holds_parts(before),
        ready.room_for(payload),
        payload.len() < 0x1_0000_0000,
    ensures
        ready.appended(payload).holds_parts(parts_appended(before, payload)),
        joined(parts_appended(before, payload)) == joined(before).push(payload),
        ready.appended(payload).first_offset() == ready.first_offset(),
        ready.appended(payload).next_offset() == ready.next_offset() + 1,
{
    let n = (ready.segments.len() - 1) as int;
    let (seg, idx) = ready.segments[n];
    assert(segment_holds(seg, before[n]));
    assert(entries_true(seg.base_offset, before[n], idx.entries));
    lemma_segment_appended(seg, idx, before[n], payload);
    let after = before.drop_last().push(before[n].push(payload));
    let appended = ready.appended(payload);
    assert(after.drop_last() =~= before.drop_last());
    assert(joined(after) =~= joined(before).push(payload));
    assert forall|i: int| 0 <= i < n implies #[trigger] appended.segments[i]
        == ready.segments[i] by {}
    assert forall|i: int| 0 <= i < after.len() implies segment_holds(
        (#[trigger] appended.segments[i]).0,
        after[i],
    ) && entries_true(
        appended.segments[i].0.base_offset,
        after[i],
        appended.segments[i].1.entries,
    ) by {
        if i < n {
            assert(segment_holds(ready.segments[i].0, before[i]));
            assert(entries_true(
                ready.segments[i].0.base_offset,
                before[i],
                ready.segments[i].1.entries,
            ));
        }
    }
    assert forall|i: int| 0 < i < after.len() implies (
    #[trigger] appended.segments[i]).0.base_offset == appended.segments[i - 1].0.next_offset by {
        assert(ready.segments[i].0.base_offset == ready.segments[i - 1].0.next_offset);
    }
    assert forall|i: int, j: int| 0 <= i < j < appended.segments.len() implies (
    #[trigger] appended.segments[i]).0.base_offset < (
    #[trigger] appended.segments[j]).0.base_offset by {
        assert(ready.segments[i].0.base_offset < ready.segments[j].0.base_offset);
    }
    assert forall|i: int| 0 <= i < appended.segments.len() implies (
    #[trigger] appended.segments[i]).0.wf() by {
        assert(ready.segments[i].0.wf());
    }
    assert(appended.holds_parts(after));
}

/// An append adds its payload at the end, under the next offset, and changes
/// nothing before it.
pub proof fn law_append_adds_at_the_end(
    log: LogView,
    payloads: Seq<Seq<u8>>,
    payload: Seq<u8>,
)
    requires
        log.holds(payloads),
        log.room_for(payload),
        payload.len() < 0x1_0000_0000,
    ensures
        log.appended(payload).holds(payloads.push(payload)),
        log.appended(payload).first_offset() == log.first_offset(),
        log.appended(payload).next_offset() == log.next_offset() + 1,
{
    let parts = choose|parts: Seq<Seq<Seq<u8>>>| #[trigger]
        log.holds_parts(parts) && joined(parts) == payloads;
    lemma_appended(log, parts, payload);
}

/// A rotation among the log's own files keeps the records and the offsets.
pub proof fn law_rotation_keeps_the_records(
    log: LogView,
    payloads: Seq<Seq<u8>>,
    data: Seq<u8>,
    buf: Seq<u8>,
)
    requires
        log.holds(payloads),
        log.own_files(data, buf),
    ensures
        log.rotated(data, buf).holds(payloads),
        log.rotated(data, buf).first_offset() == log.first_offset(),
        log.rotated(data, buf).next_offset() == log.next_offset(),
{
    let parts = choose|parts: Seq<Seq<Seq<u8>>>| #[trigger]
        log.holds_parts(parts) && joined(parts) == payloads;
    lemma_rotated(log, parts, data, buf);
}

/// A log over an empty directory is empty and starts at offset 0.
pub proof fn law_new_log_is_empty(log: LogView, config: LogConfig)
    requires
        log.opened(Seq::empty(), config),
    ensures
        log.holds(Seq::empty()),
        log.first_offset() == 0,
        log.next_offset() == 0,
{
    let dir: DirView = Seq::empty();
    assert forall|b: u64| !#[trigger] directory::listed(dir, b) by {}
    assert(commit_log::has_segment(dir, 0));
    assert forall|i: int| 0 <= i < log.segments.len() implies (
    #[trigger] log.segments[i]).0.base_offset == 0 by {
        assert(commit_log::has_segment(dir, log.segments[i].0.base_offset));
    }
    assert(log.segments.len() == 1) by {
        if log.segments.len() > 1 {
            assert(log.segments[0].0.base_offset < log.segments[1].0.base_offset);
        }
    }
    let empty = Seq::<u8>::empty();
    assert(log.segments[0] == commit_log::stored_pair(dir, 0, config));
    assert(record::header_count(empty, 0) == 0);
    assert(record::records_bytes(Seq::<Seq<u8>>::empty()) =~= empty);
    let parts: Seq<Seq<Seq<u8>>> = seq![Seq::empty()];
    assert(parts.drop_last() =~= Seq::<Seq<Seq<u8>>>::empty());
    assert(joined(parts.drop_last()) =~= Seq::<Seq<u8>>::empty());
    assert(joined(parts) =~= Seq::<Seq<u8>>::empty());
    assert(index::entries_of(empty) =~= Seq::<(u64, u64)>::empty());
    assert(log.holds_parts(parts));
}

/// What holds of a sequence of appends holds of the shorter ones it starts with.
proof fn lemma_front_of_appends(log: LogView, payloads: Seq<Seq<u8>>, i: int)
    requires
        record::all_short(payloads),
        log.room_for_all(payloads),
        0 <= i <= payloads.len(),
    ensures
        record::all_short(payloads.take(i)),
        log.room_for_all(payloads.take(i)),
{
    let front = payloads.take(i);
    assert forall|k: int| 0 <= k < front.len() implies log.appended_all(
        front.take(k),
    ).ready().room_for(#[trigger] front[k]) by {
        assert(front.take(k) =~= payloads.take(k));
        assert(front[k] == payloads[k]);
    }
    assert forall|k: int| 0 <= k < front.len() implies (#[trigger] front[k]).len()
        < 0x1_0000_0000 by {
        assert(front[k] == payloads[k]);
    }
}

proof fn lemma_appended_all(log: LogView, held: Seq<Seq<u8>>, payloads: Seq<Seq<u8>>)
    requires
        log.holds(held),
        record::all_short(payloads),
        log.room_for_all(payloads),
    ensures
        log.appended_all(payloads).holds(held + payloads),
        log.appended_all(payloads).first_offset() == log.first_offset(),
    decreases payloads.len(),
{
    if payloads.len() == 0 {
        assert(held + payloads =~= held);
    } else {
        let n = (payloads.len() - 1) as int;
        let front = payloads.take(n);
        assert(front =~= payloads.drop_last());
        lemma_front_of_appends(log, payloads, n);
        lemma_appended_all(log, held, front);
        let before = log.appended_all(front);
        lemma_ready(before, held + front);
        assert(before.ready().room_for(payloads[n]));
        law_append_adds_at_the_end(before.ready(), held + front, payloads[n]);
        assert((held + front).push(payloads[n]) =~= held + payloads);
        assert(log.appended_all(payloads) == before.ready().appended(payloads[n]));
    }
}

/// Any sequence of payloads appended to an empty log is read back identically, and
/// its offsets are consecutive with no gap, whenever the log rotates in between.
pub proof fn law_any_sequence_is_read_back(
    log: LogView,
    payloads: Seq<Seq<u8>>,
    i: int,
    offset: u64,
    r: Result<Seq<u8>, LogErrorView>,
)
    requires
        log.holds(Seq::empty()),
        record::all_short(payloads),
        log.room_for_all(payloads),
        0 <= i < payloads.len(),
        offset == log.appended_all(payloads.take(i)).next_offset(),
        r == log.appended_all(payloads).reads(offset),
    ensures
        offset == log.first_offset() + i,
        r == Ok::<Seq<u8>, LogErrorView>(payloads[i]),
{
    let front = payloads.take(i);
    let none = Seq::<Seq<u8>>::empty();
    lemma_front_of_appends(log, payloads, i);
    lemma_appended_all(log, none, front);
    lemma_appended_all(log, none, payloads);
    assert(none + front =~= front);
    assert(none + payloads =~= payloads);
    law_offsets_are_consecutive(log.appended_all(front), front);
    law_offsets_are_consecutive(log.appended_all(payloads), payloads);
    law_read_gives_back(log.appended_all(payloads), payloads, offset, r);
}

} // verus!
