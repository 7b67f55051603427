//! The multi-segment, append-only commit log.

use vstd::prelude::*;

use super::directory;
use super::directory::{
    file_contents, idx_path, seg_path, segment_offset, DirView, FileOp, FileOpView, StoredFile,
};
use super::index;
use super::index::{Index, IndexView};
use super::record;
use super::record::{count_records, push_record, scan_to, Cursor};
use super::segment::{Segment, SegmentView};
use super::{LogError, LogErrorView};

verus! {

#[derive(Clone, Copy, Debug)]
pub struct LogConfig {
    /// Maximum size of a single segment file in bytes before rotation.
    pub max_segment_bytes: u64,
    /// Record every Nth append in the sparse index.
    pub index_interval: u64,
}

impl Default for LogConfig {
    fn default() -> (config: LogConfig)
        ensures
            config.max_segment_bytes == 64 * 1024 * 1024,
            config.index_interval == 64,
    {
        LogConfig { max_segment_bytes: 64 * 1024 * 1024, index_interval: 64 }
    }
}

/// A multi-segment, append-only commit log.
///
/// Segments are stored as pairs of files in the log's directory:
///   `{base_offset:020}.log`  - record data
///   `{base_offset:020}.idx`  - sparse offset index
///
/// The log hands out, as `FileOp`s, the changes to make in the directory, and says
/// where to read in its files.
pub struct Log {
    config: LogConfig,
    segments: Vec<(Segment, Index)>,
}

/// The files of a segment that a log is rotated to, as the directory has them.
#[derive(Debug)]
pub struct SegmentFiles {
    pub data: Vec<u8>,
    pub index: Vec<u8>,
}

/// Where to read a record: the data file, and the place in it.
#[derive(Debug)]
pub struct Reading {
    pub file: String,
    pub cursor: Cursor,
}

/// What is to be done to append a record.
#[derive(Debug)]
pub enum AppendStep {
    /// Make these changes, in order, and rotate the log to the files of the segment
    /// at this offset.
    Rotate { ops: Vec<FileOp>, base: u64 },
    /// Make this change, and append the record.
    Write(FileOp),
}

/// An `AppendStep` with its changes by their views.
pub enum AppendStepView {
    Rotate { ops: Seq<FileOpView>, base: u64 },
    Write(FileOpView),
}

impl View for AppendStep {
    type V = AppendStepView;

    open spec fn view(&self) -> AppendStepView {
        match self {
            AppendStep::Rotate { ops, base } => AppendStepView::Rotate {
                ops: directory::ops_view(ops@),
                base: *base,
            },
            AppendStep::Write(op) => AppendStepView::Write(op@),
        }
    }
}

/// A log with its segments as a sequence.
#[verifier::ext_equal]
pub struct LogView {
    pub config: LogConfig,
    pub segments: Seq<(SegmentView, IndexView)>,
}

impl View for Log {
    type V = LogView;

    closed spec fn view(&self) -> LogView {
        LogView { config: self.config, segments: pairs_view(self.segments@) }
    }
}

/// Segments and indexes by their views.
pub open spec fn pairs_view(pairs: Seq<(Segment, Index)>) -> Seq<(SegmentView, IndexView)> {
    Seq::new(pairs.len(), |i: int| (pairs[i].0@, pairs[i].1@))
}

/// The place of the last segment that starts at or before `offset`; -1 if every
/// segment starts after it.
pub open spec fn last_from(segments: Seq<(SegmentView, IndexView)>, offset: u64) -> int
    decreases segments.len(),
{
    if segments.len() == 0 {
        -1
    } else if segments.last().0.base_offset <= offset {
        segments.len() - 1
    } else {
        last_from(segments.drop_last(), offset)
    }
}

/// The segment at `base` and its index, as a directory holds them.
pub open spec fn stored_pair(dir: DirView, base: u64, config: LogConfig) -> (
    SegmentView,
    IndexView,
) {
    let data = directory::contents_of(dir, directory::seg_name(base));
    let buf = directory::contents_of(dir, directory::idx_name(base));
    (
        SegmentView::fresh(data, base, config.max_segment_bytes).recovered(),
        IndexView::opened(buf, config.index_interval),
    )
}

/// Whether a directory is within the bounds of file sizes and of offsets.
pub open spec fn openable(dir: DirView) -> bool {
    &&& forall|i: int| 0 <= i < dir.len() ==> (#[trigger] dir[i]).1.len() <= i64::MAX
    &&& forall|base: u64| #[trigger]
        directory::listed(dir, base) ==> base + record::header_count(
            directory::contents_of(dir, directory::seg_name(base)),
            0,
        ) <= u64::MAX
}

/// Whether a log over this directory has a segment at `base`: one for each data
/// file, or one at 0 if there is no data file.
pub open spec fn has_segment(dir: DirView, base: u64) -> bool {
    directory::listed(dir, base) || (base == 0 && forall|b: u64| !#[trigger] directory::listed(dir, b))
}

/// The changes that make the data files of segments at these offsets exist.
pub open spec fn touches(bases: Seq<u64>) -> Seq<FileOpView> {
    Seq::new(
        bases.len(),
        |i: int| FileOpView::Append { name: directory::seg_name(bases[i]), data: Seq::empty() },
    )
}

/// Whether these are, in ascending order, the offsets at which a log over this
/// directory has segments.
pub open spec fn segment_bases(dir: DirView, bases: Seq<u64>) -> bool {
    &&& forall|i: int, j: int| 0 <= i < j < bases.len() ==> bases[i] < bases[j]
    &&& forall|b: u64| bases.contains(b) <==> #[trigger] has_segment(dir, b)
}

impl LogView {
    /// What every log keeps: it has a segment, and each segment starts after the
    /// one before it.
    pub open spec fn wf(self) -> bool {
        &&& 0 < self.segments.len()
        &&& forall|i: int| 0 <= i < self.segments.len() ==> (#[trigger] self.segments[i]).0.wf()
        &&& forall|i: int, j: int|
            0 <= i < j < self.segments.len() ==> (#[trigger] self.segments[i]).0.base_offset
                < (#[trigger] self.segments[j]).0.base_offset
    }

    /// The logical offset that the next record gets.
    pub open spec fn next_offset(self) -> u64 {
        self.segments.last().0.next_offset
    }

    /// The first logical offset of the log.
    pub open spec fn first_offset(self) -> u64 {
        self.segments[0].0.base_offset
    }

    /// Whether this is the log over the directory `dir`.
    pub open spec fn opened(self, dir: DirView, config: LogConfig) -> bool {
        &&& self.wf()
        &&& self.config == config
        &&& forall|base: u64|
            (exists|i: int|
                0 <= i < self.segments.len() && (#[trigger] self.segments[i]).0.base_offset == base)
                <==> #[trigger] has_segment(dir, base)
        &&& forall|i: int|
            0 <= i < self.segments.len() ==> #[trigger] self.segments[i] == stored_pair(
                dir,
                self.segments[i].0.base_offset,
                config,
            )
    }

    /// The log with a new active segment at the next offset, over files that hold
    /// `data` and `buf`. If the active segment has no record the new one is over the
    /// same files and takes its place.
    pub open spec fn rotated(self, data: Seq<u8>, buf: Seq<u8>) -> LogView {
        let seg = self.segments.last().0;
        let pair = (
            SegmentView::fresh(data, seg.next_offset, self.config.max_segment_bytes),
            IndexView::opened(buf, self.config.index_interval),
        );
        let kept = if seg.next_offset == seg.base_offset {
            self.segments.drop_last()
        } else {
            self.segments
        };
        LogView { segments: kept.push(pair), ..self }
    }

    /// Whether the active segment takes no more records.
    pub open spec fn full(self) -> bool {
        self.segments.last().0.full()
    }

    /// Whether one more record with this payload stays within the bounds of
    /// offsets and of positions.
    pub open spec fn room_for(self, payload: Seq<u8>) -> bool {
        self.segments.last().0.room_for(payload)
    }

    /// The log with one more record in the active segment.
    pub open spec fn appended(self, payload: Seq<u8>) -> LogView {
        let (seg, idx) = self.segments.last();
        let place = (seg.next_offset - seg.base_offset) as u64;
        LogView {
            segments: self.segments.drop_last().push(
                (seg.appended(payload), idx.told(place, seg.next_offset, seg.file_pos)),
            ),
            ..self
        }
    }

    /// The changes to the directory that go before a rotation: the index of the
    /// active segment is stored, and the data file of the new one comes to exist.
    pub open spec fn rotate_changes(self) -> Seq<FileOpView> {
        seq![
            self.flush_change(),
            FileOpView::Append {
                name: directory::seg_name(self.next_offset()),
                data: Seq::empty(),
            },
        ]
    }

    /// The change to the directory that adds a record to the active segment.
    pub open spec fn append_change(self, payload: Seq<u8>) -> FileOpView {
        FileOpView::Append {
            name: directory::seg_name(self.segments.last().0.base_offset),
            data: record::record_bytes(payload),
        }
    }

    /// What is to be done to append a record: first of all a rotation, if the active
    /// segment is full and there was none yet.
    pub open spec fn append_step(self, payload: Seq<u8>, rotated: bool) -> AppendStepView {
        if self.full() && !rotated {
            AppendStepView::Rotate { ops: self.rotate_changes(), base: self.next_offset() }
        } else {
            AppendStepView::Write(self.append_change(payload))
        }
    }

    /// The changes to the directory that make the data file of each segment exist.
    pub open spec fn open_changes(self) -> Seq<FileOpView> {
        touches(Seq::new(self.segments.len(), |i: int| self.segments[i].0.base_offset))
    }

    /// The change to the directory that stores the index of the active segment.
    pub open spec fn flush_change(self) -> FileOpView {
        FileOpView::Write {
            name: directory::idx_name(self.segments.last().0.base_offset),
            data: index::entries_bytes(self.segments.last().1.entries),
        }
    }

    /// Whether the offset lies between the first one of the log and the next.
    pub open spec fn in_range(self, offset: u64) -> bool {
        self.first_offset() <= offset < self.next_offset()
    }

    /// The place of the segment in which a record is looked for: the last one that
    /// starts at or before its offset.
    pub open spec fn looked_in(self, offset: u64) -> int {
        last_from(self.segments, offset)
    }

    /// Where a read of `offset` starts: at the index entry found for it.
    pub open spec fn cursor(self, offset: u64) -> Cursor {
        let pair = self.segments[self.looked_in(offset)];
        pair.0.cursor_from(pair.1.found(offset), offset)
    }

    /// The name of the file in which a record is looked for.
    pub open spec fn file_of(self, offset: u64) -> Seq<char> {
        directory::seg_name(self.segments[self.looked_in(offset)].0.base_offset)
    }

    /// What a read of `offset` gives where the data files hold what the log wrote.
    pub open spec fn reads(self, offset: u64) -> Result<Seq<u8>, LogErrorView> {
        if self.in_range(offset) {
            self.cursor(offset).outcome_on(self.segments[self.looked_in(offset)].0.data)
        } else {
            Err(LogErrorView::OffsetOutOfRange(offset))
        }
    }

    /// Whether each segment starts where the one before it ends.
    pub open spec fn contiguous(self) -> bool {
        forall|i: int|
            0 < i < self.segments.len() ==> (#[trigger] self.segments[i]).0.base_offset
                == self.segments[i - 1].0.next_offset
    }
}

/// The segment that is looked in is the last one that starts at or before the
/// offset.
pub proof fn lemma_last_from(segments: Seq<(SegmentView, IndexView)>, offset: u64)
    ensures
        -1 <= last_from(segments, offset) < segments.len(),
        0 <= last_from(segments, offset) ==> segments[last_from(segments, offset)].0.base_offset
            <= offset,
        forall|j: int|
            last_from(segments, offset) < j < segments.len() ==> offset < (
            #[trigger] segments[j]).0.base_offset,
    decreases segments.len(),
{
    if segments.len() > 0 && segments.last().0.base_offset > offset {
        lemma_last_from(segments.drop_last(), offset);
        let k = last_from(segments.drop_last(), offset);
        assert forall|j: int| k < j < segments.len() implies offset < (
        #[trigger] segments[j]).0.base_offset by {
            if j < segments.len() - 1 {
                assert(segments.drop_last()[j] == segments[j]);
            }
        }
    }
}

/// A directory without data files has none at offset 0.
proof fn lemma_no_first_file(dir: DirView)
    requires
        !directory::listed(dir, 0),
    ensures
        directory::contents_of(dir, directory::seg_name(0)) == Seq::<u8>::empty(),
        record::header_count(directory::contents_of(dir, directory::seg_name(0)), 0) == 0,
{
    if directory::file_in(dir, directory::seg_name(0)) is Some {
        directory::law_segment_name_gives_base(0);
        directory::lemma_found_is_listed(dir, directory::seg_name(0), 0);
    }
}

/// The offsets at which a log over the directory has segments, in ascending order.
fn segment_starts(files: &Vec<StoredFile>) -> (bases: Vec<u64>)
    ensures
        0 < bases@.len(),
        segment_bases(directory::dir_view(files@), bases@),
{
    let ghost dir = directory::dir_view(files@);
    let mut bases: Vec<u64> = base_offsets(files);
    if bases.len() == 0 {
        bases.push(0);
        assert forall|b: u64| bases@.contains(b) <==> #[trigger] has_segment(dir, b) by {
            assert(bases@[0] == 0);
        }
    } else {
        assert(bases@.contains(bases@[0]));
        assert forall|b: u64| bases@.contains(b) <==> #[trigger] has_segment(dir, b) by {
            assert(directory::listed(dir, bases@[0]));
        }
    }
    bases
}

/// The data files of a directory listing: their base offsets, each once, smallest
/// first.
fn base_offsets(files: &Vec<StoredFile>) -> (bases: Vec<u64>)
    ensures
        forall|i: int, j: int| 0 <= i < j < bases@.len() ==> bases@[i] < bases@[j],
        forall|b: u64|
            bases@.contains(b) <==> #[trigger] directory::listed(directory::dir_view(files@), b),
{
    let mut bases: Vec<u64> = Vec::new();
    let ghost dir = directory::dir_view(files@);
    let mut i: usize = 0;
    while i < files.len()
        invariant
            i <= files@.len(),
            dir == directory::dir_view(files@),
            forall|i: int, j: int| 0 <= i < j < bases@.len() ==> bases@[i] < bases@[j],
            forall|b: u64| #[trigger]
                bases@.contains(b) <==> exists|k: int|
                    0 <= k < i && directory::segment_base((#[trigger] dir[k]).0) == Some(b as nat),
        decreases files@.len() - i,
    {
        let ghost before = bases@;
        assert(dir[i as int].0 == files@[i as int].name@);
        match segment_offset(files[i].name.as_str()) {
            Some(base) => {
                insert_sorted(&mut bases, base);
                assert forall|b: u64| #[trigger] bases@.contains(b) <==> exists|k: int|
                    0 <= k < i + 1 && directory::segment_base((#[trigger] dir[k]).0) == Some(
                        b as nat,
                    ) by {
                    if b == base {
                        assert(directory::segment_base(dir[i as int].0) == Some(b as nat));
                    }
                    assert(before.contains(b) || b == base <==> bases@.contains(b));
                }
            },
            None => {},
        }
        i = i + 1;
    }
    assert forall|b: u64| bases@.contains(b) <==> #[trigger] directory::listed(dir, b) by {
        assert(bases@.contains(b) <==> exists|k: int|
            0 <= k < i && directory::segment_base((#[trigger] dir[k]).0) == Some(b as nat));
    }
    bases
}

/// Puts `base` in its place, unless it is there already.
fn insert_sorted(bases: &mut Vec<u64>, base: u64)
    requires
        forall|i: int, j: int| 0 <= i < j < old(bases)@.len() ==> old(bases)@[i] < old(bases)@[j],
    ensures
        forall|i: int, j: int|
            0 <= i < j < final(bases)@.len() ==> final(bases)@[i] < final(bases)@[j],
        forall|b: u64| #[trigger]
            final(bases)@.contains(b) <==> old(bases)@.contains(b) || b == base,
{
    let mut at: usize = 0;
    while at < bases.len() && bases[at] < base
        invariant
            at <= bases@.len(),
            bases@ == old(bases)@,
            forall|i: int| 0 <= i < at ==> bases@[i] < base,
        decreases bases@.len() - at,
    {
        at = at + 1;
    }
    if at < bases.len() && bases[at] == base {
        assert(bases@[at as int] == base);
        return;
    }
    bases.insert(at, base);
    let ghost before = old(bases)@;
    let ghost after = bases@;
    assert forall|b: u64| #[trigger] after.contains(b) <==> before.contains(b) || b == base by {
        if after.contains(b) {
            let k = choose|k: int| 0 <= k < after.len() && after[k] == b;
            if k < at {
                assert(before[k] == b);
            } else if k > at {
                assert(before[k - 1] == b);
            }
        }
        if before.contains(b) {
            let k = choose|k: int| 0 <= k < before.len() && before[k] == b;
            if k < at {
                assert(after[k] == b);
            } else {
                assert(after[k + 1] == b);
            }
        }
        if b == base {
            assert(after[at as int] == b);
        }
    }
}

proof fn lemma_contents_bound(dir: DirView, name: Seq<char>)
    requires
        forall|i: int| 0 <= i < dir.len() ==> (#[trigger] dir[i]).1.len() <= i64::MAX,
    ensures
        directory::contents_of(dir, name).len() <= i64::MAX,
    decreases dir.len(),
{
    if dir.len() > 0 && dir[0].0 != name {
        let rest = dir.drop_first();
        assert forall|i: int| 0 <= i < rest.len() implies (#[trigger] rest[i]).1.len()
            <= i64::MAX by {
            assert(rest[i] == dir[i + 1]);
        }
        lemma_contents_bound(rest, name);
    }
}

impl Log {
    /// Opens the log over a directory that holds `files`.
    pub fn open(files: Vec<StoredFile>, config: LogConfig) -> (log: Log)
        requires
            openable(directory::dir_view(files@)),
        ensures
            log@.opened(directory::dir_view(files@), config),
    {
        let ghost dir = directory::dir_view(files@);
        let bases: Vec<u64> = segment_starts(&files);
        assert forall|b: u64| #[trigger] bases@.contains(b) implies b + record::header_count(
            directory::contents_of(dir, directory::seg_name(b)),
            0,
        ) <= u64::MAX by {
            assert(has_segment(dir, b));
            if !directory::listed(dir, b) {
                lemma_no_first_file(dir);
            }
        }
        let mut segments: Vec<(Segment, Index)> = Vec::new();
        let mut i: usize = 0;
        while i < bases.len()
            invariant
                i <= bases@.len(),
                dir == directory::dir_view(files@),
                openable(dir),
                forall|b: u64| bases@.contains(b) <==> #[trigger] has_segment(dir, b),
                forall|b: u64| #[trigger]
                    bases@.contains(b) ==> b + record::header_count(
                        directory::contents_of(dir, directory::seg_name(b)),
                        0,
                    ) <= u64::MAX,
                segments@.len() == i,
                forall|k: int|
                    0 <= k < i ==> (#[trigger] pairs_view(segments@)[k]) == stored_pair(
                        dir,
                        bases@[k],
                        config,
                    ),
                forall|k: int| 0 <= k < i ==> (#[trigger] pairs_view(segments@)[k]).0.wf(),
            decreases bases@.len() - i,
        {
            let base: u64 = bases[i];
            let data: Vec<u8> = file_contents(&files, &seg_path(base));
            let buf: Vec<u8> = file_contents(&files, &idx_path(base));
            proof {
                lemma_contents_bound(dir, directory::seg_name(base));
                assert(bases@.contains(base));
            }
            let mut segment = Segment::open(data.as_slice(), base, config.max_segment_bytes);
            segment.recover(data.as_slice());
            let index = Index::open(buf.as_slice(), config.index_interval);
            let ghost before = segments@;
            segments.push((segment, index));
            assert(pairs_view(segments@) =~= pairs_view(before).push((segment@, index@)));
            i = i + 1;
        }
        let log = Log { config, segments };
        assert forall|base: u64|
            (exists|i: int|
                0 <= i < log@.segments.len() && (#[trigger] log@.segments[i]).0.base_offset == base)
                <==> #[trigger] has_segment(dir, base) by {
            if has_segment(dir, base) {
                let k = choose|k: int| 0 <= k < bases@.len() && bases@[k] == base;
                assert(log@.segments[k].0.base_offset == base);
            }
            if exists|i: int|
                0 <= i < log@.segments.len() && (#[trigger] log@.segments[i]).0.base_offset
                    == base {
                let k = choose|i: int|
                    0 <= i < log@.segments.len() && (#[trigger] log@.segments[i]).0.base_offset
                        == base;
                assert(bases@[k] == base);
                assert(bases@.contains(base));
            }
        }
        log
    }

    /// What is to be done to append `payload`: the changes to the log's directory go
    /// first. `rotated` says whether the log was rotated for it already.
    pub fn append_step(&self, payload: &[u8], rotated: bool) -> (step: AppendStep)
        requires
            self@.wf(),
        ensures
            step@ == self@.append_step(payload@, rotated),
    {
        let last: usize = self.segments.len() - 1;
        let seg = &self.segments[last].0;
        assert(self@.segments[last as int].0 == seg@);
        if seg.is_full() && !rotated {
            let mut ops: Vec<FileOp> = Vec::new();
            ops.push(self.flush_index());
            ops.push(FileOp::Append { name: seg_path(seg.next_offset), data: Vec::new() });
            assert(directory::ops_view(ops@) =~= self@.rotate_changes());
            AppendStep::Rotate { ops, base: seg.next_offset }
        } else {
            let mut bytes: Vec<u8> = Vec::new();
            push_record(&mut bytes, payload);
            assert(bytes@ =~= record::record_bytes(payload@));
            AppendStep::Write(FileOp::Append { name: seg_path(seg.base_offset), data: bytes })
        }
    }

    /// Appends a record to the active segment. Returns the logical offset assigned
    /// to it.
    pub fn append(&mut self, payload: &[u8]) -> (offset: u64)
        requires
            old(self)@.wf(),
            old(self)@.room_for(payload@),
        ensures
            offset == old(self)@.next_offset(),
            final(self)@ == old(self)@.appended(payload@),
            final(self)@.wf(),
    {
        let last: usize = self.segments.len() - 1;
        let ghost before = self.segments@;
        assert(self@.segments[last as int] == (before[last as int].0@, before[last as int].1@));
        assert(self@.segments[last as int].0.wf());
        let pair = &mut self.segments[last];
        let file_pos_before: u64 = pair.0.file_pos;
        let offset: u64 = pair.0.append(payload);
        let record_index: u64 = pair.0.record_count() - 1;
        pair.1.maybe_record(record_index, offset, file_pos_before);
        assert(self@.segments =~= old(self)@.appended(payload@).segments);
        assert(self@ =~= old(self)@.appended(payload@));
        offset
    }

    /// The changes to a directory that opening a log over it makes: the data file of
    /// each segment comes to exist.
    pub fn open_ops(files: &Vec<StoredFile>) -> (ops: Vec<FileOp>)
        ensures
            exists|bases: Seq<u64>| #[trigger]
                segment_bases(directory::dir_view(files@), bases) && directory::ops_view(ops@)
                    == touches(bases),
    {
        let bases: Vec<u64> = segment_starts(files);
        let mut ops: Vec<FileOp> = Vec::new();
        let mut i: usize = 0;
        while i < bases.len()
            invariant
                i <= bases@.len(),
                directory::ops_view(ops@) == touches(bases@).take(i as int),
            decreases bases@.len() - i,
        {
            let ghost before = ops@;
            let op = FileOp::Append { name: seg_path(bases[i]), data: Vec::new() };
            ops.push(op);
            assert(op@ == touches(bases@)[i as int]);
            assert(directory::ops_view(ops@) =~= directory::ops_view(before).push(op@));
            assert(touches(bases@).take(i + 1) =~= touches(bases@).take(i as int).push(op@));
            i = i + 1;
        }
        assert(touches(bases@).take(i as int) =~= touches(bases@));
        ops
    }

    /// Whether a directory is within the bounds of file sizes and of offsets.
    pub fn can_open(files: &Vec<StoredFile>) -> (r: bool)
        ensures
            r == openable(directory::dir_view(files@)),
    {
        let ghost dir = directory::dir_view(files@);
        let mut i: usize = 0;
        while i < files.len()
            invariant
                i <= files@.len(),
                dir == directory::dir_view(files@),
                forall|j: int| 0 <= j < i ==> (#[trigger] dir[j]).1.len() <= i64::MAX,
            decreases files@.len() - i,
        {
            assert(dir[i as int].1 == files@[i as int].data@);
            if files[i].data.len() as u64 > i64::MAX as u64 {
                return false;
            }
            i = i + 1;
        }
        let bases: Vec<u64> = base_offsets(files);
        let mut k: usize = 0;
        while k < bases.len()
            invariant
                k <= bases@.len(),
                dir == directory::dir_view(files@),
                forall|j: int| 0 <= j < dir.len() ==> (#[trigger] dir[j]).1.len() <= i64::MAX,
                forall|b: u64| bases@.contains(b) <==> #[trigger] directory::listed(dir, b),
                forall|j: int|
                    0 <= j < k ==> (#[trigger] bases@[j]) + record::header_count(
                        directory::contents_of(dir, directory::seg_name(bases@[j])),
                        0,
                    ) <= u64::MAX,
            decreases bases@.len() - k,
        {
            let base: u64 = bases[k];
            let data: Vec<u8> = file_contents(files, &seg_path(base));
            proof {
                lemma_contents_bound(dir, directory::seg_name(base));
                assert(bases@.contains(base));
                assert(directory::listed(dir, base));
            }
            let count: u64 = count_records(data.as_slice());
            if count > u64::MAX - base {
                return false;
            }
            k = k + 1;
        }
        true
    }

    /// Begins to read the record at logical `offset`.
    pub fn read(&self, offset: u64) -> (r: Result<Reading, LogError>)
        requires
            self@.wf(),
        ensures
            match r {
                Ok(reading) => self@.in_range(offset) && reading.file@ == self@.file_of(offset)
                    && reading.cursor == self@.cursor(offset),
                Err(e) => !self@.in_range(offset) && e@ == LogErrorView::OffsetOutOfRange(offset),
            },
    {
        let seg_idx: usize = match self.find_segment(offset) {
            Ok(i) => i,
            Err(e) => {
                return Err(e);
            },
        };
        let pair = &self.segments[seg_idx];
        assert(self@.segments[seg_idx as int] == (pair.0@, pair.1@));
        proof {
            index::law_lookup_finds_the_largest(pair.1@, offset);
        }
        let cursor: Cursor = match pair.1.lookup(offset) {
            Some((indexed_offset, file_pos)) => scan_to(file_pos, offset - indexed_offset),
            None => scan_to(0, offset - pair.0.base_offset),
        };
        Ok(Reading { file: pair.0.reader(), cursor })
    }

    /// The logical offset that will be assigned to the next record.
    pub fn next_offset(&self) -> (offset: u64)
        requires
            self@.wf(),
        ensures
            offset == self@.next_offset(),
    {
        let last: usize = self.segments.len() - 1;
        assert(self@.segments[last as int] == (
            self.segments@[last as int].0@,
            self.segments@[last as int].1@,
        ));
        self.segments[last].0.next_offset
    }

    /// The first logical offset of the log.
    pub fn first_offset(&self) -> (offset: u64)
        requires
            self@.wf(),
        ensures
            offset == self@.first_offset(),
    {
        assert(self@.segments[0] == (self.segments@[0].0@, self.segments@[0].1@));
        self.segments[0].0.base_offset
    }

    /// Whether one more record with this payload stays within the bounds of
    /// offsets and of file sizes.
    pub fn has_room(&self, payload: &[u8]) -> (b: bool)
        requires
            self@.wf(),
        ensures
            b == self@.room_for(payload@),
    {
        let last: usize = self.segments.len() - 1;
        let seg = &self.segments[last].0;
        assert(self@.segments[last as int].0 == seg@);
        let length: u64 = payload.len() as u64 % 0x1_0000_0000;
        seg.next_offset < u64::MAX && seg.file_pos <= u64::MAX - 8 - length
    }

    /// The change to the log's directory that stores the index of the active
    /// segment.
    pub fn flush_index(&self) -> (op: FileOp)
        requires
            self@.wf(),
        ensures
            op@ == self@.flush_change(),
    {
        let last: usize = self.segments.len() - 1;
        let pair = &self.segments[last];
        assert(self@.segments[last as int] == (pair.0@, pair.1@));
        FileOp::Write { name: idx_path(pair.0.base_offset), data: pair.1.flush() }
    }

    /// Starts a new active segment at the next offset, whose files are these.
    pub fn rotate(&mut self, files: SegmentFiles)
        requires
            old(self)@.wf(),
        ensures
            final(self)@ == old(self)@.rotated(files.data@, files.index@),
            final(self)@.wf(),
    {
        let last: usize = self.segments.len() - 1;
        let ghost before = self.segments@;
        let seg = &self.segments[last].0;
        assert(self@.segments[last as int].0 == seg@);
        let new_base: u64 = seg.next_offset;
        let replaced: bool = new_base == seg.base_offset;
        assert(self@.segments[last as int].0.wf());
        let fresh = Segment::open(files.data.as_slice(), new_base, self.config.max_segment_bytes);
        let index = Index::open(files.index.as_slice(), self.config.index_interval);
        if replaced {
            self.segments.pop();
        }
        self.segments.push((fresh, index));
        assert(self@.segments =~= old(self)@.rotated(files.data@, files.index@).segments);
        assert(self@ =~= old(self)@.rotated(files.data@, files.index@));
        assert forall|i: int, j: int| 0 <= i < j < self@.segments.len() implies (
        #[trigger] self@.segments[i]).0.base_offset < (
        #[trigger] self@.segments[j]).0.base_offset by {
            assert(old(self)@.segments[i].0.base_offset <= old(
                self,
            )@.segments[last as int].0.base_offset);
        }
    }

    /// The place of the segment that contains `offset`; where segments leave gaps,
    /// of the last one that starts at or before it.
    fn find_segment(&self, offset: u64) -> (r: Result<usize, LogError>)
        requires
            self@.wf(),
        ensures
            match r {
                Ok(i) => {
                    &&& self@.in_range(offset)
                    &&& i == last_from(self@.segments, offset)
                    &&& 0 <= i < self@.segments.len()
                    &&& self@.segments[i as int].0.base_offset <= offset
                    &&& self@.contiguous() ==> offset < self@.segments[i as int].0.next_offset
                },
                Err(e) => !self@.in_range(offset) && e@ == LogErrorView::OffsetOutOfRange(offset),
            },
    {
        if offset >= self.next_offset() || offset < self.first_offset() {
            return Err(LogError::OffsetOutOfRange(offset));
        }
        let mut low: usize = 0;
        let mut high: usize = self.segments.len();
        while low < high
            invariant
                low <= high <= self.segments@.len(),
                self@.wf(),
                forall|i: int|
                    0 <= i < low ==> (#[trigger] self@.segments[i]).0.base_offset <= offset,
                forall|i: int|
                    high <= i < self.segments@.len() ==> offset < (
                    #[trigger] self@.segments[i]).0.base_offset,
            decreases high - low,
        {
            let mid: usize = low + (high - low) / 2;
            assert(self@.segments[mid as int].0.base_offset
                == self.segments@[mid as int].0.base_offset);
            if self.segments[mid].0.base_offset <= offset {
                low = mid + 1;
            } else {
                high = mid;
            }
        }
        proof {
            lemma_last_from(self@.segments, offset);
            let k = last_from(self@.segments, offset);
            assert(self@.segments[0].0.base_offset <= offset);
            assert(self@.segments[low - 1].0.base_offset <= offset);
            assert(0 <= k ==> self@.segments[k].0.base_offset <= offset);
            if k + 1 < self@.segments.len() {
                assert(offset < self@.segments[k + 1].0.base_offset);
                assert(self@.contiguous() ==> self@.segments[k + 1].0.base_offset
                    == self@.segments[k + 1 - 1].0.next_offset);
            }
        }
        Ok(low - 1)
    }
}

} // verus!
