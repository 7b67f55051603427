//! What an index, a rotation and the opening of a log do, step by step.

use vstd::prelude::*;

use super::commit_log;
use super::commit_log::LogView;
use super::directory;
use super::directory::{DirView, FileOp, FileOpView, StoredFile};
use super::index;
use super::index::IndexView;
use super::record::{Chunk, ChunkView};
use super::{LogError, LogErrorView};

verus! {

/// A lookup in an index that is in order gives the largest offset up to the target: an entry
/// of the index, none that is larger than the target, and none that is smaller than another
/// entry up to the target.
pub proof fn law_lookup_is_the_largest_upto(idx: IndexView, target: u64, j: int)
    requires
        forall|a: int, b: int|
            0 <= a <= b < idx.entries.len() ==> (#[trigger] idx.entries[a]).0 <= (
            #[trigger] idx.entries[b]).0,
        0 <= j < idx.entries.len(),
    ensures
        idx.found(target) matches Some(e) ==> e.0 <= target && idx.entries.contains(e),
        idx.entries[j].0 <= target ==> idx.found(target) is Some,
        idx.found(target) matches Some(e) ==> idx.entries[j].0 <= target ==> idx.entries[j].0
            <= e.0,
        idx.entries.last().0 <= target ==> idx.found(target) == Some(idx.entries.last()),
{
    index::law_lookup_finds_the_largest(idx, target);
    assert(index::in_order(idx.entries));
    if idx.found(target) is Some {
        let i = choose|i: int|
            0 <= i < idx.entries.len() && #[trigger] idx.entries[i] == idx.found(target)->0 && (
            index::in_order(idx.entries) ==> forall|k: int|
                i < k < idx.entries.len() ==> target < idx.entries[k].0);
        assert(idx.entries[i] == idx.found(target)->0);
        let last = (idx.entries.len() - 1) as int;
        if idx.entries[last].0 <= target && i < last {
            assert(target < idx.entries[last].0);
        }
        if idx.entries[j].0 <= target && i < j {
            assert(target < idx.entries[j].0);
        }
    }
}

/// An append counts in one record: the active segment has it behind the others, its index is
/// told of the record's place, offset and position, and the other segments stay.
pub proof fn law_append_counts_in_one_record(log: LogView, payload: Seq<u8>, i: int)
    requires
        log.wf(),
    ensures
        log.appended(payload).config == log.config,
        log.appended(payload).segments.len() == log.segments.len(),
        0 <= i < log.segments.len() - 1 ==> log.appended(payload).segments[i] == log.segments[i],
        ({
            let (seg, idx) = log.segments.last();
            let (seg2, idx2) = log.appended(payload).segments.last();
            &&& seg2 == seg.appended(payload)
            &&& idx2 == idx.told(
                (seg.next_offset - seg.base_offset) as u64,
                seg.next_offset,
                seg.file_pos,
            )
        }),
{
}

/// A rotation starts a segment at the next offset, over the files that are there, with the
/// limit and the interval of the configuration. The segments before it stay, but for one
/// without a record, whose files the new one takes over.
pub proof fn law_rotation_starts_a_segment(log: LogView, data: Seq<u8>, buf: Seq<u8>, i: int)
    requires
        log.wf(),
        data.len() <= u64::MAX,
    ensures
        ({
            let after = log.rotated(data, buf);
            let (seg, idx) = after.segments.last();
            let old_seg = log.segments.last().0;
            &&& after.config == log.config
            &&& seg.base_offset == old_seg.next_offset
            &&& seg.next_offset == old_seg.next_offset
            &&& seg.file_pos == data.len()
            &&& seg.data == data
            &&& seg.max_bytes == log.config.max_segment_bytes
            &&& idx.entries == index::entries_of(buf)
            &&& idx.interval == log.config.index_interval
            &&& old_seg.base_offset == old_seg.next_offset ==> after.segments.len()
                == log.segments.len()
            &&& old_seg.base_offset != old_seg.next_offset ==> after.segments.len()
                == log.segments.len() + 1
            &&& 0 <= i < after.segments.len() - 1 ==> after.segments[i] == log.segments[i]
        }),
{
}

/// Storing the index puts all its entries in the index file of the active segment, and
/// changes no other file.
pub proof fn law_flush_stores_the_index(log: LogView, dir: DirView, other: Seq<char>)
    requires
        log.wf(),
    ensures
        ({
            let name = directory::idx_name(log.segments.last().0.base_offset);
            let after = directory::applied(dir, log.flush_change());
            &&& index::entries_of(directory::contents_of(after, name))
                == log.segments.last().1.entries
            &&& other != name ==> directory::file_in(after, other) == directory::file_in(
                dir,
                other,
            )
        }),
{
    let (seg, idx) = log.segments.last();
    let name = directory::idx_name(seg.base_offset);
    let bytes = index::entries_bytes(idx.entries);
    index::lemma_entries_read_back(idx.entries);
    directory::lemma_with_file(dir, name, bytes, name);
    directory::lemma_with_file(dir, name, bytes, other);
}

/// What a change does to a directory: the file that it names holds the bytes that were
/// written, or those bytes behind what it held, and every other file stays.
pub proof fn law_changes_to_a_directory(
    dir: DirView,
    name: Seq<char>,
    data: Seq<u8>,
    other: Seq<char>,
)
    ensures
        directory::file_in(directory::applied(dir, FileOpView::Write { name, data }), name)
            == Some(data),
        directory::file_in(directory::applied(dir, FileOpView::Append { name, data }), name)
            == Some(directory::contents_of(dir, name) + data),
        other != name ==> directory::file_in(
            directory::applied(dir, FileOpView::Write { name, data }),
            other,
        ) == directory::file_in(dir, other),
        other != name ==> directory::file_in(
            directory::applied(dir, FileOpView::Append { name, data }),
            other,
        ) == directory::file_in(dir, other),
{
    let more = directory::contents_of(dir, name) + data;
    directory::lemma_with_file(dir, name, data, name);
    directory::lemma_with_file(dir, name, data, other);
    directory::lemma_with_file(dir, name, more, name);
    directory::lemma_with_file(dir, name, more, other);
}

proof fn lemma_touched_files(dir: DirView, bases: Seq<u64>, k: int, name: Seq<char>)
    requires
        0 <= k <= bases.len(),
    ensures
        directory::contents_of(
            directory::applied_all(dir, commit_log::touches(bases).take(k)),
            name,
        ) == directory::contents_of(dir, name),
        directory::file_in(dir, name) is Some ==> directory::file_in(
            directory::applied_all(dir, commit_log::touches(bases).take(k)),
            name,
        ) is Some,
        forall|i: int|
            0 <= i < k && directory::seg_name(#[trigger] bases[i]) == name ==> directory::file_in(
                directory::applied_all(dir, commit_log::touches(bases).take(k)),
                name,
            ) is Some,
    decreases k,
{
    let ops = commit_log::touches(bases);
    if k > 0 {
        let before = directory::applied_all(dir, ops.take(k - 1));
        assert(ops.take(k).drop_last() =~= ops.take(k - 1));
        assert(ops.take(k).last() == ops[k - 1]);
        lemma_touched_files(dir, bases, k - 1, name);
        let file = directory::seg_name(bases[k - 1]);
        let kept = directory::contents_of(before, file) + Seq::<u8>::empty();
        assert(kept =~= directory::contents_of(before, file));
        directory::lemma_with_file(before, file, kept, name);
    } else {
        assert(ops.take(0) =~= Seq::<FileOpView>::empty());
    }
}

/// Opening a log makes the data file of each of its segments exist, and changes what no file
/// holds.
pub proof fn law_opening_only_makes_files_exist(
    dir: DirView,
    bases: Seq<u64>,
    i: int,
    name: Seq<char>,
)
    requires
        0 <= i < bases.len(),
    ensures
        ({
            let after = directory::applied_all(dir, commit_log::touches(bases));
            &&& directory::file_in(after, directory::seg_name(bases[i])) is Some
            &&& directory::contents_of(after, name) == directory::contents_of(dir, name)
        }),
{
    let ops = commit_log::touches(bases);
    let n = bases.len() as int;
    assert(ops.take(n) =~= ops);
    lemma_touched_files(dir, bases, n, directory::seg_name(bases[i]));
    lemma_touched_files(dir, bases, n, name);
}

/// A file listing is its names and their bytes, a change is its name and its bytes, and what
/// was read is its bytes or its cause.
pub proof fn law_listings_are_names_and_bytes(
    files: Seq<StoredFile>,
    i: int,
    op: FileOp,
    chunk: Chunk,
    e: LogError,
)
    ensures
        directory::dir_view(files).len() == files.len(),
        0 <= i < files.len() ==> directory::dir_view(files)[i] == (files[i].name@, files[i].data@),
        match op {
            FileOp::Write { name, data } => op@ == (FileOpView::Write {
                name: name@,
                data: data@,
            }),
            FileOp::Append { name, data } => op@ == (FileOpView::Append {
                name: name@,
                data: data@,
            }),
        },
        match chunk {
            Chunk::Bytes(bytes) => chunk@ == ChunkView::Bytes(bytes@),
            Chunk::SeekFailed(cause) => chunk@ == ChunkView::SeekFailed(cause@),
            Chunk::ReadFailed(cause) => chunk@ == ChunkView::ReadFailed(cause@),
        },
        match e {
            LogError::Io(cause) => e@ == LogErrorView::Io(cause@),
            LogError::CrcMismatch { expected, actual } => e@ == (LogErrorView::CrcMismatch {
                expected,
                actual,
            }),
            LogError::OffsetOutOfRange(offset) => e@ == LogErrorView::OffsetOutOfRange(offset),
            LogError::Empty => e@ == LogErrorView::Empty,
            LogError::CorruptRecord(cause) => e@ == LogErrorView::CorruptRecord(cause@),
        },
{
}

/// A file is found under its name, the first where there are more, and only there.
pub proof fn law_files_are_found_by_name(dir: DirView, name: Seq<char>, i: int)
    requires
        0 <= i < dir.len(),
        forall|k: int| 0 <= k < i ==> (#[trigger] dir[k]).0 != name,
    ensures
        dir[i].0 == name ==> directory::file_in(dir, name) == Some(dir[i].1)
            && directory::contents_of(dir, name) == dir[i].1,
        (forall|k: int| 0 <= k < dir.len() ==> (#[trigger] dir[k]).0 != name)
            ==> directory::file_in(dir, name) is None && directory::contents_of(dir, name)
            == Seq::<u8>::empty(),
    decreases dir.len(),
{
    let rest = dir.drop_first();
    if i > 0 {
        assert(dir[0].0 != name);
        assert forall|k: int| 0 <= k < i - 1 implies (#[trigger] rest[k]).0 != name by {
            assert(rest[k] == dir[k + 1]);
        }
        if forall|k: int| 0 <= k < dir.len() ==> (#[trigger] dir[k]).0 != name {
            assert forall|k: int| 0 <= k < rest.len() implies (#[trigger] rest[k]).0 != name by {
                assert(rest[k] == dir[k + 1]);
            }
        }
        law_files_are_found_by_name(rest, name, i - 1);
        assert(rest[i - 1] == dir[i]);
    } else if forall|k: int| 0 <= k < dir.len() ==> (#[trigger] dir[k]).0 != name {
        lemma_no_file(dir, name);
    }
}

proof fn lemma_no_file(dir: DirView, name: Seq<char>)
    requires
        forall|k: int| 0 <= k < dir.len() ==> (#[trigger] dir[k]).0 != name,
    ensures
        directory::file_in(dir, name) is None,
    decreases dir.len(),
{
    if dir.len() > 0 {
        let rest = dir.drop_first();
        assert forall|k: int| 0 <= k < rest.len() implies (#[trigger] rest[k]).0 != name by {
            assert(rest[k] == dir[k + 1]);
        }
        assert(dir[0].0 != name);
        lemma_no_file(rest, name);
    }
}

/// A name is that of an index file if it ends in `.idx`.
pub proof fn law_index_file_names(front: Seq<char>, name: Seq<char>)
    ensures
        directory::ends_in(front + ".idx"@, directory::index_suffix()),
        directory::ends_in(name, directory::index_suffix()) ==> name.len() >= 4 && name
            == name.take(name.len() - 4) + ".idx"@,
{
    reveal_strlit(".idx");
    let suffix = directory::index_suffix();
    assert(".idx"@ =~= suffix);
    let whole = front + suffix;
    assert(whole.skip(whole.len() - 4) =~= suffix);
    if directory::ends_in(name, suffix) {
        assert(name =~= name.take(name.len() - 4) + name.skip(name.len() - 4));
    }
}

} // verus!
