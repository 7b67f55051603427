//! What the directory of a log promises: the changes that a log asks for keep its
//! files in step with it, and opening them gives the log back.

use vstd::prelude::*;

use super::commit_log;
use super::commit_log::{LogConfig, LogView};
use super::directory;
use super::directory::{DirView, FileOpView};
use super::index;
use super::laws;
use super::record;
use super::record::Cursor;
use super::LogErrorView;

verus! {

/// Two ascending sequences with the same members are the same.
proof fn lemma_ascending_same_members(a: Seq<u64>, b: Seq<u64>)
    requires
        forall|i: int, j: int| 0 <= i < j < a.len() ==> a[i] < a[j],
        forall|i: int, j: int| 0 <= i < j < b.len() ==> b[i] < b[j],
        forall|x: u64| #[trigger] a.contains(x) <==> b.contains(x),
    ensures
        a == b,
    decreases a.len(),
{
    if a.len() == 0 {
        if b.len() > 0 {
            assert(b.contains(b[0]));
            assert(a.contains(b[0]));
        }
        assert(a =~= b);
    } else {
        assert(a.contains(a[0]));
        assert(b.contains(a[0]));
        let la = a.last();
        let lb = b.last();
        assert(a.contains(la) && b.contains(lb)) by {
            assert(a[a.len() - 1] == la);
            assert(b[b.len() - 1] == lb);
        }
        assert(b.contains(la) && a.contains(lb));
        let i = choose|i: int| 0 <= i < b.len() && b[i] == la;
        let j = choose|j: int| 0 <= j < a.len() && a[j] == lb;
        assert(la == lb);
        let fa = a.drop_last();
        let fb = b.drop_last();
        assert forall|x: u64| #[trigger] fa.contains(x) <==> fb.contains(x) by {
            if fa.contains(x) {
                let k = choose|k: int| 0 <= k < fa.len() && fa[k] == x;
                assert(a[k] == x);
                assert(a.contains(x));
                let m = choose|m: int| 0 <= m < b.len() && b[m] == x;
                assert(x < la);
                assert(fb[m] == x);
            }
            if fb.contains(x) {
                let k = choose|k: int| 0 <= k < fb.len() && fb[k] == x;
                assert(b[k] == x);
                assert(b.contains(x));
                assert(a.contains(x));
                let m = choose|m: int| 0 <= m < a.len() && a[m] == x;
                assert(x < lb);
                assert(fa[m] == x);
            }
        }
        lemma_ascending_same_members(fa, fb);
        assert(a =~= fa.push(la));
        assert(b =~= fb.push(lb));
    }
}

spec fn bases(log: LogView) -> Seq<u64> {
    Seq::new(log.segments.len(), |i: int| log.segments[i].0.base_offset)
}

/// Opening the directory of a log gives back its records, its first offset and its
/// next offset, whatever configuration it is opened with; and the directory keeps
/// the opened log too.
pub proof fn law_log_survives_reopen(
    log: LogView,
    dir: DirView,
    payloads: Seq<Seq<u8>>,
    again: LogView,
    config: LogConfig,
)
    requires
        log.kept_in(dir, payloads),
        again.opened(dir, config),
    ensures
        again.holds(payloads),
        again.kept_in(dir, payloads),
        again.first_offset() == log.first_offset(),
        again.next_offset() == log.next_offset(),
{
    let parts = choose|parts: Seq<Seq<Seq<u8>>>| #[trigger]
        log.holds_parts(parts) && laws::joined(parts) == payloads && log.stored_parts(dir, parts);
    let a = bases(log);
    let b = bases(again);
    assert forall|x: u64| #[trigger] a.contains(x) <==> b.contains(x) by {
        if a.contains(x) {
            let k = choose|k: int| 0 <= k < a.len() && a[k] == x;
            assert(log.segments[k].0.base_offset == x);
            directory::law_segment_name_gives_base(x);
            directory::lemma_found_is_listed(dir, directory::seg_name(x), x);
            assert(commit_log::has_segment(dir, x));
            let m = choose|i: int|
                0 <= i < again.segments.len() && (#[trigger] again.segments[i]).0.base_offset == x;
            assert(b[m] == x);
        }
        if b.contains(x) {
            let k = choose|k: int| 0 <= k < b.len() && b[k] == x;
            assert(again.segments[k].0.base_offset == x);
            assert(commit_log::has_segment(dir, x));
            let first = log.segments[0].0.base_offset;
            directory::law_segment_name_gives_base(first);
            directory::lemma_found_is_listed(dir, directory::seg_name(first), first);
            assert(directory::listed(dir, x));
            let m = choose|i: int|
                0 <= i < log.segments.len() && (#[trigger] log.segments[i]).0.base_offset == x;
            assert(a[m] == x);
        }
    }
    assert forall|i: int, j: int| 0 <= i < j < a.len() implies a[i] < a[j] by {
        assert(log.segments[i].0.base_offset < log.segments[j].0.base_offset);
    }
    assert forall|i: int, j: int| 0 <= i < j < b.len() implies b[i] < b[j] by {
        assert(again.segments[i].0.base_offset < again.segments[j].0.base_offset);
    }
    lemma_ascending_same_members(a, b);
    assert(log.segments.len() == again.segments.len());
    assert forall|i: int| 0 <= i < parts.len() implies again.segments[i].0.base_offset
        == log.segments[i].0.base_offset && again.segments[i].0.data == log.segments[i].0.data
        && again.segments[i].0.next_offset == log.segments[i].0.next_offset
        && laws::segment_holds((#[trigger] again.segments[i]).0, parts[i]) && laws::entries_true(
        again.segments[i].0.base_offset,
        parts[i],
        again.segments[i].1.entries,
    ) by {
        assert(a[i] == b[i]);
        let seg = log.segments[i].0;
        assert(laws::segment_holds(seg, parts[i]));
        assert(again.segments[i] == commit_log::stored_pair(dir, seg.base_offset, config));
        assert(directory::file_in(dir, directory::seg_name(log.segments[i].0.base_offset)) == Some(
            seg.data,
        ));
        record::lemma_headers_of_records(parts[i], 0);
        assert(parts[i].take(0) =~= Seq::<Seq<u8>>::empty());
        assert(seg.wf());
    }
    assert forall|i: int| 0 < i < parts.len() implies (
    #[trigger] again.segments[i]).0.base_offset == again.segments[i - 1].0.next_offset by {
        assert(again.segments[i].0.base_offset == log.segments[i].0.base_offset);
        assert(again.segments[i - 1].0.next_offset == log.segments[i - 1].0.next_offset);
        assert(log.segments[i].0.base_offset == log.segments[i - 1].0.next_offset);
    }
    let n = parts.len() - 1;
    assert(again.segments[n].0.base_offset == log.segments[n].0.base_offset);
    assert(again.holds_parts(parts));
    assert forall|i: int| 0 <= i < again.segments.len() implies directory::file_in(
        dir,
        directory::seg_name((#[trigger] again.segments[i]).0.base_offset),
    ) == Some(again.segments[i].0.data) && laws::entries_true(
        again.segments[i].0.base_offset,
        parts[i],
        index::entries_of(
            directory::contents_of(dir, directory::idx_name(again.segments[i].0.base_offset)),
        ),
    ) by {
        assert(directory::file_in(dir, directory::seg_name(log.segments[i].0.base_offset)) == Some(
            log.segments[i].0.data,
        ));
    }
    assert forall|x: u64| #[trigger] directory::listed(dir, x) implies exists|i: int|
        0 <= i < again.segments.len() && (#[trigger] again.segments[i]).0.base_offset == x by {
        let m = choose|i: int|
            0 <= i < log.segments.len() && (#[trigger] log.segments[i]).0.base_offset == x;
        assert(again.segments[m].0.base_offset == x);
    }
    assert(again.stored_parts(dir, parts));
}

/// Storing the index of the active segment keeps the directory in step.
pub proof fn law_flush_keeps_files(log: LogView, dir: DirView, payloads: Seq<Seq<u8>>)
    requires
        log.kept_in(dir, payloads),
    ensures
        log.kept_in(directory::applied(dir, log.flush_change()), payloads),
{
    let parts = choose|parts: Seq<Seq<Seq<u8>>>| #[trigger]
        log.holds_parts(parts) && laws::joined(parts) == payloads && log.stored_parts(dir, parts);
    lemma_flushed(log, dir, parts);
}

proof fn lemma_flushed(log: LogView, dir: DirView, parts: Seq<Seq<Seq<u8>>>)
    requires
        log.holds_parts(parts),
        log.stored_parts(dir, parts),
    ensures
        log.stored_parts(directory::applied(dir, log.flush_change()), parts),
{
    let n = (log.segments.len() - 1) as int;
    let base = log.segments[n].0.base_offset;
    let entries = log.segments[n].1.entries;
    let name = directory::idx_name(base);
    let data = index::entries_bytes(entries);
    let after = directory::applied(dir, log.flush_change());
    index::lemma_entries_read_back(entries);
    assert forall|i: int| 0 <= i < log.segments.len() implies directory::file_in(
        after,
        directory::seg_name((#[trigger] log.segments[i]).0.base_offset),
    ) == Some(log.segments[i].0.data) && laws::entries_true(
        log.segments[i].0.base_offset,
        parts[i],
        index::entries_of(
            directory::contents_of(after, directory::idx_name(log.segments[i].0.base_offset)),
        ),
    ) by {
        let b = log.segments[i].0.base_offset;
        directory::lemma_index_names(base, b);
        directory::lemma_with_file(dir, name, data, directory::seg_name(b));
        directory::lemma_with_file(dir, name, data, directory::idx_name(b));
        assert(laws::entries_true(b, parts[i], log.segments[i].1.entries));
        if i < n {
            assert(b < base);
        }
    }
    assert forall|x: u64| #[trigger] directory::listed(after, x) implies exists|i: int|
        0 <= i < log.segments.len() && (#[trigger] log.segments[i]).0.base_offset == x by {
        directory::lemma_with_file_listed(dir, name, data, x);
        directory::lemma_index_names(base, x);
        assert(directory::listed(dir, x));
    }
    assert forall|x: u64| base < x implies index::entries_of(
        directory::contents_of(after, #[trigger] directory::idx_name(x)),
    ).len() == 0 by {
        directory::lemma_index_names(base, x);
        directory::lemma_with_file(dir, name, data, directory::idx_name(x));
    }
}

/// Adding to the data file of the active segment keeps the directory in step with
/// a log whose active segment has these bytes more.
proof fn lemma_data_added(
    log: LogView,
    dir: DirView,
    parts: Seq<Seq<Seq<u8>>>,
    bytes: Seq<u8>,
    more: LogView,
    more_parts: Seq<Seq<Seq<u8>>>,
)
    requires
        log.holds_parts(parts),
        log.stored_parts(dir, parts),
        more.holds_parts(more_parts),
        more.segments.len() == log.segments.len(),
        forall|i: int|
            0 <= i < log.segments.len() - 1 ==> #[trigger] more.segments[i] == log.segments[i]
                && more_parts[i] == parts[i],
        more.segments.last().0.base_offset == log.segments.last().0.base_offset,
        more.segments.last().0.data == log.segments.last().0.data + bytes,
        forall|k: int|
            0 <= k < parts.last().len() ==> k < more_parts.last().len()
                && #[trigger] more_parts.last()[k] == parts.last()[k],
    ensures
        more.stored_parts(
            directory::applied(
                dir,
                FileOpView::Append {
                    name: directory::seg_name(log.segments.last().0.base_offset),
                    data: bytes,
                },
            ),
            more_parts,
        ),
{
    let n = (log.segments.len() - 1) as int;
    let base = log.segments[n].0.base_offset;
    let name = directory::seg_name(base);
    let data = directory::contents_of(dir, name) + bytes;
    let after = directory::with_file(dir, name, data);
    directory::law_segment_name_gives_base(base);
    assert(directory::file_in(dir, directory::seg_name(log.segments[n].0.base_offset)) == Some(
        log.segments[n].0.data,
    ));
    assert(parts.last().len() <= more_parts.last().len()) by {
        if parts.last().len() > 0 {
            assert(more_parts.last()[parts.last().len() - 1] == parts.last()[parts.last().len()
                - 1]);
        }
    }
    assert forall|i: int| 0 <= i < more.segments.len() implies directory::file_in(
        after,
        directory::seg_name((#[trigger] more.segments[i]).0.base_offset),
    ) == Some(more.segments[i].0.data) && laws::entries_true(
        more.segments[i].0.base_offset,
        more_parts[i],
        index::entries_of(
            directory::contents_of(after, directory::idx_name(more.segments[i].0.base_offset)),
        ),
    ) by {
        let b = more.segments[i].0.base_offset;
        assert(b == log.segments[i].0.base_offset);
        directory::law_segment_name_gives_base(b);
        directory::lemma_index_names(b, base);
        directory::lemma_with_file(dir, name, data, directory::seg_name(b));
        directory::lemma_with_file(dir, name, data, directory::idx_name(b));
        assert(directory::file_in(dir, directory::seg_name(log.segments[i].0.base_offset)) == Some(
            log.segments[i].0.data,
        ));
        let entries = index::entries_of(directory::contents_of(dir, directory::idx_name(b)));
        assert(laws::entries_true(b, parts[i], entries));
        if i < n {
            assert(b < base);
        } else {
            assert forall|k: int| 0 <= k < entries.len() implies b <= (#[trigger] entries[k]).0 < b
                + more_parts[i].len() && entries[k].1 == record::position_of(
                more_parts[i],
                entries[k].0 - b,
            ) by {
                let at = (entries[k].0 - b) as int;
                assert(more_parts[i].take(at) =~= parts[i].take(at));
            }
        }
    }
    assert forall|x: u64| #[trigger] directory::listed(after, x) implies exists|i: int|
        0 <= i < more.segments.len() && (#[trigger] more.segments[i]).0.base_offset == x by {
        directory::lemma_with_file_listed(dir, name, data, x);
        if directory::listed(dir, x) {
            let m = choose|i: int|
                0 <= i < log.segments.len() && (#[trigger] log.segments[i]).0.base_offset == x;
            assert(more.segments[m].0.base_offset == x);
        } else {
            assert(more.segments[n].0.base_offset == x);
        }
    }
    assert forall|x: u64| base < x implies index::entries_of(
        directory::contents_of(after, #[trigger] directory::idx_name(x)),
    ).len() == 0 by {
        directory::lemma_index_names(x, base);
        directory::lemma_with_file(dir, name, data, directory::idx_name(x));
    }
}

/// Creating the data file of a new segment keeps the directory in step with the
/// log that was rotated to it.
proof fn lemma_segment_created(
    log: LogView,
    dir: DirView,
    parts: Seq<Seq<Seq<u8>>>,
    buf: Seq<u8>,
)
    requires
        log.holds_parts(parts),
        log.stored_parts(dir, parts),
        log.segments.last().0.base_offset < log.segments.last().0.next_offset,
        log.rotated(Seq::empty(), buf).holds_parts(parts.push(Seq::empty())),
    ensures
        directory::file_in(
            dir,
            directory::seg_name(log.segments.last().0.next_offset),
        ) is None,
        log.rotated(Seq::empty(), buf).stored_parts(
            directory::applied(
                dir,
                FileOpView::Append {
                    name: directory::seg_name(log.segments.last().0.next_offset),
                    data: Seq::empty(),
                },
            ),
            parts.push(Seq::empty()),
        ),
{
    let rotated = log.rotated(Seq::empty(), buf);
    let more = parts.push(Seq::empty());
    let n = (log.segments.len() - 1) as int;
    let old_base = log.segments[n].0.base_offset;
    let base = log.segments[n].0.next_offset;
    let name = directory::seg_name(base);
    directory::law_segment_name_gives_base(base);
    assert(directory::file_in(dir, name) is None) by {
        if directory::file_in(dir, name) is Some {
            directory::lemma_found_is_listed(dir, name, base);
            let m = choose|i: int|
                0 <= i < log.segments.len() && (#[trigger] log.segments[i]).0.base_offset == base;
            if m < n {
                assert(log.segments[m].0.base_offset < log.segments[n].0.base_offset);
            }
        }
    }
    let data = directory::contents_of(dir, name) + Seq::<u8>::empty();
    assert(data =~= Seq::<u8>::empty());
    let after = directory::with_file(dir, name, data);
    assert forall|i: int| 0 <= i < rotated.segments.len() implies directory::file_in(
        after,
        directory::seg_name((#[trigger] rotated.segments[i]).0.base_offset),
    ) == Some(rotated.segments[i].0.data) && laws::entries_true(
        rotated.segments[i].0.base_offset,
        more[i],
        index::entries_of(
            directory::contents_of(after, directory::idx_name(rotated.segments[i].0.base_offset)),
        ),
    ) by {
        let b = rotated.segments[i].0.base_offset;
        directory::law_segment_name_gives_base(b);
        directory::lemma_index_names(b, base);
        directory::lemma_with_file(dir, name, data, directory::seg_name(b));
        directory::lemma_with_file(dir, name, data, directory::idx_name(b));
        if i <= n {
            assert(rotated.segments[i] == log.segments[i]);
            assert(directory::file_in(dir, directory::seg_name(log.segments[i].0.base_offset))
                == Some(log.segments[i].0.data));
            if i < n {
                assert(log.segments[i].0.base_offset < log.segments[n].0.base_offset);
            }
        } else {
            let entries = index::entries_of(directory::contents_of(dir, directory::idx_name(b)));
            assert(entries.len() == 0);
        }
    }
    assert forall|x: u64| #[trigger] directory::listed(after, x) implies exists|i: int|
        0 <= i < rotated.segments.len() && (#[trigger] rotated.segments[i]).0.base_offset == x by {
        directory::lemma_with_file_listed(dir, name, data, x);
        if directory::listed(dir, x) {
            let m = choose|i: int|
                0 <= i < log.segments.len() && (#[trigger] log.segments[i]).0.base_offset == x;
            assert(rotated.segments[m] == log.segments[m]);
        } else {
            assert(rotated.segments[n + 1].0.base_offset == x);
        }
    }
    assert forall|x: u64| base < x implies index::entries_of(
        directory::contents_of(after, #[trigger] directory::idx_name(x)),
    ).len() == 0 by {
        directory::lemma_index_names(x, base);
        directory::lemma_with_file(dir, name, data, directory::idx_name(x));
    }
}

/// The changes that go before a rotation leave the log's own files to rotate to, and
/// the directory is in step with the log that was rotated to them.
pub proof fn law_rotation_keeps_files(log: LogView, dir: DirView, payloads: Seq<Seq<u8>>)
    requires
        log.kept_in(dir, payloads),
    ensures
        ({
            let after = directory::applied_all(dir, log.rotate_changes());
            let data = directory::contents_of(after, directory::seg_name(log.next_offset()));
            let buf = directory::contents_of(after, directory::idx_name(log.next_offset()));
            &&& log.own_files(data, buf)
            &&& log.rotated(data, buf).kept_in(after, payloads)
        }),
{
    let parts = choose|parts: Seq<Seq<Seq<u8>>>| #[trigger]
        log.holds_parts(parts) && laws::joined(parts) == payloads && log.stored_parts(dir, parts);
    let n = (log.segments.len() - 1) as int;
    let (seg, idx) = log.segments[n];
    let base = seg.base_offset;
    let next = seg.next_offset;
    let first = directory::applied(dir, log.flush_change());
    let after = directory::applied(first, log.rotate_changes()[1]);
    lemma_applied_two(dir, log.rotate_changes());
    lemma_flushed(log, dir, parts);
    assert(laws::segment_holds(seg, parts[n]));
    index::lemma_entries_read_back(idx.entries);
    let idx_file = directory::idx_name(base);
    let idx_data = index::entries_bytes(idx.entries);
    let name = directory::seg_name(next);
    let stored = directory::contents_of(first, name) + Seq::<u8>::empty();
    assert(after == directory::with_file(first, name, stored));
    assert(stored =~= directory::contents_of(first, name));
    directory::law_segment_name_gives_base(next);
    directory::lemma_index_names(next, next);
    directory::lemma_with_file(first, name, stored, name);
    directory::lemma_with_file(first, name, stored, directory::idx_name(next));
    directory::lemma_with_file(dir, idx_file, idx_data, directory::idx_name(next));
    let data = directory::contents_of(after, name);
    let buf = directory::contents_of(after, directory::idx_name(next));
    if next == base {
        assert(directory::file_in(first, directory::seg_name(log.segments[n].0.base_offset))
            == Some(log.segments[n].0.data));
        assert(log.own_files(data, buf));
        laws::lemma_rotated(log, parts, data, buf);
        assert(seg.data + Seq::<u8>::empty() =~= seg.data);
        lemma_data_added(log, first, parts, Seq::empty(), log.rotated(data, buf), parts);
    } else {
        directory::lemma_index_names(base, next);
        assert(index::entries_of(directory::contents_of(first, directory::idx_name(next))).len()
            == 0);
        let none = Seq::<u8>::empty();
        assert(log.own_files(none, buf));
        laws::lemma_rotated(log, parts, none, buf);
        lemma_segment_created(log, first, parts, buf);
        assert(data =~= none);
        laws::lemma_rotated(log, parts, data, buf);
    }
    assert(log.rotated(data, buf).kept_in(after, payloads)) by {
        let more = laws::parts_rotated(log, parts);
        assert(log.rotated(data, buf).holds_parts(more));
    }
}

proof fn lemma_applied_two(dir: DirView, changes: Seq<FileOpView>)
    requires
        changes.len() == 2,
    ensures
        directory::applied_all(dir, changes) == directory::applied(
            directory::applied(dir, changes[0]),
            changes[1],
        ),
{
    reveal_with_fuel(directory::applied_all, 3);
}

/// The change that goes before an append keeps the directory in step with the log.
pub proof fn law_append_keeps_files(
    log: LogView,
    dir: DirView,
    payloads: Seq<Seq<u8>>,
    payload: Seq<u8>,
)
    requires
        log.kept_in(dir, payloads),
        log.room_for(payload),
        payload.len() < 0x1_0000_0000,
    ensures
        log.appended(payload).kept_in(
            directory::applied(dir, log.append_change(payload)),
            payloads.push(payload),
        ),
{
    let parts = choose|parts: Seq<Seq<Seq<u8>>>| #[trigger]
        log.holds_parts(parts) && laws::joined(parts) == payloads && log.stored_parts(dir, parts);
    laws::lemma_appended(log, parts, payload);
    lemma_data_added(
        log,
        dir,
        parts,
        record::record_bytes(payload),
        log.appended(payload),
        laws::parts_appended(parts, payload),
    );
}

/// A read finds in the directory the file whose bytes it needs: reading it step by
/// step gives back what was appended.
pub proof fn law_read_finds_its_file(
    log: LogView,
    dir: DirView,
    payloads: Seq<Seq<u8>>,
    offset: u64,
)
    requires
        log.kept_in(dir, payloads),
        log.in_range(offset),
    ensures
        offset - log.first_offset() < payloads.len(),
        log.cursor(offset).outcome_on(directory::contents_of(dir, log.file_of(offset))) == Ok::<
            Seq<u8>,
            LogErrorView,
        >(payloads[offset - log.first_offset()]),
{
    let parts = choose|parts: Seq<Seq<Seq<u8>>>| #[trigger]
        log.holds_parts(parts) && laws::joined(parts) == payloads && log.stored_parts(dir, parts);
    assert(log.holds(payloads));
    laws::law_read_gives_back(log, payloads, offset, log.reads(offset));
    let k = log.looked_in(offset);
    commit_log::lemma_last_from(log.segments, offset);
    assert(log.segments[0].0.base_offset <= offset);
    assert(directory::file_in(dir, directory::seg_name(log.segments[k].0.base_offset)) == Some(
        log.segments[k].0.data,
    ));
}

/// A record that the directory keeps is read step by step to the end: as many steps as
/// there are records to skip and two more give back what was appended.
pub proof fn law_kept_record_is_read(
    log: LogView,
    dir: DirView,
    payloads: Seq<Seq<u8>>,
    offset: u64,
    skip: u64,
)
    requires
        log.kept_in(dir, payloads),
        log.in_range(offset),
        directory::contents_of(dir, log.file_of(offset)).len() <= i64::MAX,
        log.cursor(offset) matches Cursor::Seek { pos, skip: left } && left == skip,
    ensures
        offset - log.first_offset() < payloads.len(),
        record::read_through(
            log.cursor(offset),
            directory::contents_of(dir, log.file_of(offset)),
            skip as nat + 2,
        ) == Some(Ok::<Seq<u8>, LogErrorView>(payloads[offset - log.first_offset()])),
{
    law_read_finds_its_file(log, dir, payloads, offset);
    record::law_read_comes_to_its_outcome(
        log.cursor(offset),
        directory::contents_of(dir, log.file_of(offset)),
    );
}

/// Making sure that a data file exists which does changes nothing.
proof fn lemma_touched(log: LogView, dir: DirView, parts: Seq<Seq<Seq<u8>>>, k: int)
    requires
        log.holds_parts(parts),
        log.stored_parts(dir, parts),
        0 <= k < log.segments.len(),
    ensures
        log.stored_parts(directory::applied(dir, log.open_changes()[k]), parts),
{
    let base = log.segments[k].0.base_offset;
    let name = directory::seg_name(base);
    let data = directory::contents_of(dir, name) + Seq::<u8>::empty();
    let after = directory::applied(dir, log.open_changes()[k]);
    assert(after == directory::with_file(dir, name, data));
    assert(directory::file_in(dir, directory::seg_name(log.segments[k].0.base_offset)) == Some(
        log.segments[k].0.data,
    ));
    assert(data =~= log.segments[k].0.data);
    directory::law_segment_name_gives_base(base);
    assert forall|i: int| 0 <= i < log.segments.len() implies directory::file_in(
        after,
        directory::seg_name((#[trigger] log.segments[i]).0.base_offset),
    ) == Some(log.segments[i].0.data) && laws::entries_true(
        log.segments[i].0.base_offset,
        parts[i],
        index::entries_of(
            directory::contents_of(after, directory::idx_name(log.segments[i].0.base_offset)),
        ),
    ) by {
        let b = log.segments[i].0.base_offset;
        directory::law_segment_name_gives_base(b);
        directory::lemma_index_names(b, base);
        directory::lemma_with_file(dir, name, data, directory::seg_name(b));
        directory::lemma_with_file(dir, name, data, directory::idx_name(b));
        assert(directory::file_in(dir, directory::seg_name(log.segments[i].0.base_offset)) == Some(
            log.segments[i].0.data,
        ));
    }
    assert forall|x: u64| #[trigger] directory::listed(after, x) implies exists|i: int|
        0 <= i < log.segments.len() && (#[trigger] log.segments[i]).0.base_offset == x by {
        directory::lemma_with_file_listed(dir, name, data, x);
        if !directory::listed(dir, x) {
            assert(log.segments[k].0.base_offset == x);
        }
    }
    assert forall|x: u64| log.segments.last().0.base_offset < x implies index::entries_of(
        directory::contents_of(after, #[trigger] directory::idx_name(x)),
    ).len() == 0 by {
        directory::lemma_index_names(x, base);
        directory::lemma_with_file(dir, name, data, directory::idx_name(x));
    }
}

proof fn lemma_all_touched(log: LogView, dir: DirView, parts: Seq<Seq<Seq<u8>>>, k: int)
    requires
        log.holds_parts(parts),
        log.stored_parts(dir, parts),
        0 <= k <= log.segments.len(),
    ensures
        log.stored_parts(directory::applied_all(dir, log.open_changes().take(k)), parts),
    decreases k,
{
    let changes = log.open_changes();
    if k > 0 {
        lemma_all_touched(log, dir, parts, k - 1);
        assert(changes.take(k).drop_last() =~= changes.take(k - 1));
        lemma_touched(log, directory::applied_all(dir, changes.take(k - 1)), parts, k - 1);
    }
}

/// The changes to a directory before a log is opened over it are those that make
/// the data files of that log exist.
pub proof fn law_open_makes_the_data_files(
    log: LogView,
    dir: DirView,
    config: LogConfig,
    starts: Seq<u64>,
)
    requires
        log.opened(dir, config),
        commit_log::segment_bases(dir, starts),
    ensures
        commit_log::touches(starts) == log.open_changes(),
{
    let own = bases(log);
    assert forall|x: u64| #[trigger] own.contains(x) <==> starts.contains(x) by {
        if own.contains(x) {
            let k = choose|k: int| 0 <= k < own.len() && own[k] == x;
            assert(log.segments[k].0.base_offset == x);
            assert(commit_log::has_segment(dir, x));
        }
        if starts.contains(x) {
            assert(commit_log::has_segment(dir, x));
            let k = choose|i: int|
                0 <= i < log.segments.len() && (#[trigger] log.segments[i]).0.base_offset == x;
            assert(own[k] == x);
        }
    }
    assert forall|i: int, j: int| 0 <= i < j < own.len() implies own[i] < own[j] by {
        assert(log.segments[i].0.base_offset < log.segments[j].0.base_offset);
    }
    lemma_ascending_same_members(own, starts);
}

/// The changes that go with opening a log over its own directory keep the
/// directory in step with it.
pub proof fn law_open_keeps_files(log: LogView, dir: DirView, payloads: Seq<Seq<u8>>)
    requires
        log.kept_in(dir, payloads),
    ensures
        log.kept_in(directory::applied_all(dir, log.open_changes()), payloads),
{
    let parts = choose|parts: Seq<Seq<Seq<u8>>>| #[trigger]
        log.holds_parts(parts) && laws::joined(parts) == payloads && log.stored_parts(dir, parts);
    let changes = log.open_changes();
    lemma_all_touched(log, dir, parts, changes.len() as int);
    assert(changes.take(changes.len() as int) =~= changes);
}

/// The changes that go with opening a log over an empty directory put the
/// directory in step with it.
pub proof fn law_new_log_has_its_files(log: LogView, config: LogConfig)
    requires
        log.opened(Seq::empty(), config),
    ensures
        log.kept_in(
            directory::applied_all(Seq::empty(), log.open_changes()),
            Seq::empty(),
        ),
{
    let dir: DirView = Seq::empty();
    laws::law_new_log_is_empty(log, config);
    let parts = choose|parts: Seq<Seq<Seq<u8>>>| #[trigger]
        log.holds_parts(parts) && laws::joined(parts) == Seq::<Seq<u8>>::empty();
    assert forall|i: int| 0 <= i < log.segments.len() implies (
    #[trigger] log.segments[i]).0.base_offset == 0 by {
        assert(commit_log::has_segment(dir, log.segments[i].0.base_offset));
    }
    assert(log.segments.len() == 1) by {
        if log.segments.len() > 1 {
            assert(log.segments[0].0.base_offset < log.segments[1].0.base_offset);
        }
    }
    assert(log.segments[0] == commit_log::stored_pair(dir, 0, config));
    let changes = log.open_changes();
    let name = directory::seg_name(0);
    let none = Seq::<u8>::empty();
    assert(changes.drop_last() =~= Seq::<FileOpView>::empty());
    let after = directory::with_file(dir, name, none);
    assert(directory::contents_of(dir, name) + none =~= none);
    assert(directory::applied_all(dir, changes) == after) by {
        reveal_with_fuel(directory::applied_all, 2);
        assert(changes.last() == FileOpView::Append { name, data: Seq::empty() });
    }
    directory::law_segment_name_gives_base(0);
    directory::lemma_index_names(0, 0);
    directory::lemma_with_file(dir, name, none, name);
    directory::lemma_with_file(dir, name, none, directory::idx_name(0));
    assert(laws::entries_true(0, parts[0], index::entries_of(none)));
    assert forall|x: u64| #[trigger] directory::listed(after, x) implies exists|i: int|
        0 <= i < log.segments.len() && (#[trigger] log.segments[i]).0.base_offset == x by {
        directory::lemma_with_file_listed(dir, name, none, x);
        assert(log.segments[0].0.base_offset == x);
    }
    assert forall|x: u64| 0 < x implies index::entries_of(
        directory::contents_of(after, #[trigger] directory::idx_name(x)),
    ).len() == 0 by {
        directory::lemma_index_names(x, 0);
        directory::lemma_with_file(dir, name, none, directory::idx_name(x));
    }
    assert(log.stored_parts(after, parts));
}

} // verus!
