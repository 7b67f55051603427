//! What a log promises of the sizes of its segments: the limit of its configuration is
//! kept to, neither sooner nor later.

use vstd::prelude::*;

use super::commit_log::{AppendStepView, LogConfig, LogView};
use super::directory;
use super::directory::FileOpView;
use super::index;
use super::laws;
use super::record;

verus! {

/// Whether every segment has the limit of the log's configuration.
pub open spec fn configured(log: LogView) -> bool {
    forall|i: int|
        0 <= i < log.segments.len() ==> (#[trigger] log.segments[i]).0.max_bytes
            == log.config.max_segment_bytes
}

/// An opened log keeps to the limit that it was opened with, and appends and rotations
/// change nothing of that.
pub proof fn law_limit_is_that_of_the_configuration(
    log: LogView,
    dir: directory::DirView,
    config: LogConfig,
    later: LogView,
    payload: Seq<u8>,
    data: Seq<u8>,
    buf: Seq<u8>,
)
    requires
        log.opened(dir, config),
        0 < later.segments.len(),
        configured(later),
    ensures
        log.config == config,
        configured(log),
        later.appended(payload).config == later.config,
        configured(later.appended(payload)),
        later.rotated(data, buf).config == later.config,
        configured(later.rotated(data, buf)),
{
    assert forall|i: int| 0 <= i < log.segments.len() implies (
    #[trigger] log.segments[i]).0.max_bytes == log.config.max_segment_bytes by {}
    let appended = later.appended(payload);
    assert forall|i: int| 0 <= i < appended.segments.len() implies (
    #[trigger] appended.segments[i]).0.max_bytes == appended.config.max_segment_bytes by {
        assert(later.segments[i].0.max_bytes == later.config.max_segment_bytes);
    }
    let rotated = later.rotated(data, buf);
    assert forall|i: int| 0 <= i < rotated.segments.len() implies (
    #[trigger] rotated.segments[i]).0.max_bytes == rotated.config.max_segment_bytes by {
        if i < rotated.segments.len() - 1 {
            assert(rotated.segments[i] == later.segments[i]);
        }
    }
}

/// The next append rotates first exactly when the data of the active segment has
/// reached the configured limit; after the rotation, and below the limit, it writes. So
/// no segment takes another record once its data has reached the limit.
pub proof fn law_append_rotates_at_the_limit(
    log: LogView,
    payloads: Seq<Seq<u8>>,
    payload: Seq<u8>,
)
    requires
        log.holds(payloads),
        configured(log),
    ensures
        log.append_step(payload, false) is Rotate <==> log.segments.last().0.data.len()
            >= log.config.max_segment_bytes,
        log.append_step(payload, false) is Write <==> log.segments.last().0.data.len()
            < log.config.max_segment_bytes,
        log.append_step(payload, true) is Write,
{
    let parts = choose|parts: Seq<Seq<Seq<u8>>>| #[trigger]
        log.holds_parts(parts) && laws::joined(parts) == payloads;
    let n = (log.segments.len() - 1) as int;
    assert(laws::segment_holds(log.segments[n].0, parts[n]));
    assert(log.segments[n].0.max_bytes == log.config.max_segment_bytes);
}

/// What an append asks for: the record goes behind the active segment's data, in the
/// file of that segment; before a rotation the index of the active segment is stored,
/// with all its entries, and the data file at the next offset comes to exist, with what
/// it may hold.
pub proof fn law_append_asks_for_its_files(
    log: LogView,
    payload: Seq<u8>,
    rotated: bool,
    dir: directory::DirView,
)
    requires
        log.wf(),
    ensures
        match log.append_step(payload, rotated) {
            AppendStepView::Write(op) => {
                let name = directory::seg_name(log.segments.last().0.base_offset);
                directory::file_in(directory::applied(dir, op), name) == Some(
                    directory::contents_of(dir, name) + record::record_bytes(payload),
                )
            },
            AppendStepView::Rotate { ops, base } => {
                let seg = log.segments.last().0;
                let after = directory::applied_all(dir, ops);
                let idx = directory::idx_name(seg.base_offset);
                let data = directory::seg_name(seg.next_offset);
                &&& base == seg.next_offset
                &&& index::entries_of(directory::contents_of(after, idx))
                    == log.segments.last().1.entries
                &&& directory::file_in(after, data) == Some(directory::contents_of(dir, data))
            },
        },
{
    let (seg, idx) = log.segments.last();
    match log.append_step(payload, rotated) {
        AppendStepView::Write(op) => {
            let name = directory::seg_name(seg.base_offset);
            directory::lemma_with_file(
                dir,
                name,
                directory::contents_of(dir, name) + record::record_bytes(payload),
                name,
            );
        },
        AppendStepView::Rotate { ops, base } => {
            let name = directory::idx_name(seg.base_offset);
            let bytes = index::entries_bytes(idx.entries);
            let data = directory::seg_name(seg.next_offset);
            let first = directory::applied(dir, ops[0]);
            reveal_with_fuel(directory::applied_all, 3);
            assert(ops.drop_last().drop_last() =~= Seq::<FileOpView>::empty());
            assert(directory::applied_all(dir, ops) == directory::applied(first, ops[1]));
            directory::lemma_index_names(seg.base_offset, seg.next_offset);
            directory::lemma_with_file(dir, name, bytes, name);
            directory::lemma_with_file(dir, name, bytes, data);
            let kept = directory::contents_of(first, data) + Seq::<u8>::empty();
            assert(kept =~= directory::contents_of(first, data));
            directory::lemma_with_file(first, data, kept, name);
            directory::lemma_with_file(first, data, kept, data);
            index::lemma_entries_read_back(idx.entries);
        },
    }
}

/// Whether each segment was below the limit when it took its last record, if that was
/// not its only one, and each but the last has reached the limit.
pub open spec fn within_limits(log: LogView, parts: Seq<Seq<Seq<u8>>>) -> bool {
    &&& forall|i: int|
        0 <= i < parts.len() && (#[trigger] parts[i]).len() > 1 ==> record::records_bytes(
            parts[i].drop_last(),
        ).len() < log.config.max_segment_bytes
    &&& forall|i: int|
        0 <= i < log.segments.len() - 1 ==> (#[trigger] log.segments[i]).0.data.len()
            >= log.config.max_segment_bytes
}

/// Whether the log holds these payloads in segments within the limits.
pub open spec fn holds_within_limits(log: LogView, payloads: Seq<Seq<u8>>) -> bool {
    exists|parts: Seq<Seq<Seq<u8>>>| #[trigger]
        log.holds_parts(parts) && laws::joined(parts) == payloads && within_limits(log, parts)
}

proof fn lemma_ready_within_limits(log: LogView, parts: Seq<Seq<Seq<u8>>>) -> (more: Seq<
    Seq<Seq<u8>>,
>)
    requires
        log.holds_parts(parts),
        configured(log),
        within_limits(log, parts),
    ensures
        log.ready().holds_parts(more),
        laws::joined(more) == laws::joined(parts),
        configured(log.ready()),
        log.ready().config == log.config,
        within_limits(log.ready(), more),
        more.last().len() > 0 ==> log.ready().segments.last().0.data.len()
            < log.config.max_segment_bytes,
{
    let n = (log.segments.len() - 1) as int;
    let (seg, idx) = log.segments[n];
    assert(laws::segment_holds(seg, parts[n]));
    assert(seg.max_bytes == log.config.max_segment_bytes);
    if log.full() {
        let (data, buf) = if seg.next_offset == seg.base_offset {
            (seg.data, index::entries_bytes(idx.entries))
        } else {
            (Seq::<u8>::empty(), Seq::<u8>::empty())
        };
        index::lemma_entries_read_back(idx.entries);
        laws::lemma_rotated(log, parts, data, buf);
        let ready = log.ready();
        let more = laws::parts_rotated(log, parts);
        assert forall|i: int| 0 <= i < ready.segments.len() implies (
        #[trigger] ready.segments[i]).0.max_bytes == ready.config.max_segment_bytes by {
            if i < ready.segments.len() - 1 {
                assert(ready.segments[i] == log.segments[i]);
            }
        }
        assert forall|i: int| 0 <= i < ready.segments.len() - 1 implies (
        #[trigger] ready.segments[i]).0.data.len() >= ready.config.max_segment_bytes by {
            assert(ready.segments[i] == log.segments[i]);
        }
        assert forall|i: int| 0 <= i < more.len() && (
        #[trigger] more[i]).len() > 1 implies record::records_bytes(more[i].drop_last()).len()
            < ready.config.max_segment_bytes by {
            assert(more[i] == parts[i]);
        }
        more
    } else {
        parts
    }
}

proof fn lemma_appended_within_limits(log: LogView, parts: Seq<Seq<Seq<u8>>>, payload: Seq<u8>)
    requires
        log.holds_parts(parts),
        configured(log),
        within_limits(log, parts),
        parts.last().len() > 0 ==> log.segments.last().0.data.len()
            < log.config.max_segment_bytes,
        log.room_for(payload),
        payload.len() < 0x1_0000_0000,
    ensures
        log.appended(payload).holds_parts(laws::parts_appended(parts, payload)),
        laws::joined(laws::parts_appended(parts, payload)) == laws::joined(parts).push(payload),
        configured(log.appended(payload)),
        within_limits(log.appended(payload), laws::parts_appended(parts, payload)),
{
    laws::lemma_appended(log, parts, payload);
    let after = log.appended(payload);
    let more = laws::parts_appended(parts, payload);
    let n = (parts.len() - 1) as int;
    assert(laws::segment_holds(log.segments[n].0, parts[n]));
    assert forall|i: int| 0 <= i < after.segments.len() implies (
    #[trigger] after.segments[i]).0.max_bytes == after.config.max_segment_bytes by {
        assert(log.segments[i].0.max_bytes == log.config.max_segment_bytes);
    }
    assert forall|i: int| 0 <= i < after.segments.len() - 1 implies (
    #[trigger] after.segments[i]).0.data.len() >= after.config.max_segment_bytes by {
        assert(after.segments[i] == log.segments[i]);
    }
    assert forall|i: int| 0 <= i < more.len() && (
    #[trigger] more[i]).len() > 1 implies record::records_bytes(more[i].drop_last()).len()
        < after.config.max_segment_bytes by {
        if i < n {
            assert(more[i] == parts[i]);
        } else {
            assert(more[i].drop_last() =~= parts[n]);
        }
    }
}

/// Any sequence of payloads appended to an empty log is spread over segments by the
/// configured limit: every segment but the last has reached it, and none took a record
/// after it had, but for the first record of a segment.
pub proof fn law_segments_keep_to_the_limit(log: LogView, payloads: Seq<Seq<u8>>)
    requires
        log.holds(Seq::empty()),
        log.segments.len() == 1,
        configured(log),
        record::all_short(payloads),
        log.room_for_all(payloads),
    ensures
        holds_within_limits(log.appended_all(payloads), payloads),
        configured(log.appended_all(payloads)),
        log.appended_all(payloads).config == log.config,
    decreases payloads.len(),
{
    if payloads.len() == 0 {
        let none = Seq::<Seq<u8>>::empty();
        let parts = choose|parts: Seq<Seq<Seq<u8>>>| #[trigger]
            log.holds_parts(parts) && laws::joined(parts) == none;
        assert(parts.drop_last() =~= Seq::<Seq<Seq<u8>>>::empty());
        assert(laws::joined(parts) =~= parts[0]);
        assert(payloads =~= none);
        assert(within_limits(log, parts));
    } else {
        let front = payloads.drop_last();
        let n = (payloads.len() - 1) as int;
        assert(front =~= payloads.take(n));
        assert forall|k: int| 0 <= k < front.len() implies log.appended_all(
            front.take(k),
        ).ready().room_for(#[trigger] front[k]) by {
            assert(front.take(k) =~= payloads.take(k));
            assert(front[k] == payloads[k]);
        }
        assert forall|k: int| 0 <= k < front.len() implies (#[trigger] front[k]).len()
            < 0x1_0000_0000 by {
            assert(front[k] == payloads[k]);
        }
        law_segments_keep_to_the_limit(log, front);
        let before = log.appended_all(front);
        let parts = choose|parts: Seq<Seq<Seq<u8>>>| #[trigger]
            before.holds_parts(parts) && laws::joined(parts) == front && within_limits(
                before,
                parts,
            );
        let more = lemma_ready_within_limits(before, parts);
        assert(before.ready().room_for(payloads[n]));
        lemma_appended_within_limits(before.ready(), more, payloads[n]);
        assert(front.push(payloads[n]) =~= payloads);
        assert(log.appended_all(payloads) == before.ready().appended(payloads[n]));
    }
}

/// There is room for a record unless offsets or positions run out of 64 bits.
pub proof fn law_room_ends_with_the_numbers(log: LogView, payload: Seq<u8>)
    requires
        0 < log.segments.len(),
        log.segments.last().0.next_offset < u64::MAX,
        log.segments.last().0.file_pos + 8 + payload.len() <= u64::MAX,
    ensures
        log.room_for(payload),
{
    let n = payload.len() as int;
    assert(n % 0x1_0000_0000 <= n) by (nonlinear_arith)
        requires
            0 <= n,
    ;
}

} // verus!
