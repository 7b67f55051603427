//! What the broker promises of the directories of its partitions: each step is made in
//! the directory of the partition that the frame names, and in no other.

use vstd::prelude::*;

use super::protocol::FrameView;
use super::server;
use super::server::{Event, ServerView, StepView};
use crate::log::commit_log::LogView;
use crate::log::directory;
use crate::log::directory::DirView;
use crate::log::laws;
use crate::log::storage_laws;
use crate::log::LogErrorView;

verus! {

/// The directories of all partitions, by topic and partition.
pub type Disk = Map<(Seq<char>, u32), DirView>;

/// The directories after a step was performed, in the partition that the step names.
pub open spec fn performed(disk: Disk, step: StepView) -> Disk {
    match step {
        StepView::Rotate { topic, partition, ops, base } => disk.insert(
            (topic, partition),
            directory::applied_all(disk[(topic, partition)], ops),
        ),
        StepView::Write { topic, partition, op } => disk.insert(
            (topic, partition),
            directory::applied(disk[(topic, partition)], op),
        ),
        _ => disk,
    }
}

/// The bytes of the file that a step reads, in the partition that the step names.
pub open spec fn file_read(disk: Disk, step: StepView) -> Seq<u8> {
    match step {
        StepView::Read { topic, partition, file, cursor } => directory::contents_of(
            disk[(topic, partition)],
            file,
        ),
        _ => Seq::empty(),
    }
}

/// The log of a partition that is there.
pub open spec fn log_at(state: ServerView, name: Seq<char>, partition: u32) -> LogView {
    state.manager.topics[name][partition as int]
}

/// Whether the topic is there and has the partition.
pub open spec fn has_partition(state: ServerView, name: Seq<char>, partition: u32) -> bool {
    state.manager.topics.contains_key(name) && partition < state.manager.topics[name].len()
}

/// Whatever a frame leads to, a step that touches a directory names the topic and the
/// partition of the frame, and a step that loads a topic names the topic of the frame.
/// A fetch writes nothing, a produce reads no record, and no other frame does either.
pub proof fn law_step_names_the_partition_of_its_frame(
    frame: FrameView,
    event: Event,
    before: ServerView,
    after: ServerView,
    step: StepView,
)
    requires
        server::handled(frame, event, before, after, step),
    ensures
        match step {
            StepView::Load { topic, partitions } => match frame {
                FrameView::Produce { topic: name, partition, payload } => topic == name
                    && !before.manager.topics.contains_key(name) && (partition < u32::MAX
                    ==> partitions == partition + 1),
                FrameView::CreateTopic { name, num_partitions } => topic == name
                    && !before.manager.topics.contains_key(name) && partitions == num_partitions,
                _ => false,
            },
            StepView::Rotate { topic, partition, ops, base } => frame matches FrameView::Produce {
                topic: name,
                partition: p,
                payload,
            } && topic == name && partition == p,
            StepView::Write { topic, partition, op } => frame matches FrameView::Produce {
                topic: name,
                partition: p,
                payload,
            } && topic == name && partition == p,
            StepView::Read { topic, partition, file, cursor } => frame matches FrameView::Fetch {
                topic: name,
                partition: p,
                offset,
            } && topic == name && partition == p && has_partition(before, name, p) && log_at(
                before,
                name,
                p,
            ).first_offset() <= offset < log_at(before, name, p).next_offset(),
            StepView::Reply(reply) => true,
        },
{
}

/// A step changes no directory but that of the frame's own partition.
pub proof fn law_step_leaves_other_directories(
    disk: Disk,
    frame: FrameView,
    event: Event,
    before: ServerView,
    after: ServerView,
    step: StepView,
    other: (Seq<char>, u32),
)
    requires
        server::handled(frame, event, before, after, step),
        disk.contains_key(other),
        !(frame matches FrameView::Produce { topic, partition, payload } && (topic, partition)
            == other),
    ensures
        performed(disk, step).contains_key(other),
        performed(disk, step)[other] == disk[other],
{
    law_step_names_the_partition_of_its_frame(frame, event, before, after, step);
}

/// A produce to a partition whose active segment has reached no limit is written to the
/// partition's own directory, as one record behind what the active segment's data file
/// held; once that is acknowledged, under the next offset, the directory keeps the log
/// with the payload at its end.
pub proof fn law_produced_record_is_on_disk(
    disk: Disk,
    name: Seq<char>,
    partition: u32,
    payload: Seq<u8>,
    payloads: Seq<Seq<u8>>,
    before: ServerView,
    mid: ServerView,
    step: StepView,
    written: Event,
    after: ServerView,
    reply: StepView,
)
    requires
        has_partition(before, name, partition),
        log_at(before, name, partition).kept_in(disk[(name, partition)], payloads),
        payload.len() < 0x1_0000_0000,
        server::handled(
            (FrameView::Produce { topic: name, partition, payload }),
            Event::Received,
            before,
            mid,
            step,
        ),
        !(step is Rotate),
        written is Written,
        written->Written_0 is Ok,
        server::admitted(
            (FrameView::Produce { topic: name, partition, payload }),
            written,
            mid.manager,
        ),
        server::handled(
            (FrameView::Produce { topic: name, partition, payload }),
            written,
            mid,
            after,
            reply,
        ),
    ensures
        step is Write,
        mid == before,
        reply == StepView::Reply(
            FrameView::ProduceAck { offset: log_at(before, name, partition).next_offset() },
        ),
        has_partition(after, name, partition),
        log_at(after, name, partition).kept_in(
            performed(disk, step)[(name, partition)],
            payloads.push(payload),
        ),
        log_at(after, name, partition).first_offset() == log_at(
            before,
            name,
            partition,
        ).first_offset(),
{
    let log = log_at(before, name, partition);
    assert(before.manager.refusal(name, partition) is None);
    assert(mid =~= before);
    storage_laws::law_append_keeps_files(log, disk[(name, partition)], payloads, payload);
    assert(log_at(after, name, partition) == log.appended(payload));
    let parts = choose|parts: Seq<Seq<Seq<u8>>>| #[trigger]
        log.holds_parts(parts) && laws::joined(parts) == payloads && log.stored_parts(
            disk[(name, partition)],
            parts,
        );
    assert(log.holds(payloads));
    laws::law_append_adds_at_the_end(log, payloads, payload);
}

/// The same where the active segment has reached its limit: the partition's own
/// directory is changed for the rotation, the files found in it are taken up, and the
/// record goes to the new segment.
pub proof fn law_produced_record_is_on_disk_after_rotation(
    disk: Disk,
    name: Seq<char>,
    partition: u32,
    payload: Seq<u8>,
    payloads: Seq<Seq<u8>>,
    before: ServerView,
    mid: ServerView,
    rotate: StepView,
    rotated: Event,
    ready: ServerView,
    step: StepView,
    written: Event,
    after: ServerView,
    reply: StepView,
)
    requires
        has_partition(before, name, partition),
        log_at(before, name, partition).kept_in(disk[(name, partition)], payloads),
        payload.len() < 0x1_0000_0000,
        server::handled(
            (FrameView::Produce { topic: name, partition, payload }),
            Event::Received,
            before,
            mid,
            rotate,
        ),
        rotate is Rotate,
        rotated is Rotated,
        rotated->Rotated_0 is Ok,
        ({
            let dir = performed(disk, rotate)[(name, partition)];
            let files = rotated->Rotated_0->Ok_0;
            let base = rotate->Rotate_base;
            &&& files.data@ == directory::contents_of(dir, directory::seg_name(base))
            &&& files.index@ == directory::contents_of(dir, directory::idx_name(base))
        }),
        server::handled(
            (FrameView::Produce { topic: name, partition, payload }),
            rotated,
            mid,
            ready,
            step,
        ),
        written is Written,
        written->Written_0 is Ok,
        server::admitted(
            (FrameView::Produce { topic: name, partition, payload }),
            written,
            ready.manager,
        ),
        server::handled(
            (FrameView::Produce { topic: name, partition, payload }),
            written,
            ready,
            after,
            reply,
        ),
    ensures
        step is Write,
        mid == before,
        reply == StepView::Reply(
            FrameView::ProduceAck { offset: log_at(before, name, partition).next_offset() },
        ),
        has_partition(after, name, partition),
        log_at(after, name, partition).kept_in(
            performed(performed(disk, rotate), step)[(name, partition)],
            payloads.push(payload),
        ),
        log_at(after, name, partition).first_offset() == log_at(
            before,
            name,
            partition,
        ).first_offset(),
{
    let log = log_at(before, name, partition);
    let dir = disk[(name, partition)];
    assert(before.manager.refusal(name, partition) is None);
    assert(mid =~= before);
    storage_laws::law_rotation_keeps_files(log, dir, payloads);
    let files = rotated->Rotated_0->Ok_0;
    let turned = log.rotated(files.data@, files.index@);
    let after_dir = performed(disk, rotate)[(name, partition)];
    assert(turned.kept_in(after_dir, payloads));
    assert(log_at(ready, name, partition) == turned);
    assert(ready.manager.refusal(name, partition) is None);
    storage_laws::law_append_keeps_files(turned, after_dir, payloads, payload);
    assert(log_at(after, name, partition) == turned.appended(payload));
    let parts = choose|parts: Seq<Seq<Seq<u8>>>| #[trigger]
        turned.holds_parts(parts) && laws::joined(parts) == payloads && turned.stored_parts(
            after_dir,
            parts,
        );
    assert(turned.holds(payloads));
    laws::law_append_adds_at_the_end(turned, payloads, payload);
    let own = choose|own: Seq<Seq<Seq<u8>>>| #[trigger]
        log.holds_parts(own) && laws::joined(own) == payloads && log.stored_parts(dir, own);
    assert(log.holds(payloads));
    laws::law_rotation_keeps_the_records(log, payloads, files.data@, files.index@);
}

/// A fetch reads in the partition's own directory, and comes to the record that the
/// directory keeps under the offset; with that it is answered, and nothing changes.
pub proof fn law_fetched_record_is_from_disk(
    disk: Disk,
    name: Seq<char>,
    partition: u32,
    offset: u64,
    payloads: Seq<Seq<u8>>,
    before: ServerView,
    mid: ServerView,
    step: StepView,
    read: Event,
    after: ServerView,
    reply: StepView,
)
    requires
        has_partition(before, name, partition),
        log_at(before, name, partition).kept_in(disk[(name, partition)], payloads),
        log_at(before, name, partition).first_offset() <= offset,
        offset < log_at(before, name, partition).next_offset(),
        server::handled(
            (FrameView::Fetch { topic: name, partition, offset }),
            Event::Received,
            before,
            mid,
            step,
        ),
        read is Read,
        match read->Read_0 {
            Ok(payload) => step->cursor.outcome_on(file_read(disk, step)) == Ok::<
                Seq<u8>,
                LogErrorView,
            >(payload@),
            Err(e) => step->cursor.outcome_on(file_read(disk, step)) == Err::<
                Seq<u8>,
                LogErrorView,
            >(e@),
        },
        server::handled(
            (FrameView::Fetch { topic: name, partition, offset }),
            read,
            mid,
            after,
            reply,
        ),
    ensures
        step is Read,
        mid == before,
        after == before,
        ({
            let at = offset - log_at(before, name, partition).first_offset();
            &&& 0 <= at < payloads.len()
            &&& reply == StepView::Reply(FrameView::FetchData { offset, payload: payloads[at] })
        }),
{
    let log = log_at(before, name, partition);
    assert(before.manager.refusal(name, partition) is None);
    storage_laws::law_read_finds_its_file(log, disk[(name, partition)], payloads, offset);
}

} // verus!
