//! What the broker promises across requests.

use vstd::prelude::*;

use super::protocol::FrameView;
use super::server;
use super::server::{Event, ServerView, StepView};
use super::topic::TopicManagerView;
use crate::log::commit_log::LogView;
use crate::log::directory;
use crate::log::directory::DirView;
use crate::log::laws;
use crate::log::storage_laws;
use crate::log::{LogError, LogErrorView};

verus! {

/// Whether a record was read from a data file that holds what the log wrote.
pub open spec fn reads_own(event: Event, log: LogView, offset: u64) -> bool {
    match event {
        Event::Read(Ok(payload)) => log.reads(offset) == Ok::<Seq<u8>, LogErrorView>(payload@),
        Event::Read(Err(e)) => log.reads(offset) == Err::<Seq<u8>, LogErrorView>(e@),
        _ => false,
    }
}

/// A fetch of an offset that a log has first asks for the record to be read, in the
/// file and from the place that the log knows, and changes nothing. Where the
/// directory has the files of the log, the read comes to the payload that was
/// appended under the offset.
pub proof fn law_fetch_asks_for_the_record(
    before: ServerView,
    name: Seq<char>,
    partition: u32,
    payloads: Seq<Seq<u8>>,
    offset: u64,
    dir: DirView,
    after: ServerView,
    step: StepView,
)
    requires
        before.manager.refusal(name, partition) is None,
        before.manager.topics[name][partition as int].kept_in(dir, payloads),
        before.manager.topics[name][partition as int].in_range(offset),
        server::handled(
            (FrameView::Fetch { topic: name, partition, offset }),
            Event::Received,
            before,
            after,
            step,
        ),
    ensures
        after == before,
        step is Read,
        ({
            let at = offset - before.manager.topics[name][partition as int].first_offset();
            &&& 0 <= at < payloads.len()
            &&& step->cursor.outcome_on(directory::contents_of(dir, step->file)) == Ok::<
                Seq<u8>,
                LogErrorView,
            >(payloads[at])
        }),
{
    let log = before.manager.topics[name][partition as int];
    storage_laws::law_read_finds_its_file(log, dir, payloads, offset);
}

/// A fetch of an offset that a log has is answered with the payload that was
/// appended under it, once the record is read, and changes nothing.
pub proof fn law_fetch_gives_back(
    before: ServerView,
    name: Seq<char>,
    partition: u32,
    payloads: Seq<Seq<u8>>,
    offset: u64,
    event: Event,
    after: ServerView,
    step: StepView,
)
    requires
        before.manager.refusal(name, partition) is None,
        before.manager.topics[name][partition as int].holds(payloads),
        before.manager.topics[name][partition as int].in_range(offset),
        reads_own(event, before.manager.topics[name][partition as int], offset),
        server::handled(
            (FrameView::Fetch { topic: name, partition, offset }),
            event,
            before,
            after,
            step,
        ),
    ensures
        ({
            let at = offset - before.manager.topics[name][partition as int].first_offset();
            &&& 0 <= at < payloads.len()
            &&& step == StepView::Reply(FrameView::FetchData { offset, payload: payloads[at] })
        }),
        after == before,
{
    let log = before.manager.topics[name][partition as int];
    laws::law_read_gives_back(log, payloads, offset, log.reads(offset));
}

/// A fetch past the end, or before the first record, is answered with an error that
/// names the offset, and changes nothing.
pub proof fn law_fetch_out_of_range(
    before: ServerView,
    name: Seq<char>,
    partition: u32,
    offset: u64,
    event: Event,
    after: ServerView,
    step: StepView,
)
    requires
        before.manager.refusal(name, partition) is None,
        !before.manager.topics[name][partition as int].in_range(offset),
        server::handled(
            (FrameView::Fetch { topic: name, partition, offset }),
            event,
            before,
            after,
            step,
        ),
    ensures
        step == server::refused(0x03, LogErrorView::OffsetOutOfRange(offset).message()),
        after == before,
{
}

/// A payload that was produced is acknowledged with the next offset of the
/// partition, and a fetch of that offset gives it back; what the partition held
/// before it still holds.
pub proof fn law_produced_is_fetched(
    before: ServerView,
    name: Seq<char>,
    partition: u32,
    payloads: Seq<Seq<u8>>,
    payload: Seq<u8>,
    event: Event,
    after: ServerView,
    step: StepView,
    fetch_event: Event,
    later: ServerView,
    reply: StepView,
)
    requires
        before.manager.refusal(name, partition) is None,
        before.manager.topics[name][partition as int].holds(payloads),
        server::admitted(
            (FrameView::Produce { topic: name, partition, payload }),
            event,
            before.manager,
        ),
        payload.len() < 0x1_0000_0000,
        event is Written,
        event->Written_0 is Ok,
        reads_own(
            fetch_event,
            after.manager.topics[name][partition as int],
            before.manager.topics[name][partition as int].next_offset(),
        ),
        server::handled(
            (FrameView::Produce { topic: name, partition, payload }),
            event,
            before,
            after,
            step,
        ),
        server::handled(
            (FrameView::Fetch {
                topic: name,
                partition,
                offset: before.manager.topics[name][partition as int].next_offset(),
            }),
            fetch_event,
            after,
            later,
            reply,
        ),
    ensures
        ({
            let offset = before.manager.topics[name][partition as int].next_offset();
            &&& step == StepView::Reply(FrameView::ProduceAck { offset })
            &&& reply == StepView::Reply(FrameView::FetchData { offset, payload })
        }),
        after.manager.refusal(name, partition) is None,
        after.manager.topics[name][partition as int].holds(payloads.push(payload)),
        later == after,
{
    let log = before.manager.topics[name][partition as int];
    let offset = log.next_offset();
    laws::law_append_adds_at_the_end(log, payloads, payload);
    laws::law_offsets_are_consecutive(log, payloads);
    assert(after.manager.topics[name][partition as int] == log.appended(payload));
    law_fetch_gives_back(
        after,
        name,
        partition,
        payloads.push(payload),
        offset,
        fetch_event,
        later,
        reply,
    );
}

/// The topic that a frame is about, if it is one that can change a topic.
pub open spec fn subject(frame: FrameView) -> Option<Seq<char>> {
    match frame {
        FrameView::Produce { topic, partition, payload } => Some(topic),
        FrameView::CreateTopic { name, num_partitions } => Some(name),
        _ => None,
    }
}

/// A request leaves every topic but its own as it was, and committed offsets
/// change by commits only.
pub proof fn law_request_leaves_the_rest(
    frame: FrameView,
    event: Event,
    before: ServerView,
    after: ServerView,
    step: StepView,
    other: Seq<char>,
)
    requires
        server::handled(frame, event, before, after, step),
        subject(frame) != Some(other),
    ensures
        after.manager.topics.contains_key(other) == before.manager.topics.contains_key(other),
        before.manager.topics.contains_key(other) ==> after.manager.topics[other]
            == before.manager.topics[other],
        !(frame is CommitOffset) ==> after.offsets == before.offsets,
{
}

/// A produce leaves the other partitions of its topic as they were.
pub proof fn law_produce_leaves_other_partitions(
    name: Seq<char>,
    partition: u32,
    payload: Seq<u8>,
    event: Event,
    before: ServerView,
    after: ServerView,
    step: StepView,
    other: int,
)
    requires
        before.manager.topics.contains_key(name),
        0 <= other < before.manager.topics[name].len(),
        other != partition,
        server::handled(
            (FrameView::Produce { topic: name, partition, payload }),
            event,
            before,
            after,
            step,
        ),
    ensures
        after.manager.topics.contains_key(name),
        after.manager.topics[name].len() == before.manager.topics[name].len(),
        after.manager.topics[name][other] == before.manager.topics[name][other],
{
}

/// A topic that is created over the directories of partitions that were there
/// before has their records again, under their offsets.
pub proof fn law_records_survive_a_restart(
    name: Seq<char>,
    dirs: Seq<Vec<directory::StoredFile>>,
    before: TopicManagerView,
    after: TopicManagerView,
    partition: int,
    log: LogView,
    payloads: Seq<Seq<u8>>,
)
    requires
        server::with_topic(before, name, dirs, after),
        0 <= partition < dirs.len(),
        log.kept_in(directory::dir_view(dirs[partition]@), payloads),
    ensures
        after.topics[name][partition].holds(payloads),
        after.topics[name][partition].kept_in(directory::dir_view(dirs[partition]@), payloads),
        after.topics[name][partition].first_offset() == log.first_offset(),
        after.topics[name][partition].next_offset() == log.next_offset(),
{
    let again: LogView = after.topics[name][partition];
    let dir = directory::dir_view(dirs[partition]@);
    assert(again.opened(dir, before.config));
    storage_laws::law_log_survives_reopen(log, dir, payloads, again, before.config);
}

/// A topic that is created over empty directories has the number of partitions
/// that was asked for, each of them empty, with offsets from 0 on.
pub proof fn law_new_topic_is_empty(
    name: Seq<char>,
    num_partitions: u32,
    dirs: Vec<Vec<directory::StoredFile>>,
    before: ServerView,
    after: ServerView,
    step: StepView,
    partition: int,
)
    requires
        !before.manager.topics.contains_key(name),
        dirs@.len() == num_partitions,
        forall|i: int| 0 <= i < dirs@.len() ==> (#[trigger] dirs@[i])@.len() == 0,
        server::handled(
            (FrameView::CreateTopic { name, num_partitions }),
            Event::Loaded(Ok::<Vec<Vec<directory::StoredFile>>, LogError>(dirs)),
            before,
            after,
            step,
        ),
        0 <= partition < num_partitions,
    ensures
        step == StepView::Reply(FrameView::Ack),
        after.manager.topics.contains_key(name),
        after.manager.topics[name].len() == num_partitions,
        after.manager.topics[name][partition].holds(Seq::empty()),
        after.manager.topics[name][partition].first_offset() == 0,
        after.manager.topics[name][partition].next_offset() == 0,
{
    let log: LogView = after.manager.topics[name][partition];
    assert(directory::dir_view(dirs@[partition]@) =~= Seq::empty());
    assert(log.opened(directory::dir_view(dirs@[partition]@), before.manager.config));
    laws::law_new_log_is_empty(log, before.manager.config);
}

} // verus!
