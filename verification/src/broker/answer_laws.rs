//! What each request is answered, case by case.

use vstd::prelude::*;

use super::connection::{Fault, HeardView, MoveView};
use super::consumer_group::Position;
use super::protocol;
use super::protocol::{Frame, FrameView};
use super::server;
use super::server::{Event, ServerView, Step, StepView};
use super::topic;
use super::topic::TopicManagerView;
use super::{BrokerError, BrokerErrorView};
use crate::log::commit_log;
use crate::log::commit_log::LogView;
use crate::log::directory;
use crate::log::directory::StoredFile;
use crate::number_laws;
use crate::text;

verus! {

/// What is said of a topic that is not there.
pub open spec fn no_topic(name: Seq<char>) -> Seq<char> {
    "topic '"@ + name + "' not found"@
}

/// What is said of a partition that is not there.
pub open spec fn no_partition(name: Seq<char>, partition: u32, count: nat) -> Seq<char> {
    "partition "@ + text::decimal(partition as nat) + " out of range for topic '"@ + name + "' ("@
        + text::decimal(count) + " partitions)"@
}

/// What is said of a topic that is there already.
pub open spec fn topic_exists(name: Seq<char>, count: nat) -> Seq<char> {
    "topic '"@ + name + "' already exists with "@ + text::decimal(count) + " partitions"@
}

/// An error response.
pub open spec fn error_frame(code: u8, message: Seq<char>) -> StepView {
    StepView::Reply(FrameView::Error { code, message })
}

/// Whether each topic has a number of partitions that fits 32 bits.
pub open spec fn counts_fit(manager: TopicManagerView) -> bool {
    forall|name: Seq<char>| #[trigger]
        manager.topics.contains_key(name) ==> manager.topics[name].len() <= 0xFFFF_FFFF
}

/// Which partitions can be had: those of the topics that are there, from 0 on.
pub proof fn law_which_partitions_can_be_had(
    manager: TopicManagerView,
    name: Seq<char>,
    partition: u32,
)
    requires
        counts_fit(manager),
    ensures
        manager.refusal(name, partition) is None <==> manager.topics.contains_key(name)
            && partition < manager.topics[name].len(),
        !manager.topics.contains_key(name) ==> manager.refusal(name, partition) is Some
            && manager.refusal(name, partition)->0.message() == no_topic(name),
        manager.topics.contains_key(name) && partition >= manager.topics[name].len()
            ==> manager.refusal(name, partition) is Some && manager.refusal(
            name,
            partition,
        )->0.message() == no_partition(name, partition, manager.topics[name].len()),
{
}

/// What a fetch is answered: an error that says which topic or partition is not there or
/// which offset is out of range, the record once it is read, or what the read came to. A
/// fetch changes nothing.
pub proof fn law_answers_to_a_fetch(
    name: Seq<char>,
    partition: u32,
    offset: u64,
    event: Event,
    before: ServerView,
    after: ServerView,
    step: StepView,
)
    requires
        counts_fit(before.manager),
        server::handled(
            (FrameView::Fetch { topic: name, partition, offset }),
            event,
            before,
            after,
            step,
        ),
    ensures
        after == before,
        if !before.manager.topics.contains_key(name) {
            step == error_frame(0x04, no_topic(name))
        } else if partition >= before.manager.topics[name].len() {
            step == error_frame(
                0x04,
                no_partition(name, partition, before.manager.topics[name].len()),
            )
        } else {
            let log = before.manager.topics[name][partition as int];
            if offset < log.segments[0].0.base_offset || log.segments.last().0.next_offset
                <= offset {
                step == error_frame(
                    0x03,
                    "offset "@ + text::decimal(offset as nat) + " is out of range for this log"@,
                )
            } else {
                match event {
                    Event::Read(Ok(payload)) => step == StepView::Reply(
                        FrameView::FetchData { offset, payload: payload@ },
                    ),
                    Event::Read(Err(e)) => step == error_frame(0x03, e@.message()),
                    _ => step is Read,
                }
            }
        },
{
}

/// What a produce to a partition that is there leads to: once the record is written it is
/// acknowledged under the next offset, and a failure is answered with its cause and changes
/// nothing. Until then the record is to be written, perhaps after a rotation.
pub proof fn law_answers_to_a_produce(
    name: Seq<char>,
    partition: u32,
    payload: Seq<u8>,
    event: Event,
    before: ServerView,
    after: ServerView,
    step: StepView,
)
    requires
        counts_fit(before.manager),
        before.manager.topics.contains_key(name),
        server::handled(
            (FrameView::Produce { topic: name, partition, payload }),
            event,
            before,
            after,
            step,
        ),
    ensures
        after.offsets == before.offsets,
        if partition >= before.manager.topics[name].len() {
            &&& after == before
            &&& step == error_frame(
                0x02,
                no_partition(name, partition, before.manager.topics[name].len()),
            )
        } else {
            let log = before.manager.topics[name][partition as int];
            match event {
                Event::Written(Ok(_)) => step == StepView::Reply(
                    FrameView::ProduceAck { offset: log.segments.last().0.next_offset },
                ),
                Event::Written(Err(e)) => after == before && step == error_frame(
                    0x01,
                    e@.message(),
                ),
                Event::Rotated(Err(e)) => after == before && step == error_frame(
                    0x01,
                    e@.message(),
                ),
                Event::Rotated(Ok(files)) => step is Write,
                _ => after == before && (step is Write || step is Rotate),
            }
        },
{
}

/// What a produce to a topic that is not there leads to: one partition more than the one
/// asked for is loaded, and the topic then has exactly these, as their directories hold
/// them; a failure is answered with its cause and changes nothing. Other topics stay as
/// they were.
pub proof fn law_produce_creates_its_topic(
    name: Seq<char>,
    partition: u32,
    payload: Seq<u8>,
    event: Event,
    before: ServerView,
    after: ServerView,
    step: StepView,
    other: Seq<char>,
    i: int,
)
    requires
        !before.manager.topics.contains_key(name),
        partition < 0xFFFF_FFFF,
        server::handled(
            (FrameView::Produce { topic: name, partition, payload }),
            event,
            before,
            after,
            step,
        ),
        other != name,
    ensures
        after.offsets == before.offsets,
        after.manager.topics.contains_key(other) == before.manager.topics.contains_key(other),
        before.manager.topics.contains_key(other) ==> after.manager.topics[other]
            == before.manager.topics[other],
        match event {
            Event::Loaded(Ok(dirs)) => {
                &&& after.manager.topics.contains_key(name)
                &&& after.manager.topics[name].len() == dirs@.len()
                &&& 0 <= i < dirs@.len() ==> after.manager.topics[name][i].opened(
                    directory::dir_view(dirs@[i]@),
                    before.manager.config,
                )
                &&& partition < dirs@.len() ==> step is Write || step is Rotate
            },
            Event::Loaded(Err(e)) => after == before && step == error_frame(
                0x02,
                "log error: "@ + e@.message(),
            ),
            _ => after == before && step == (StepView::Load {
                topic: name,
                partitions: (partition + 1) as u32,
            }),
        },
{
    match event {
        Event::Loaded(Ok(dirs)) => {
            let mid = choose|mid: TopicManagerView| #[trigger]
                server::with_topic(before.manager, name, dirs@, mid) && server::produced(
                    name,
                    partition,
                    payload,
                    Event::Received,
                    mid,
                    after.manager,
                    step,
                );
            assert(after.manager == mid);
            if 0 <= i < dirs@.len() {
                assert(mid.topics[name][i].opened(
                    directory::dir_view(dirs@[i]@),
                    before.manager.config,
                ));
            }
        },
        _ => {},
    }
}

/// What the creation of a topic leads to: a refusal if it is there, which changes nothing;
/// otherwise as many partitions as were asked for are loaded, and the topic then has
/// exactly these. Other topics stay as they were.
pub proof fn law_answers_to_a_creation(
    name: Seq<char>,
    num_partitions: u32,
    event: Event,
    before: ServerView,
    after: ServerView,
    step: StepView,
    other: Seq<char>,
    i: int,
)
    requires
        counts_fit(before.manager),
        server::handled(
            (FrameView::CreateTopic { name, num_partitions }),
            event,
            before,
            after,
            step,
        ),
        other != name,
    ensures
        after.offsets == before.offsets,
        after.manager.topics.contains_key(other) == before.manager.topics.contains_key(other),
        before.manager.topics.contains_key(other) ==> after.manager.topics[other]
            == before.manager.topics[other],
        if before.manager.topics.contains_key(name) {
            &&& after == before
            &&& step == error_frame(0x05, topic_exists(name, before.manager.topics[name].len()))
        } else {
            match event {
                Event::Loaded(Ok(dirs)) => {
                    &&& step == StepView::Reply(FrameView::Ack)
                    &&& after.manager.topics.contains_key(name)
                    &&& after.manager.topics[name].len() == dirs@.len()
                    &&& 0 <= i < dirs@.len() ==> after.manager.topics[name][i].opened(
                        directory::dir_view(dirs@[i]@),
                        before.manager.config,
                    )
                },
                Event::Loaded(Err(e)) => after == before && step == error_frame(
                    0x05,
                    "log error: "@ + e@.message(),
                ),
                _ => after == before && step == (StepView::Load {
                    topic: name,
                    partitions: num_partitions,
                }),
            }
        },
{
    if !before.manager.topics.contains_key(name) {
        match event {
            Event::Loaded(Ok(dirs)) => {
                if 0 <= i < dirs@.len() {
                    assert(after.manager.topics[name][i].opened(
                        directory::dir_view(dirs@[i]@),
                        before.manager.config,
                    ));
                }
            },
            _ => {},
        }
    }
}

/// A commit is acknowledged at once and is found afterwards; it changes nothing else.
pub proof fn law_answer_to_a_commit(
    group: Seq<char>,
    name: Seq<char>,
    partition: u32,
    offset: u64,
    event: Event,
    before: ServerView,
    after: ServerView,
    step: StepView,
    other: Position,
)
    requires
        server::handled(
            (FrameView::CommitOffset { group, topic: name, partition, offset }),
            event,
            before,
            after,
            step,
        ),
    ensures
        step == StepView::Reply(FrameView::Ack),
        after.manager == before.manager,
        after.offsets.contains_key((group, name, partition)),
        after.offsets[(group, name, partition)] == offset,
        other != (group, name, partition) ==> after.offsets.contains_key(other)
            == before.offsets.contains_key(other),
        other != (group, name, partition) && before.offsets.contains_key(other)
            ==> after.offsets[other] == before.offsets[other],
{
}

/// A response that is sent as a request is refused with a text that shows it, and changes
/// nothing.
pub proof fn law_answer_to_a_response(
    frame: FrameView,
    event: Event,
    before: ServerView,
    after: ServerView,
    step: StepView,
)
    requires
        frame is Ack || frame is ProduceAck || frame is FetchData || frame is Error,
        server::handled(frame, event, before, after, step),
    ensures
        after == before,
        step == error_frame(0xFE, "unexpected request frame: "@ + frame.shown()),
{
}

/// Every frame is admitted but two: a produce that would create a topic with more
/// partitions than 32 bits can count, and one whose record runs out of offsets or positions.
pub proof fn law_what_is_admitted(frame: FrameView, event: Event, manager: TopicManagerView)
    requires
        counts_fit(manager),
    ensures
        !(frame is Produce) ==> server::admitted(frame, event, manager),
        match frame {
            FrameView::Produce { topic: name, partition, payload } => {
                &&& !manager.topics.contains_key(name) ==> (server::admitted(
                    frame,
                    event,
                    manager,
                ) <==> partition < 0xFFFF_FFFF)
                &&& manager.topics.contains_key(name) && !(event is Written) ==> server::admitted(
                    frame,
                    event,
                    manager,
                )
                &&& manager.topics.contains_key(name) && partition >= manager.topics[name].len()
                    ==> server::admitted(frame, event, manager)
                &&& manager.topics.contains_key(name) && partition < manager.topics[name].len() && {
                    let seg = manager.topics[name][partition as int].segments.last().0;
                    seg.next_offset < u64::MAX && seg.file_pos + 8 + payload.len() <= u64::MAX
                } ==> server::admitted(frame, event, manager)
            },
            _ => true,
        },
{
    if frame is Produce {
        let n = frame->Produce_payload.len() as int;
        assert(n % 0x1_0000_0000 <= n) by (nonlinear_arith)
            requires
                0 <= n,
        ;
    }
}

/// What is done with what is heard on a connection.
pub proof fn law_moves_on_a_connection(raw: Seq<u8>)
    ensures
        match protocol::decoded(raw) {
            Ok(frame) => HeardView::Frame(raw).moved() == MoveView::Answer(frame),
            Err(e) => HeardView::Frame(raw).moved() == MoveView::SendAndClose(
                FrameView::Error { code: 0xFF, message: e.message() },
            ),
        },
        HeardView::Fault(Fault::EndOfStream).moved() == MoveView::Close,
        HeardView::Fault(Fault::Reset).moved() == MoveView::Fail(Fault::Reset),
        HeardView::Fault(Fault::Other).moved() == MoveView::Fail(Fault::Other),
{
}

/// The words for each broker error.
pub proof fn law_broker_errors_in_words(e: BrokerErrorView)
    ensures
        match e {
            BrokerErrorView::Log(cause) => e.message() == "log error: "@ + cause.message(),
            BrokerErrorView::TopicNotFound(name) => e.message() == no_topic(name),
            BrokerErrorView::PartitionOutOfRange(partition, name, count) => e.message()
                == no_partition(name, partition, count as nat),
            BrokerErrorView::TopicAlreadyExists(name, count) => e.message() == topic_exists(
                name,
                count as nat,
            ),
        },
{
}

/// Each partition of a topic has a directory of its own: `partition-` and its number.
pub proof fn law_partition_directories(i: u32, j: u32)
    ensures
        topic::partition_dir_name(i) == "partition-"@ + text::decimal(i as nat),
        topic::partition_dir_name(i) == topic::partition_dir_name(j) ==> i == j,
{
    let a = text::decimal(i as nat);
    let b = text::decimal(j as nat);
    if topic::partition_dir_name(i) == topic::partition_dir_name(j) {
        let n = "partition-"@.len() as int;
        assert(("partition-"@ + a).skip(n) =~= a);
        assert(("partition-"@ + b).skip(n) =~= b);
        number_laws::law_decimal_tells_numbers_apart(i as nat, j as nat);
    }
}

/// Directories answer a request for them if there are as many as were asked for and each can
/// be opened.
pub proof fn law_what_answers_a_load(
    frame: FrameView,
    manager: TopicManagerView,
    dirs: Vec<Vec<StoredFile>>,
    event: Event,
)
    requires
        event matches Event::Loaded(Ok(loaded)) && loaded == dirs,
        forall|i: int|
            0 <= i < dirs@.len() ==> commit_log::openable(
                directory::dir_view((#[trigger] dirs@[i])@),
            ),
        match frame {
            FrameView::Produce { topic, partition, payload } => dirs@.len() == partition + 1,
            FrameView::CreateTopic { name, num_partitions } => dirs@.len() == num_partitions,
            _ => true,
        },
    ensures
        server::answers(event, frame, manager),
{
}

/// A frame is its fields, and a step is what it names.
pub proof fn law_frames_and_steps_are_their_fields(frame: Frame, step: Step, e: BrokerError)
    ensures
        match frame {
            Frame::Produce { topic, partition, payload } => frame@ == (FrameView::Produce {
                topic: topic@,
                partition,
                payload: payload@,
            }),
            Frame::Fetch { topic, partition, offset } => frame@ == (FrameView::Fetch {
                topic: topic@,
                partition,
                offset,
            }),
            Frame::CreateTopic { name, num_partitions } => frame@ == (FrameView::CreateTopic {
                name: name@,
                num_partitions,
            }),
            Frame::CommitOffset { group, topic, partition, offset } => frame@ == (
            FrameView::CommitOffset { group: group@, topic: topic@, partition, offset }),
            Frame::Ack => frame@ == FrameView::Ack,
            Frame::ProduceAck { offset } => frame@ == (FrameView::ProduceAck { offset }),
            Frame::FetchData { offset, payload } => frame@ == (FrameView::FetchData {
                offset,
                payload: payload@,
            }),
            Frame::Error { code, message } => frame@ == (FrameView::Error {
                code,
                message: message@,
            }),
        },
        match step {
            Step::Load { topic, partitions } => step@ == (StepView::Load {
                topic: topic@,
                partitions,
            }),
            Step::Rotate { topic, partition, ops, base } => step@ == (StepView::Rotate {
                topic: topic@,
                partition,
                ops: directory::ops_view(ops@),
                base,
            }),
            Step::Write { topic, partition, op } => step@ == (StepView::Write {
                topic: topic@,
                partition,
                op: op@,
            }),
            Step::Read { topic, partition, reading } => step@ == (StepView::Read {
                topic: topic@,
                partition,
                file: reading.file@,
                cursor: reading.cursor,
            }),
            Step::Reply(reply) => step@ == StepView::Reply(reply@),
        },
        match e {
            BrokerError::Log(cause) => e@ == BrokerErrorView::Log(cause@),
            BrokerError::TopicNotFound(name) => e@ == BrokerErrorView::TopicNotFound(name@),
            BrokerError::PartitionOutOfRange(partition, name, count) => e@
                == BrokerErrorView::PartitionOutOfRange(partition, name@, count),
            BrokerError::TopicAlreadyExists(name, count) => e@
                == BrokerErrorView::TopicAlreadyExists(name@, count),
        },
{
}

/// A topic that was created for one of its partitions has a log over each of the directories,
/// but for the one whose log is given; other topics stay as they were.
pub proof fn law_created_topic_has_its_logs(
    before: TopicManagerView,
    name: Seq<char>,
    dirs: Seq<Vec<StoredFile>>,
    partition: int,
    log: LogView,
    after: TopicManagerView,
    i: int,
    other: Seq<char>,
)
    requires
        topic::created_with(before, name, dirs, partition, log, after),
        0 <= partition < dirs.len(),
        0 <= i < dirs.len(),
        other != name,
    ensures
        after.config == before.config,
        after.topics.contains_key(name),
        after.topics[name].len() == dirs.len(),
        after.topics[name][partition] == log,
        i != partition ==> after.topics[name][i].opened(
            directory::dir_view(dirs[i]@),
            before.config,
        ),
        after.topics.contains_key(other) == before.topics.contains_key(other),
        before.topics.contains_key(other) ==> after.topics[other] == before.topics[other],
{
    let logs = choose|logs: Seq<LogView>| #[trigger]
        topic::opened_all(logs, dirs, before.config) && after == (TopicManagerView {
            topics: before.topics.insert(name, logs.update(partition, log)),
            ..before
        });
    assert(logs[i].opened(directory::dir_view(dirs[i]@), before.config));
}

} // verus!
