//! Request handling: what the broker answers to a frame, and what it asks of its
//! surroundings on the way.

use vstd::prelude::*;

use super::consumer_group::{ConsumerGroupCoordinator, Position};
use super::protocol::{Frame, FrameView};
use super::topic;
use super::topic::{TopicManager, TopicManagerView};
use super::BrokerErrorView;
use crate::log::commit_log::{AppendStep, AppendStepView, LogView};
use crate::log::directory;
use crate::log::directory::{FileOp, FileOpView, StoredFile};
use crate::log::record::Cursor;
use crate::log::{LogConfig, LogError, LogErrorView, Reading, SegmentFiles};

verus! {

/// What has become of what the broker asked for last.
pub enum Event {
    /// Nothing was asked for yet: the frame has just been received.
    Received,
    /// The files of the partitions' directories, or why they could not be had.
    Loaded(Result<Vec<Vec<StoredFile>>, LogError>),
    /// The files of the segment that the log is rotated to, or why they could not be
    /// had.
    Rotated(Result<SegmentFiles, LogError>),
    /// The change was made, or why it could not be.
    Written(Result<(), LogError>),
    /// The payload of the record, or why it could not be read.
    Read(Result<Vec<u8>, LogError>),
}

/// What is to be done next for a frame.
pub enum Step {
    /// Load the directories of the topic's partitions, from 0 on, after making
    /// the changes that opening a log over each of them makes.
    Load { topic: String, partitions: u32 },
    /// Make these changes, in order, in the directory of the partition, and load the
    /// files of the segment at `base`.
    Rotate { topic: String, partition: u32, ops: Vec<FileOp>, base: u64 },
    /// Make this change in the directory of the partition.
    Write { topic: String, partition: u32, op: FileOp },
    /// Read a record in the directory of the partition.
    Read { topic: String, partition: u32, reading: Reading },
    /// Send the response.
    Reply(Frame),
}

/// A `Step` with its texts, changes and response by their views.
pub enum StepView {
    Load { topic: Seq<char>, partitions: u32 },
    Rotate { topic: Seq<char>, partition: u32, ops: Seq<FileOpView>, base: u64 },
    Write { topic: Seq<char>, partition: u32, op: FileOpView },
    Read { topic: Seq<char>, partition: u32, file: Seq<char>, cursor: Cursor },
    Reply(FrameView),
}

impl View for Step {
    type V = StepView;

    open spec fn view(&self) -> StepView {
        match self {
            Step::Load { topic, partitions } => StepView::Load {
                topic: topic@,
                partitions: *partitions,
            },
            Step::Rotate { topic, partition, ops, base } => StepView::Rotate {
                topic: topic@,
                partition: *partition,
                ops: directory::ops_view(ops@),
                base: *base,
            },
            Step::Write { topic, partition, op } => StepView::Write {
                topic: topic@,
                partition: *partition,
                op: op@,
            },
            Step::Read { topic, partition, reading } => StepView::Read {
                topic: topic@,
                partition: *partition,
                file: reading.file@,
                cursor: reading.cursor,
            },
            Step::Reply(frame) => StepView::Reply(frame@),
        }
    }
}

/// The state of the broker.
pub struct Server {
    pub manager: TopicManager,
    pub coordinator: ConsumerGroupCoordinator,
}

/// The topics and the committed offsets.
#[verifier::ext_equal]
pub struct ServerView {
    pub manager: TopicManagerView,
    pub offsets: Map<Position, u64>,
}

impl View for Server {
    type V = ServerView;

    open spec fn view(&self) -> ServerView {
        ServerView { manager: self.manager@, offsets: self.coordinator@ }
    }
}

/// An error response.
pub open spec fn refused(code: u8, message: Seq<char>) -> StepView {
    StepView::Reply(FrameView::Error { code, message })
}

/// Whether `mid` is `before` with one more topic over these directories.
pub open spec fn with_topic(
    before: TopicManagerView,
    name: Seq<char>,
    dirs: Seq<Vec<StoredFile>>,
    mid: TopicManagerView,
) -> bool {
    &&& mid.config == before.config
    &&& mid.topics.contains_key(name)
    &&& topic::opened_all(mid.topics[name], dirs, before.config)
    &&& mid.topics == before.topics.insert(name, mid.topics[name])
}

/// What is asked for to append a record.
pub open spec fn asked(name: Seq<char>, partition: u32, step: AppendStepView) -> StepView {
    match step {
        AppendStepView::Rotate { ops, base } => StepView::Rotate {
            topic: name,
            partition,
            ops,
            base,
        },
        AppendStepView::Write(op) => StepView::Write { topic: name, partition, op },
    }
}

/// A payload for a topic that is there.
pub open spec fn produced(
    name: Seq<char>,
    partition: u32,
    payload: Seq<u8>,
    event: Event,
    before: TopicManagerView,
    after: TopicManagerView,
    step: StepView,
) -> bool {
    match before.refusal(name, partition) {
        Some(e) => after == before && step == refused(0x02, e.message()),
        None => {
            let log = before.topics[name][partition as int];
            match event {
                Event::Rotated(Ok(files)) => {
                    let rotated = log.rotated(files.data@, files.index@);
                    &&& after == before.with_log(name, partition as int, rotated)
                    &&& step == asked(name, partition, rotated.append_step(payload, true))
                },
                Event::Rotated(Err(e)) => after == before && step == refused(0x01, e@.message()),
                Event::Written(Ok(_)) => {
                    &&& after == before.with_log(name, partition as int, log.appended(payload))
                    &&& step == StepView::Reply(
                        FrameView::ProduceAck { offset: log.next_offset() },
                    )
                },
                Event::Written(Err(e)) => after == before && step == refused(0x01, e@.message()),
                _ => after == before && step == asked(
                    name,
                    partition,
                    log.append_step(payload, false),
                ),
            }
        },
    }
}

/// The response to a read of a log.
pub open spec fn fetched(offset: u64, r: Result<Seq<u8>, LogErrorView>) -> StepView {
    match r {
        Ok(payload) => StepView::Reply(FrameView::FetchData { offset, payload }),
        Err(e) => refused(0x03, e.message()),
    }
}

/// What is done for a fetch of a log.
pub open spec fn looked_up(
    name: Seq<char>,
    partition: u32,
    offset: u64,
    event: Event,
    log: LogView,
) -> StepView {
    if log.in_range(offset) {
        match event {
            Event::Read(Ok(payload)) => fetched(offset, Ok(payload@)),
            Event::Read(Err(e)) => fetched(offset, Err(e@)),
            _ => StepView::Read {
                topic: name,
                partition,
                file: log.file_of(offset),
                cursor: log.cursor(offset),
            },
        }
    } else {
        fetched(offset, Err(LogErrorView::OffsetOutOfRange(offset)))
    }
}

/// Whether `step` is what the broker does next for a frame, and `after` its state
/// then.
pub open spec fn handled(
    frame: FrameView,
    event: Event,
    before: ServerView,
    after: ServerView,
    step: StepView,
) -> bool {
    match frame {
        FrameView::Produce { topic: name, partition, payload } => {
            &&& after.offsets == before.offsets
            &&& if before.manager.topics.contains_key(name) {
                produced(
                    name,
                    partition,
                    payload,
                    event,
                    before.manager,
                    after.manager,
                    step,
                )
            } else {
                match event {
                    Event::Loaded(Ok(dirs)) => exists|mid: TopicManagerView| #[trigger]
                        with_topic(before.manager, name, dirs@, mid) && produced(
                            name,
                            partition,
                            payload,
                            Event::Received,
                            mid,
                            after.manager,
                            step,
                        ),
                    Event::Loaded(Err(e)) => after.manager == before.manager && step == refused(
                        0x02,
                        BrokerErrorView::Log(e@).message(),
                    ),
                    _ => after.manager == before.manager && step == (StepView::Load {
                        topic: name,
                        partitions: (partition + 1) as u32,
                    }),
                }
            }
        },
        FrameView::Fetch { topic: name, partition, offset } => {
            &&& after == before
            &&& match before.manager.refusal(name, partition) {
                Some(e) => step == refused(0x04, e.message()),
                None => step == looked_up(
                    name,
                    partition,
                    offset,
                    event,
                    before.manager.topics[name][partition as int],
                ),
            }
        },
        FrameView::CreateTopic { name, num_partitions } => {
            &&& after.offsets == before.offsets
            &&& if before.manager.topics.contains_key(name) {
                &&& after.manager == before.manager
                &&& step == refused(
                    0x05,
                    BrokerErrorView::TopicAlreadyExists(
                        name,
                        before.manager.topics[name].len() as u32,
                    ).message(),
                )
            } else {
                match event {
                    Event::Loaded(Ok(dirs)) => with_topic(
                        before.manager,
                        name,
                        dirs@,
                        after.manager,
                    ) && step == StepView::Reply(FrameView::Ack),
                    Event::Loaded(Err(e)) => after.manager == before.manager && step == refused(
                        0x05,
                        BrokerErrorView::Log(e@).message(),
                    ),
                    _ => after.manager == before.manager && step == (StepView::Load {
                        topic: name,
                        partitions: num_partitions,
                    }),
                }
            }
        },
        FrameView::CommitOffset { group, topic: name, partition, offset } => {
            &&& after.manager == before.manager
            &&& after.offsets == before.offsets.insert((group, name, partition), offset)
            &&& step == StepView::Reply(FrameView::Ack)
        },
        _ => after == before && step == refused(
            0xFE,
            "unexpected request frame: "@ + frame.shown(),
        ),
    }
}

/// Whether the broker can handle the frame within the bounds of its types: the
/// number of partitions of a topic, and the offsets and positions of a log.
pub open spec fn admitted(frame: FrameView, event: Event, manager: TopicManagerView) -> bool {
    match frame {
        FrameView::Produce { topic: name, partition, payload } => {
            &&& !manager.topics.contains_key(name) ==> partition < u32::MAX
            &&& manager.refusal(name, partition) is None && event is Written
                ==> manager.topics[name][partition as int].room_for(payload)
        },
        _ => true,
    }
}

/// How many partitions the frame asks for, if it is for a topic that is not there.
pub open spec fn partitions_for(frame: FrameView, manager: TopicManagerView) -> Option<nat> {
    match frame {
        FrameView::Produce { topic: name, partition, payload } => if manager.topics.contains_key(
            name,
        ) {
            None
        } else {
            Some((partition + 1) as nat)
        },
        FrameView::CreateTopic { name, num_partitions } => if manager.topics.contains_key(name) {
            None
        } else {
            Some(num_partitions as nat)
        },
        _ => None,
    }
}

/// Whether the loaded directories are those that were asked for.
pub open spec fn answers(event: Event, frame: FrameView, manager: TopicManagerView) -> bool {
    match (event, partitions_for(frame, manager)) {
        (Event::Loaded(Ok(dirs)), Some(count)) => topic::stored_for(dirs@, count),
        _ => true,
    }
}

fn error_reply(code: u8, message: String) -> (step: Step)
    ensures
        step@ == refused(code, message@),
{
    Step::Reply(Frame::Error { code, message })
}

/// Whether the frame can be handed to `process_frame`.
pub fn admits(frame: &Frame, event: &Event, server: &Server) -> (r: bool)
    requires
        server.manager.wf(),
    ensures
        r == admitted(frame@, *event, server@.manager),
{
    match frame {
        Frame::Produce { topic, partition, payload } => {
            if server.manager.num_partitions(topic.as_str()).is_none() {
                return *partition < u32::MAX;
            }
            match event {
                Event::Written(_) => match server.manager.partition_log(
                    topic.as_str(),
                    *partition,
                ) {
                    Some(log) => log.has_room(payload.as_slice()),
                    None => true,
                },
                _ => true,
            }
        },
        _ => true,
    }
}

/// Putting a log where it was changes nothing.
proof fn lemma_same_log(manager: TopicManagerView, name: Seq<char>, partition: int)
    requires
        manager.topics.contains_key(name),
        0 <= partition < manager.topics[name].len(),
    ensures
        manager.with_log(name, partition, manager.topics[name][partition]) == manager,
{
    let logs = manager.topics[name];
    assert(logs.update(partition, logs[partition]) =~= logs);
    assert(manager.topics.insert(name, logs) =~= manager.topics);
}

/// Asks for what is to be done to append a record.
fn ask(topic: &String, partition: u32, step: AppendStep) -> (r: Step)
    ensures
        r@ == asked(topic@, partition, step@),
{
    let topic: String = String::from_str(topic.as_str());
    match step {
        AppendStep::Rotate { ops, base } => Step::Rotate { topic, partition, ops, base },
        AppendStep::Write(op) => Step::Write { topic, partition, op },
    }
}

/// Handles a payload for a topic that is there.
fn produce(
    manager: &mut TopicManager,
    topic: &String,
    partition: u32,
    payload: &Vec<u8>,
    event: Event,
) -> (step: Step)
    requires
        old(manager).wf(),
        old(manager)@.topics.contains_key(topic@),
        event is Written && old(manager)@.refusal(topic@, partition) is None ==> old(
            manager,
        )@.topics[topic@][partition as int].room_for(payload@),
    ensures
        final(manager).wf(),
        produced(topic@, partition, payload@, event, old(manager)@, final(manager)@, step@),
{
    let ghost before = manager@;
    match manager.get_partition_mut(topic.as_str(), partition) {
        Ok(log) => match event {
            Event::Rotated(Ok(files)) => {
                log.rotate(files);
                ask(topic, partition, log.append_step(payload.as_slice(), true))
            },
            Event::Written(Ok(_)) => {
                let offset: u64 = log.append(payload.as_slice());
                Step::Reply(Frame::ProduceAck { offset })
            },
            Event::Rotated(Err(e)) => {
                proof {
                    lemma_same_log(before, topic@, partition as int);
                }
                error_reply(0x01, e.to_string())
            },
            Event::Written(Err(e)) => {
                proof {
                    lemma_same_log(before, topic@, partition as int);
                }
                error_reply(0x01, e.to_string())
            },
            _ => {
                let step: AppendStep = log.append_step(payload.as_slice(), false);
                proof {
                    lemma_same_log(before, topic@, partition as int);
                }
                ask(topic, partition, step)
            },
        },
        Err(e) => error_reply(0x02, e.to_string()),
    }
}

/// Handles a read.
fn fetch(
    manager: &mut TopicManager,
    topic: &String,
    partition: u32,
    offset: u64,
    event: Event,
) -> (step: Step)
    requires
        old(manager).wf(),
    ensures
        final(manager).wf(),
        final(manager)@ == old(manager)@,
        match old(manager)@.refusal(topic@, partition) {
            Some(e) => step@ == refused(0x04, e.message()),
            None => step@ == looked_up(
                topic@,
                partition,
                offset,
                event,
                old(manager)@.topics[topic@][partition as int],
            ),
        },
{
    let ghost before = manager@;
    match manager.get_partition_mut(topic.as_str(), partition) {
        Ok(log) => {
            let begun: Result<Reading, LogError> = log.read(offset);
            proof {
                lemma_same_log(before, topic@, partition as int);
            }
            match begun {
                Ok(reading) => match event {
                    Event::Read(Ok(payload)) => Step::Reply(Frame::FetchData { offset, payload }),
                    Event::Read(Err(e)) => error_reply(0x03, e.to_string()),
                    _ => Step::Read {
                        topic: String::from_str(topic.as_str()),
                        partition,
                        reading,
                    },
                },
                Err(e) => error_reply(0x03, e.to_string()),
            }
        },
        Err(e) => error_reply(0x04, e.to_string()),
    }
}

/// Handles a request for a topic.
fn create(
    manager: &mut TopicManager,
    name: &String,
    num_partitions: u32,
    loaded: Option<Result<Vec<Vec<StoredFile>>, LogError>>,
) -> (step: Step)
    requires
        old(manager).wf(),
        !old(manager)@.topics.contains_key(name@) && loaded is Some && loaded->0 is Ok
            ==> topic::stored_for(loaded->0->Ok_0@, num_partitions as nat),
    ensures
        final(manager).wf(),
        if old(manager)@.topics.contains_key(name@) {
            &&& final(manager)@ == old(manager)@
            &&& step@ == refused(
                0x05,
                BrokerErrorView::TopicAlreadyExists(
                    name@,
                    old(manager)@.topics[name@].len() as u32,
                ).message(),
            )
        } else {
            match loaded {
                Some(Ok(dirs)) => with_topic(old(manager)@, name@, dirs@, final(manager)@)
                    && step@ == StepView::Reply(FrameView::Ack),
                Some(Err(e)) => final(manager)@ == old(manager)@ && step@ == refused(
                    0x05,
                    BrokerErrorView::Log(e@).message(),
                ),
                None => final(manager)@ == old(manager)@ && step@ == (StepView::Load {
                    topic: name@,
                    partitions: num_partitions,
                }),
            }
        },
{
    let stored: Result<Vec<Vec<StoredFile>>, LogError> = match loaded {
        Some(stored) => stored,
        None => {
            if manager.num_partitions(name.as_str()).is_none() {
                return Step::Load {
                    topic: String::from_str(name.as_str()),
                    partitions: num_partitions,
                };
            }
            Ok(Vec::new())
        },
    };
    match manager.create_topic(name.as_str(), num_partitions, stored) {
        Ok(_) => Step::Reply(Frame::Ack),
        Err(e) => error_reply(0x05, e.to_string()),
    }
}

/// Handles a payload for a topic that is not there.
fn produce_to_new(
    manager: &mut TopicManager,
    topic: &String,
    partition: u32,
    payload: &Vec<u8>,
    loaded: Option<Result<Vec<Vec<StoredFile>>, LogError>>,
) -> (step: Step)
    requires
        old(manager).wf(),
        !old(manager)@.topics.contains_key(topic@),
        partition < u32::MAX,
        loaded is Some && loaded->0 is Ok ==> topic::stored_for(
            loaded->0->Ok_0@,
            (partition + 1) as nat,
        ),
    ensures
        final(manager).wf(),
        match loaded {
            Some(Ok(dirs)) => exists|mid: TopicManagerView| #[trigger]
                with_topic(old(manager)@, topic@, dirs@, mid) && produced(
                    topic@,
                    partition,
                    payload@,
                    Event::Received,
                    mid,
                    final(manager)@,
                    step@,
                ),
            Some(Err(e)) => final(manager)@ == old(manager)@ && step@ == refused(
                0x02,
                BrokerErrorView::Log(e@).message(),
            ),
            None => final(manager)@ == old(manager)@ && step@ == (StepView::Load {
                topic: topic@,
                partitions: (partition + 1) as u32,
            }),
        },
{
    let ghost before = manager@;
    match loaded {
        Some(stored) => match manager.get_or_create_partition_mut(
            topic.as_str(),
            partition,
            stored,
        ) {
            Ok(log) => {
                let step: AppendStep = log.append_step(payload.as_slice(), false);
                let ghost kept = log@;
                proof {
                    let dirs = stored->Ok_0@;
                    assert forall|after: TopicManagerView| #[trigger]
                        topic::created_with(
                            before,
                            topic@,
                            dirs,
                            partition as int,
                            kept,
                            after,
                        ) implies exists|mid: TopicManagerView| #[trigger]
                        with_topic(before, topic@, dirs, mid) && mid == after
                        && mid.topics[topic@][partition as int] == kept by {
                        lemma_created(before, topic@, dirs, partition as int, kept, after);
                    }
                }
                ask(topic, partition, step)
            },
            Err(e) => error_reply(0x02, e.to_string()),
        },
        None => Step::Load {
            topic: String::from_str(topic.as_str()),
            partitions: partition + 1,
        },
    }
}

/// A topic that was created, with one of its logs put where it was, is the topic
/// that was created.
proof fn lemma_created(
    before: TopicManagerView,
    name: Seq<char>,
    dirs: Seq<Vec<StoredFile>>,
    partition: int,
    log: LogView,
    after: TopicManagerView,
)
    requires
        topic::created_with(before, name, dirs, partition, log, after),
        0 <= partition < dirs.len(),
        log.opened(directory::dir_view(dirs[partition]@), before.config),
    ensures
        with_topic(before, name, dirs, after),
        after.topics[name][partition] == log,
{
    let logs = choose|logs: Seq<LogView>| #[trigger]
        topic::opened_all(logs, dirs, before.config) && after == (TopicManagerView {
            topics: before.topics.insert(name, logs.update(partition, log)),
            ..before
        });
    let updated = logs.update(partition, log);
    assert forall|i: int| 0 <= i < updated.len() implies (#[trigger] updated[i]).opened(
        directory::dir_view(dirs[i]@),
        before.config,
    ) by {
        if i != partition {
            assert(updated[i] == logs[i]);
        }
    }
    assert(after.topics[name] == updated);
}

impl Server {
    /// A broker without topics and without committed offsets.
    pub fn new(config: LogConfig) -> (server: Server)
        ensures
            server.manager.wf(),
            server@.manager.config == config,
            server@.manager.topics == Map::<Seq<char>, Seq<LogView>>::empty(),
            server@.offsets == Map::<Position, u64>::empty(),
    {
        Server { manager: TopicManager::new(config), coordinator: ConsumerGroupCoordinator::new() }
    }
}

/// Does what can be done for a frame after `event`: gives the response, or says
/// what is to be done before it can be given.
pub fn process_frame(frame: &Frame, event: Event, server: &mut Server) -> (step: Step)
    requires
        old(server).manager.wf(),
        admitted(frame@, event, old(server)@.manager),
        answers(event, frame@, old(server)@.manager),
    ensures
        final(server).manager.wf(),
        handled(frame@, event, old(server)@, final(server)@, step@),
{
    match frame {
        Frame::Produce { topic, partition, payload } => {
            if server.manager.num_partitions(topic.as_str()).is_none() {
                let loaded = match event {
                    Event::Loaded(stored) => Some(stored),
                    _ => None,
                };
                produce_to_new(&mut server.manager, topic, *partition, payload, loaded)
            } else {
                produce(&mut server.manager, topic, *partition, payload, event)
            }
        },
        Frame::Fetch { topic, partition, offset } => {
            fetch(&mut server.manager, topic, *partition, *offset, event)
        },
        Frame::CreateTopic { name, num_partitions } => {
            let loaded = match event {
                Event::Loaded(stored) => Some(stored),
                _ => None,
            };
            create(&mut server.manager, name, *num_partitions, loaded)
        },
        Frame::CommitOffset { group, topic, partition, offset } => {
            server.coordinator.commit(group.as_str(), topic.as_str(), *partition, *offset);
            Step::Reply(Frame::Ack)
        },
        _ => {
            let mut message = String::from_str("unexpected request frame: ");
            message.append(frame.shown().as_str());
            error_reply(0xFE, message)
        },
    }
}

} // verus!
