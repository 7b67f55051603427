//! What the broker promises over any sequence of requests.

use vstd::prelude::*;

use super::protocol::FrameView;
use super::server;
use super::server::{Event, ServerView, StepView};
use super::server_laws;
use super::topic::TopicManagerView;
use super::BrokerErrorView;
use crate::log::commit_log::{LogConfig, LogView};
use crate::log::directory;
use crate::log::directory::DirView;
use crate::log::laws;
use crate::log::storage_laws;

verus! {

/// One step for a frame: what had become of what was asked for before, what was done,
/// and the state of the broker then.
pub struct Turn {
    pub frame: FrameView,
    pub event: Event,
    pub step: StepView,
    pub after: ServerView,
}

/// The state of the broker before the `i`th turn.
pub open spec fn state_before(start: ServerView, turns: Seq<Turn>, i: int) -> ServerView {
    if i <= 0 {
        start
    } else {
        turns[i - 1].after
    }
}

/// Whether the length of the payload to be appended, if any, fits the four bytes that
/// it has in its record.
pub open spec fn payload_fits(frame: FrameView) -> bool {
    match frame {
        FrameView::Produce { topic, partition, payload } => payload.len() < 0x1_0000_0000,
        _ => true,
    }
}

/// Whether the files that were met on the way hold what the broker left in them: those
/// of a segment that a log is rotated to, and the one that a record is read from.
pub open spec fn undisturbed(before: ServerView, frame: FrameView, event: Event) -> bool {
    match (frame, event) {
        (FrameView::Produce { topic, partition, payload }, Event::Rotated(Ok(files))) =>
        before.manager.refusal(topic, partition) is None
            ==> before.manager.topics[topic][partition as int].own_files(
            files.data@,
            files.index@,
        ),
        (FrameView::Fetch { topic, partition, offset }, Event::Read(_)) => before.manager.refusal(
            topic,
            partition,
        ) is None ==> server_laws::reads_own(
            event,
            before.manager.topics[topic][partition as int],
            offset,
        ),
        _ => true,
    }
}

/// Whether a frame is handled as the broker handles it, within its bounds, while
/// nobody else writes to the directories.
#[verifier::opaque]
pub open spec fn takes_turn(before: ServerView, turn: Turn) -> bool {
    &&& server::handled(turn.frame, turn.event, before, turn.after, turn.step)
    &&& server::admitted(turn.frame, turn.event, before.manager)
    &&& payload_fits(turn.frame)
    &&& undisturbed(before, turn.frame, turn.event)
}

/// Whether the broker takes these turns, one after the other.
pub open spec fn takes_turns(start: ServerView, turns: Seq<Turn>) -> bool {
    forall|i: int|
        0 <= i < turns.len() ==> takes_turn(state_before(start, turns, i), #[trigger] turns[i])
}

/// A topic that exists is not created again: the request is refused, and nothing
/// changes.
pub proof fn law_existing_topic_is_not_created_again(
    name: Seq<char>,
    num_partitions: u32,
    event: Event,
    before: ServerView,
    after: ServerView,
    step: StepView,
)
    requires
        before.manager.topics.contains_key(name),
        server::handled(
            (FrameView::CreateTopic { name, num_partitions }),
            event,
            before,
            after,
            step,
        ),
    ensures
        after == before,
        step == server::refused(
            0x05,
            BrokerErrorView::TopicAlreadyExists(
                name,
                before.manager.topics[name].len() as u32,
            ).message(),
        ),
{
}

/// No request takes a record away or changes one: what a partition holds it still
/// holds, under the same offsets, perhaps with more behind it.
pub proof fn law_request_keeps_records(
    before: ServerView,
    turn: Turn,
    name: Seq<char>,
    partition: u32,
    payloads: Seq<Seq<u8>>,
) -> (more: Seq<Seq<u8>>)
    requires
        takes_turn(before, turn),
        before.manager.refusal(name, partition) is None,
        before.manager.topics[name][partition as int].holds(payloads),
    ensures
        turn.after.manager.refusal(name, partition) is None,
        turn.after.manager.topics[name][partition as int].holds(payloads + more),
        turn.after.manager.topics[name][partition as int].first_offset()
            == before.manager.topics[name][partition as int].first_offset(),
{
    reveal(takes_turn);
    let log = before.manager.topics[name][partition as int];
    let none = Seq::<Seq<u8>>::empty();
    assert(payloads + none =~= payloads);
    if server_laws::subject(turn.frame) != Some(name) {
        server_laws::law_request_leaves_the_rest(
            turn.frame,
            turn.event,
            before,
            turn.after,
            turn.step,
            name,
        );
        none
    } else {
        match turn.frame {
            FrameView::Produce { topic, partition: p, payload } => {
                if p != partition {
                    none
                } else {
                    match turn.event {
                        Event::Written(Ok(_)) => {
                            laws::law_append_adds_at_the_end(log, payloads, payload);
                            assert(turn.after.manager.topics[name][partition as int]
                                == log.appended(payload));
                            assert(payloads + seq![payload] =~= payloads.push(payload));
                            seq![payload]
                        },
                        Event::Rotated(Ok(files)) => {
                            laws::law_rotation_keeps_the_records(
                                log,
                                payloads,
                                files.data@,
                                files.index@,
                            );
                            assert(turn.after.manager.topics[name][partition as int]
                                == log.rotated(files.data@, files.index@));
                            none
                        },
                        _ => none,
                    }
                }
            },
            _ => none,
        }
    }
}

/// The same over any sequence of requests.
pub proof fn law_requests_keep_records(
    start: ServerView,
    turns: Seq<Turn>,
    from: int,
    to: int,
    name: Seq<char>,
    partition: u32,
    payloads: Seq<Seq<u8>>,
) -> (more: Seq<Seq<u8>>)
    requires
        takes_turns(start, turns),
        0 <= from <= to <= turns.len(),
        state_before(start, turns, from).manager.refusal(name, partition) is None,
        state_before(start, turns, from).manager.topics[name][partition as int].holds(payloads),
    ensures
        state_before(start, turns, to).manager.refusal(name, partition) is None,
        state_before(start, turns, to).manager.topics[name][partition as int].holds(
            payloads + more,
        ),
        state_before(start, turns, to).manager.topics[name][partition as int].first_offset()
            == state_before(start, turns, from).manager.topics[name][partition as int].first_offset(),
    decreases to - from,
{
    if from == to {
        assert(payloads + Seq::<Seq<u8>>::empty() =~= payloads);
        Seq::empty()
    } else {
        let front = law_requests_keep_records(
            start,
            turns,
            from,
            to - 1,
            name,
            partition,
            payloads,
        );
        let turn = turns[to - 1];
        let last = law_request_keeps_records(
            state_before(start, turns, to - 1),
            turn,
            name,
            partition,
            payloads + front,
        );
        assert(payloads + front + last =~= payloads + (front + last));
        front + last
    }
}

/// Whether a log consists of whole records.
pub open spec fn is_recorded(log: LogView) -> bool {
    exists|payloads: Seq<Seq<u8>>| log.holds(payloads)
}

/// Whether every partition consists of whole records.
pub open spec fn all_recorded(manager: TopicManagerView) -> bool {
    forall|name: Seq<char>, p: int|
        manager.topics.contains_key(name) && 0 <= p < manager.topics[name].len() ==> is_recorded(
            #[trigger] manager.topics[name][p],
        )
}

/// Whether a directory is empty or has the files of a log of whole records.
pub open spec fn is_record_dir(dir: DirView) -> bool {
    dir.len() == 0 || exists|log: LogView, payloads: Seq<Seq<u8>>|
        log.kept_in(dir, payloads)
}

/// Whether the directories that were loaded, if any, are empty or have the files of
/// logs of whole records.
pub open spec fn loads_records(event: Event) -> bool {
    match event {
        Event::Loaded(Ok(dirs)) => forall|i: int|
            0 <= i < dirs@.len() ==> is_record_dir(directory::dir_view((#[trigger] dirs@[i])@)),
        _ => true,
    }
}

proof fn lemma_opened_is_recorded(log: LogView, dir: DirView, config: LogConfig)
    requires
        log.opened(dir, config),
        is_record_dir(dir),
    ensures
        is_recorded(log),
{
    if dir.len() == 0 {
        assert(dir =~= Seq::empty());
        laws::law_new_log_is_empty(log, config);
    } else {
        let (old_log, payloads) = choose|old_log: LogView, payloads: Seq<Seq<u8>>|
            old_log.kept_in(dir, payloads);
        storage_laws::law_log_survives_reopen(old_log, dir, payloads, log, config);
        assert(log.holds(payloads));
    }
}

/// The partitions of a broker consist of whole records at all times: of a new broker,
/// which has none, and after every request.
pub proof fn law_partitions_stay_recorded(before: ServerView, turn: Turn)
    requires
        takes_turn(before, turn),
        loads_records(turn.event),
        all_recorded(before.manager),
    ensures
        all_recorded(turn.after.manager),
{
    reveal(takes_turn);
    let after = turn.after.manager;
    assert forall|name: Seq<char>, p: int|
        after.topics.contains_key(name) && 0 <= p < after.topics[name].len() implies is_recorded(
        #[trigger] after.topics[name][p],
    ) by {
        if server_laws::subject(turn.frame) != Some(name) {
            assert(is_recorded(before.manager.topics[name][p]));
        } else if before.manager.topics.contains_key(name) {
            let old_log = before.manager.topics[name][p];
            assert(is_recorded(old_log));
            if after.topics[name][p] != old_log {
                let payloads = choose|payloads: Seq<Seq<u8>>| old_log.holds(payloads);
                let partition = turn.frame->Produce_partition;
                assert(p == partition);
                let more = law_request_keeps_records(before, turn, name, partition, payloads);
                assert(after.topics[name][p].holds(payloads + more));
            }
        } else {
            match turn.event {
                Event::Loaded(Ok(dirs)) => {
                    let dir = directory::dir_view(dirs@[p]@);
                    assert(after.topics[name][p].opened(dir, before.manager.config));
                    assert(is_record_dir(dir));
                    lemma_opened_is_recorded(after.topics[name][p], dir, before.manager.config);
                },
                _ => {},
            }
        }
    }
}

proof fn lemma_stays_recorded(start: ServerView, turns: Seq<Turn>, n: int)
    requires
        takes_turns(start, turns),
        forall|i: int| 0 <= i < turns.len() ==> loads_records((#[trigger] turns[i]).event),
        all_recorded(start.manager),
        0 <= n <= turns.len(),
    ensures
        all_recorded(state_before(start, turns, n).manager),
    decreases n,
{
    if n > 0 {
        lemma_stays_recorded(start, turns, n - 1);
        law_partitions_stay_recorded(state_before(start, turns, n - 1), turns[n - 1]);
    }
}

/// A record that was acknowledged is fetched under its offset, whatever requests were
/// handled in between, while nobody else writes to the directories. The broker may have started with no topic at all, or with
/// partitions that consist of whole records.
pub proof fn law_acknowledged_record_is_fetched(
    start: ServerView,
    turns: Seq<Turn>,
    produced: int,
    fetched: int,
    name: Seq<char>,
    partition: u32,
    payload: Seq<u8>,
    offset: u64,
)
    requires
        all_recorded(start.manager),
        takes_turns(start, turns),
        forall|i: int| 0 <= i < turns.len() ==> loads_records((#[trigger] turns[i]).event),
        0 <= produced < fetched < turns.len(),
        turns[produced].frame == (FrameView::Produce { topic: name, partition, payload }),
        turns[produced].step == StepView::Reply(FrameView::ProduceAck { offset }),
        turns[fetched].frame == (FrameView::Fetch { topic: name, partition, offset }),
        turns[fetched].event is Read,
    ensures
        turns[fetched].step == StepView::Reply(FrameView::FetchData { offset, payload }),
{
    let before = state_before(start, turns, produced);
    let turn = turns[produced];
    assert(takes_turn(before, turn));
    lemma_stays_recorded(start, turns, produced);
    lemma_acknowledged(before, turn, name, partition, payload, offset);
    let log = before.manager.topics[name][partition as int];
    assert(is_recorded(log));
    let payloads = choose|payloads: Seq<Seq<u8>>| log.holds(payloads);
    laws::law_append_adds_at_the_end(log, payloads, payload);
    laws::law_offsets_are_consecutive(log, payloads);
    let appended = payloads.push(payload);
    assert(state_before(start, turns, produced + 1) == turn.after);
    let more = law_requests_keep_records(
        start,
        turns,
        produced + 1,
        fetched,
        name,
        partition,
        appended,
    );
    let later = state_before(start, turns, fetched);
    let held = appended + more;
    let now = later.manager.topics[name][partition as int];
    laws::law_offsets_are_consecutive(now, held);
    assert(takes_turn(later, turns[fetched]));
    assert(server::handled(
        turns[fetched].frame,
        turns[fetched].event,
        later,
        turns[fetched].after,
        turns[fetched].step,
    ) && undisturbed(later, turns[fetched].frame, turns[fetched].event)) by {
        reveal(takes_turn);
    }
    server_laws::law_fetch_gives_back(
        later,
        name,
        partition,
        held,
        offset,
        turns[fetched].event,
        turns[fetched].after,
        turns[fetched].step,
    );
    assert(held[payloads.len() as int] == payload);
}

/// A produce that is acknowledged has appended its payload under the offset.
proof fn lemma_acknowledged(
    before: ServerView,
    turn: Turn,
    name: Seq<char>,
    partition: u32,
    payload: Seq<u8>,
    offset: u64,
)
    requires
        takes_turn(before, turn),
        turn.frame == (FrameView::Produce { topic: name, partition, payload }),
        turn.step == StepView::Reply(FrameView::ProduceAck { offset }),
    ensures
        before.manager.refusal(name, partition) is None,
        offset == before.manager.topics[name][partition as int].next_offset(),
        turn.after.manager.refusal(name, partition) is None,
        turn.after.manager.topics[name][partition as int]
            == before.manager.topics[name][partition as int].appended(payload),
        before.manager.topics[name][partition as int].room_for(payload),
        payload.len() < 0x1_0000_0000,
{
    reveal(takes_turn);
}

/// A broker without topics consists of whole records.
pub proof fn law_new_broker_is_recorded(manager: TopicManagerView)
    requires
        manager.topics == Map::<Seq<char>, Seq<LogView>>::empty(),
    ensures
        all_recorded(manager),
{
}

} // verus!
