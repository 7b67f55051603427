//! What consuming promises: the records of a partition, in order.

use vstd::prelude::*;

use super::client;
use super::client::{ConsumerView, PollView};
use crate::broker::consumer_group::Position;
use crate::broker::protocol;
use crate::broker::protocol::{FrameView, ProtocolErrorView, MAX_FRAME_BYTES};
use crate::broker::protocol_laws;
use crate::broker::server;
use crate::broker::server::{Event, ServerView, StepView};
use crate::broker::server_laws;
use crate::client_error::ClientErrorView;
use crate::wire;

verus! {

/// One round of a poll: the broker handles the consumer's request, and its
/// response, sent over the wire, gives the consumer the payload that was appended
/// under the offset; the consumer then stands behind it.
pub proof fn law_poll_reads_the_log(
    consumer: ConsumerView,
    poll: PollView,
    before: ServerView,
    payloads: Seq<Seq<u8>>,
    event: Event,
    after: ServerView,
    reply: FrameView,
)
    requires
        before.manager.refusal(consumer.topic, consumer.partition) is None,
        before.manager.topics[consumer.topic][consumer.partition as int].holds(payloads),
        before.manager.topics[consumer.topic][consumer.partition as int].first_offset()
            <= consumer.current_offset,
        consumer.current_offset
            < before.manager.topics[consumer.topic][consumer.partition as int].next_offset(),
        server_laws::reads_own(
            event,
            before.manager.topics[consumer.topic][consumer.partition as int],
            consumer.current_offset,
        ),
        server::handled(consumer.fetch_frame(), event, before, after, StepView::Reply(reply)),
        reply.body().len() <= MAX_FRAME_BYTES,
    ensures
        ({
            let first =
                before.manager.topics[consumer.topic][consumer.partition as int].first_offset();
            let at = consumer.current_offset - first;
            &&& 0 <= at < payloads.len()
            &&& protocol::whole(reply.encoded())
            &&& client::can_advance(protocol::decoded(reply.encoded()))
            &&& client::fetched(consumer, poll, protocol::decoded(reply.encoded())) == Ok::<
                (ConsumerView, PollView),
                ClientErrorView,
            >(
                (
                    ConsumerView {
                        current_offset: (consumer.current_offset + 1) as u64,
                        ..consumer
                    },
                    PollView {
                        records: poll.records.push((consumer.current_offset, payloads[at])),
                        ..poll
                    },
                ),
            )
        }),
        after == before,
{
    server_laws::law_fetch_gives_back(
        before,
        consumer.topic,
        consumer.partition,
        payloads,
        consumer.current_offset,
        event,
        after,
        StepView::Reply(reply),
    );
    let payload = reply->FetchData_payload;
    wire::lemma_le_bytes_len(consumer.current_offset as nat, 8);
    wire::lemma_le_bytes_len(payload.len(), 4);
    assert(payload.len() <= reply.body().len());
    protocol_laws::law_frame_round_trip(reply, Seq::empty());
    assert(reply.encoded() + Seq::<u8>::empty() =~= reply.encoded());
}

/// At the end of the partition the poll ends, with the records that it has, and
/// the consumer stays where it is.
pub proof fn law_poll_ends_with_the_log(
    consumer: ConsumerView,
    poll: PollView,
    before: ServerView,
    event: Event,
    after: ServerView,
    reply: FrameView,
)
    requires
        before.manager.refusal(consumer.topic, consumer.partition) is None,
        before.manager.topics[consumer.topic][consumer.partition as int].next_offset()
            <= consumer.current_offset,
        server::handled(consumer.fetch_frame(), event, before, after, StepView::Reply(reply)),
    ensures
        client::fetched(consumer, poll, Ok::<FrameView, ProtocolErrorView>(reply)) == Ok::<
            (ConsumerView, PollView),
            ClientErrorView,
        >((consumer, PollView { ended: true, ..poll })),
        after == before,
{
    server_laws::law_fetch_out_of_range(
        before,
        consumer.topic,
        consumer.partition,
        consumer.current_offset,
        event,
        after,
        StepView::Reply(reply),
    );
}

/// The consumer and the poll after records of these payloads, one after the other
/// from the consumer's offset on.
pub open spec fn after_records(
    consumer: ConsumerView,
    poll: PollView,
    payloads: Seq<Seq<u8>>,
) -> (ConsumerView, PollView)
    decreases payloads.len(),
{
    if payloads.len() == 0 {
        (consumer, poll)
    } else {
        let (c, p) = after_records(consumer, poll, payloads.drop_last());
        let reply: Result<FrameView, ProtocolErrorView> = Ok(
            FrameView::FetchData { offset: c.current_offset, payload: payloads.last() },
        );
        match client::fetched(c, p, reply) {
            Ok(next) => next,
            Err(_) => (c, p),
        }
    }
}

/// A poll collects what it is given in order: offsets one by one from where the
/// consumer stood, each with its payload, and the consumer then stands behind the
/// last. It wants more until it has as many as were asked for.
pub proof fn law_poll_collects_in_order(
    consumer: ConsumerView,
    max: usize,
    payloads: Seq<Seq<u8>>,
)
    requires
        consumer.current_offset + payloads.len() <= u64::MAX,
        payloads.len() <= max,
    ensures
        ({
            let (c, p) = after_records(consumer, PollView::started(max), payloads);
            &&& c == (ConsumerView {
                current_offset: (consumer.current_offset + payloads.len()) as u64,
                ..consumer
            })
            &&& p.records == Seq::new(
                payloads.len(),
                |i: int| ((consumer.current_offset + i) as u64, payloads[i]),
            )
            &&& p.wants_more() == (payloads.len() < max)
        }),
{
    lemma_collects(consumer, max, payloads);
    assert(after_records(consumer, PollView::started(max), payloads).1.records =~= Seq::new(
        payloads.len(),
        |i: int| ((consumer.current_offset + i) as u64, payloads[i]),
    ));
}

proof fn lemma_collects(consumer: ConsumerView, max: usize, payloads: Seq<Seq<u8>>)
    requires
        consumer.current_offset + payloads.len() <= u64::MAX,
    ensures
        ({
            let (c, p) = after_records(consumer, PollView::started(max), payloads);
            &&& c == (ConsumerView {
                current_offset: (consumer.current_offset + payloads.len()) as u64,
                ..consumer
            })
            &&& p.max == max
            &&& !p.ended
            &&& p.records.len() == payloads.len()
            &&& forall|i: int|
                0 <= i < payloads.len() ==> #[trigger] p.records[i] == (
                    (consumer.current_offset + i) as u64,
                    payloads[i],
                )
        }),
    decreases payloads.len(),
{
    if payloads.len() > 0 {
        lemma_collects(consumer, max, payloads.drop_last());
    }
}

/// What a consumer commits is what its group then finds, and no other group,
/// topic or partition is affected.
pub proof fn law_committed_offset_is_kept(
    consumer: ConsumerView,
    before: ServerView,
    event: Event,
    after: ServerView,
    step: StepView,
    other: Position,
)
    requires
        server::handled(
            (FrameView::CommitOffset {
                group: consumer.group,
                topic: consumer.topic,
                partition: consumer.partition,
                offset: consumer.current_offset,
            }),
            event,
            before,
            after,
            step,
        ),
        other != (consumer.group, consumer.topic, consumer.partition),
    ensures
        step == StepView::Reply(FrameView::Ack),
        after.offsets.get((consumer.group, consumer.topic, consumer.partition)) == Some(
            consumer.current_offset,
        ),
        after.offsets.get(other) == before.offsets.get(other),
        after.manager == before.manager,
{
}

} // verus!
