//! What a poll promises as a whole: the records that there are, up to the number asked
//! for, and then an end.

use vstd::prelude::*;

use super::client;
use super::client::{ConsumerView, PollView};
use crate::broker::protocol::{FrameView, ProtocolErrorView};
use crate::client_error::ClientErrorView;

verus! {

/// A poll asks for one more record as long as the broker has refused none and fewer came
/// than were asked for, and no longer: a refusal ends it, however many records came
/// before.
pub proof fn law_poll_asks_while_it_may(poll: PollView)
    ensures
        poll.ended ==> !poll.wants_more(),
        poll.records.len() >= poll.max ==> !poll.wants_more(),
        !poll.ended && poll.records.len() < poll.max ==> poll.wants_more(),
{
}

/// What each kind of response does to a poll. A record is kept behind those that came
/// before, and the consumer then stands behind it; a refusal ends the poll, and the
/// consumer stays; anything else fails the poll with a text that shows it.
pub proof fn law_response_to_a_poll(
    consumer: ConsumerView,
    poll: PollView,
    reply: Result<FrameView, ProtocolErrorView>,
)
    ensures
        match reply {
            Ok(FrameView::FetchData { offset, payload }) => offset < u64::MAX ==> {
                let r = client::fetched(consumer, poll, reply);
                &&& r is Ok
                &&& r->Ok_0.0.current_offset == offset + 1
                &&& r->Ok_0.0.group == consumer.group
                &&& r->Ok_0.0.topic == consumer.topic
                &&& r->Ok_0.0.partition == consumer.partition
                &&& r->Ok_0.1.records == poll.records + seq![(offset, payload)]
                &&& r->Ok_0.1.max == poll.max
                &&& r->Ok_0.1.ended == poll.ended
            },
            Ok(FrameView::Error { code, message }) => {
                let r = client::fetched(consumer, poll, reply);
                &&& r is Ok
                &&& r->Ok_0.0 == consumer
                &&& r->Ok_0.1.records == poll.records
                &&& r->Ok_0.1.max == poll.max
                &&& r->Ok_0.1.ended
                &&& !r->Ok_0.1.wants_more()
            },
            Ok(other) => client::fetched(consumer, poll, reply) == Err::<
                (ConsumerView, PollView),
                ClientErrorView,
            >(ClientErrorView::InvalidData("unexpected response to Fetch: "@ + other.shown())),
            Err(e) => client::fetched(consumer, poll, reply) == Err::<
                (ConsumerView, PollView),
                ClientErrorView,
            >(ClientErrorView::Other(e.message())),
        },
{
    if reply is Ok && reply->Ok_0 is FetchData {
        let record = (reply->Ok_0->FetchData_offset, reply->Ok_0->FetchData_payload);
        assert(poll.records.push(record) =~= poll.records + seq![record]);
    }
}

/// A request of a poll is a fetch of the record that the consumer stands at.
pub proof fn law_poll_fetches_where_the_consumer_stands(consumer: ConsumerView)
    ensures
        consumer.fetch_frame() == (FrameView::Fetch {
            topic: consumer.topic,
            partition: consumer.partition,
            offset: consumer.current_offset,
        }),
{
}

/// The response of a broker whose partition holds these payloads from offset `first` on.
pub open spec fn response(first: u64, payloads: Seq<Seq<u8>>, offset: u64) -> FrameView {
    if first <= offset < first + payloads.len() {
        FrameView::FetchData { offset, payload: payloads[offset - first] }
    } else {
        FrameView::Error { code: 0x03, message: Seq::empty() }
    }
}

/// The consumer and the poll after at most so many rounds with that broker.
pub open spec fn polled(
    consumer: ConsumerView,
    poll: PollView,
    first: u64,
    payloads: Seq<Seq<u8>>,
    rounds: nat,
) -> (ConsumerView, PollView)
    decreases rounds,
{
    if rounds == 0 || !poll.wants_more() {
        (consumer, poll)
    } else {
        let reply: Result<FrameView, ProtocolErrorView> = Ok(
            response(first, payloads, consumer.current_offset),
        );
        match client::fetched(consumer, poll, reply) {
            Ok((c, p)) => polled(c, p, first, payloads, (rounds - 1) as nat),
            Err(e) => (consumer, poll),
        }
    }
}

proof fn lemma_polled(
    consumer: ConsumerView,
    poll: PollView,
    first: u64,
    payloads: Seq<Seq<u8>>,
    rounds: nat,
)
    requires
        first <= consumer.current_offset <= first + payloads.len() <= u64::MAX,
        !poll.ended,
        poll.records.len() <= poll.max,
        rounds >= poll.max - poll.records.len() + 1,
    ensures
        ({
            let start = consumer.current_offset - first;
            let wanted = poll.max - poll.records.len();
            let there = payloads.len() - start;
            let n = if wanted <= there {
                wanted
            } else {
                there
            };
            let (c, p) = polled(consumer, poll, first, payloads, rounds);
            &&& c == (ConsumerView {
                current_offset: (consumer.current_offset + n) as u64,
                ..consumer
            })
            &&& !p.wants_more()
            &&& p.records == poll.records + Seq::new(
                n as nat,
                |i: int| ((consumer.current_offset + i) as u64, payloads[start + i]),
            )
        }),
    decreases rounds,
{
    let start = consumer.current_offset - first;
    law_poll_asks_while_it_may(poll);
    let none = Seq::new(
        0,
        |i: int| ((consumer.current_offset + i) as u64, payloads[start + i]),
    );
    assert(poll.records + none =~= poll.records);
    if poll.records.len() < poll.max {
        let frame = response(first, payloads, consumer.current_offset);
        let reply: Result<FrameView, ProtocolErrorView> = Ok(frame);
        law_response_to_a_poll(consumer, poll, reply);
        let (c, p) = client::fetched(consumer, poll, reply)->Ok_0;
        if start < payloads.len() {
            lemma_polled(c, p, first, payloads, (rounds - 1) as nat);
            let wanted = poll.max - poll.records.len();
            let there = payloads.len() - start;
            let n = if wanted <= there {
                wanted
            } else {
                there
            };
            let one = (consumer.current_offset, payloads[start]);
            let tail = Seq::new(
                (n - 1) as nat,
                |i: int| ((c.current_offset + i) as u64, payloads[start + 1 + i]),
            );
            let all = Seq::new(
                n as nat,
                |i: int| ((consumer.current_offset + i) as u64, payloads[start + i]),
            );
            assert(poll.records + seq![one] + tail =~= poll.records + all);
        } else {
            reveal_with_fuel(polled, 2);
        }
    }
}

/// A poll for `max` records, against a partition that holds these payloads from offset
/// `first` on, gives the records from the consumer's offset on, in order, as many as were
/// asked for or as there are; it is through after at most one round more than records
/// were asked for, and the consumer then stands behind the last record.
pub proof fn law_poll_takes_what_there_is(
    consumer: ConsumerView,
    max: usize,
    first: u64,
    payloads: Seq<Seq<u8>>,
)
    requires
        first <= consumer.current_offset <= first + payloads.len() <= u64::MAX,
    ensures
        ({
            let start = consumer.current_offset - first;
            let there = payloads.len() - start;
            let n = if max <= there {
                max as int
            } else {
                there
            };
            let (c, p) = polled(consumer, PollView::started(max), first, payloads, max as nat + 1);
            &&& c == (ConsumerView {
                current_offset: (consumer.current_offset + n) as u64,
                ..consumer
            })
            &&& !p.wants_more()
            &&& p.records.len() == n
            &&& forall|i: int|
                0 <= i < n ==> #[trigger] p.records[i] == (
                    (consumer.current_offset + i) as u64,
                    payloads[start + i],
                )
        }),
{
    lemma_polled(consumer, PollView::started(max), first, payloads, max as nat + 1);
}

/// What each kind of response to a commit means.
pub proof fn law_response_to_a_commit(reply: Result<FrameView, ProtocolErrorView>)
    ensures
        client::committed(reply) is Ok <==> reply == Ok::<FrameView, ProtocolErrorView>(
            FrameView::Ack,
        ),
        match reply {
            Ok(FrameView::Ack) => true,
            Ok(FrameView::Error { code, message }) => client::committed(reply) == Err::<
                (),
                ClientErrorView,
            >(ClientErrorView::Other(message)),
            _ => client::committed(reply) == Err::<(), ClientErrorView>(
                ClientErrorView::InvalidData("unexpected response to CommitOffset"@),
            ),
        },
{
}

/// A record can be taken up unless it is the last that there can be.
pub proof fn law_only_the_last_offset_stops_a_consumer(
    reply: Result<FrameView, ProtocolErrorView>,
)
    ensures
        !client::can_advance(reply) <==> (reply is Ok && reply->Ok_0 is FetchData
            && reply->Ok_0->FetchData_offset == 0xFFFF_FFFF_FFFF_FFFF),
{
}

} // verus!
