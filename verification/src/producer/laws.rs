//! What a producer promises: where messages go, and what the broker's responses mean.

use vstd::prelude::*;

use super::client;
use super::client::{AssignView, FlushView, MessageView, ProducerView};
use crate::broker::protocol::{FrameView, ProtocolErrorView};
use crate::client_error::ClientErrorView;
use crate::text;

verus! {

/// The producer once a topic was created with `n` partitions.
pub open spec fn with_count(producer: ProducerView, name: Seq<char>, n: u32) -> ProducerView {
    ProducerView { partition_counts: producer.partition_counts.insert(name, n), ..producer }
}

/// After a topic was created with `n` partitions, the `k`th message assigned to it, counted
/// from 0, goes to partition `k % n`, whatever is sent to other topics in between. Where
/// messages were assigned to it before, the count goes on. The count is kept in 32 bits and
/// starts over after them.
pub proof fn law_created_topic_is_cycled_through(
    producer: ProducerView,
    name: Seq<char>,
    n: u32,
    calls: Seq<AssignView>,
)
    requires
        n > 0,
    ensures
        !producer.round_robin.contains_key(name) ==> client::after_calls(
            with_count(producer, name, n),
            calls,
        ).chosen(name) == (calls_of(calls, name) as int % 0x1_0000_0000) % n as int,
        !producer.round_robin.contains_key(name) && calls_of(calls, name) <= u32::MAX
            ==> client::after_calls(with_count(producer, name, n), calls).chosen(name) == calls_of(
            calls,
            name,
        ) as int % n as int,
        producer.round_robin.contains_key(name) ==> client::after_calls(
            with_count(producer, name, n),
            calls,
        ).chosen(name) == ((producer.round_robin[name] + calls_of(calls, name)) % 0x1_0000_0000)
            % n as int,
{
    let start = with_count(producer, name, n);
    if !producer.round_robin.contains_key(name) {
        lemma_calls(start, calls, name, 0);
    } else {
        lemma_calls(start, calls, name, producer.round_robin[name]);
    }
}

/// How many of the calls are for the topic.
pub open spec fn calls_of(calls: Seq<AssignView>, name: Seq<char>) -> nat {
    calls.filter(|call: AssignView| call.0 == name).len()
}

proof fn lemma_calls(start: ProducerView, calls: Seq<AssignView>, name: Seq<char>, from: u32)
    requires
        if start.round_robin.contains_key(name) {
            start.round_robin[name] == from
        } else {
            from == 0
        },
    ensures
        ({
            let after = client::after_calls(start, calls);
            let count = from + calls_of(calls, name);
            &&& after.partition_counts == start.partition_counts
            &&& if after.round_robin.contains_key(name) {
                after.round_robin[name] == count % 0x1_0000_0000
            } else {
                count == 0
            }
        }),
    decreases calls.len(),
{
    reveal(Seq::filter);
    if calls.len() > 0 {
        lemma_calls(start, calls.drop_last(), name, from);
    }
}

/// A topic of which nothing is known is taken to have one partition: its messages go to
/// partition 0.
pub proof fn law_unknown_topic_has_one_partition(producer: ProducerView, name: Seq<char>)
    requires
        !producer.partition_counts.contains_key(name),
    ensures
        producer.partitions_of(name) == 1,
        producer.chosen(name) == 0,
{
}

/// `n` messages in a row reach each of the `n` partitions of a topic.
pub proof fn law_every_partition_gets_its_turn(
    producer: ProducerView,
    name: Seq<char>,
    n: u32,
    partition: u32,
)
    requires
        !producer.round_robin.contains_key(name),
        partition < n,
    ensures
        client::after_sends(with_count(producer, name, n), name, partition as nat).chosen(name)
            == partition,
{
    lemma_sends(with_count(producer, name, n), name, partition as nat);
    vstd::arithmetic::div_mod::lemma_small_mod(partition as nat, n as nat);
}

proof fn lemma_sends(start: ProducerView, name: Seq<char>, sent: nat)
    requires
        !start.round_robin.contains_key(name),
        sent <= u32::MAX,
    ensures
        ({
            let after = client::after_sends(start, name, sent);
            &&& after.partition_counts == start.partition_counts
            &&& if after.round_robin.contains_key(name) {
                after.round_robin[name] == sent
            } else {
                sent == 0
            }
        }),
    decreases sent,
{
    if sent > 0 {
        lemma_sends(start, name, (sent - 1) as nat);
    }
}

/// Assigning a message touches nothing but the count of its topic.
pub proof fn law_assignment_touches_one_count(
    producer: ProducerView,
    name: Seq<char>,
    other: Seq<char>,
)
    ensures
        producer.advanced(name).partition_counts == producer.partition_counts,
        producer.advanced(name).pending == producer.pending,
        producer.advanced(name).max_batch_size == producer.max_batch_size,
        other != name ==> producer.advanced(name).round_robin.contains_key(other)
            == producer.round_robin.contains_key(other),
        other != name && producer.round_robin.contains_key(other) ==> producer.advanced(
            name,
        ).round_robin[other] == producer.round_robin[other],
{
}

/// The request for a message carries its topic, its partition and its payload.
pub proof fn law_message_is_sent_as_it_is(message: MessageView)
    ensures
        client::produce_frame(message) == (FrameView::Produce {
            topic: message.0,
            partition: message.1,
            payload: message.2,
        }),
{
}

/// What each kind of response to the creation of a topic means.
pub proof fn law_response_to_a_creation(reply: Result<FrameView, ProtocolErrorView>)
    ensures
        client::created(reply) is Ok <==> reply == Ok::<FrameView, ProtocolErrorView>(
            FrameView::Ack,
        ),
        match reply {
            Ok(FrameView::Ack) => true,
            Ok(FrameView::Error { code, message }) => client::created(reply) == Err::<
                (),
                ClientErrorView,
            >(
                ClientErrorView::Other(
                    "broker error "@ + "0x"@ + text::padded(code as nat, 16, 2) + ": "@ + message,
                ),
            ),
            _ => client::created(reply) == Err::<(), ClientErrorView>(
                ClientErrorView::InvalidData("unexpected response to CreateTopic"@),
            ),
        },
{
    if reply is Ok && reply->Ok_0 is Error {
        let code = reply->Ok_0->code;
        let message = reply->Ok_0->message;
        let digits = text::padded(code as nat, 16, 2);
        assert("broker error "@ + ("0x"@ + digits) + ": "@ + message =~= "broker error "@ + "0x"@
            + digits + ": "@ + message);
    }
}

/// What each kind of response to a message means: the offset in an acknowledgement, and
/// otherwise an error.
pub proof fn law_response_to_a_message(reply: Result<FrameView, ProtocolErrorView>)
    ensures
        client::acknowledged(reply) is Ok <==> (reply is Ok && reply->Ok_0 is ProduceAck),
        match reply {
            Ok(FrameView::ProduceAck { offset }) => client::acknowledged(reply) == Ok::<
                u64,
                ClientErrorView,
            >(offset),
            Ok(FrameView::Error { code, message }) => client::acknowledged(reply) == Err::<
                u64,
                ClientErrorView,
            >(
                ClientErrorView::Other(
                    "broker error "@ + "0x"@ + text::padded(code as nat, 16, 2) + ": "@ + message,
                ),
            ),
            _ => client::acknowledged(reply) == Err::<u64, ClientErrorView>(
                ClientErrorView::InvalidData("unexpected response to Produce"@),
            ),
        },
{
    if reply is Ok && reply->Ok_0 is Error {
        let code = reply->Ok_0->code;
        let message = reply->Ok_0->message;
        let digits = text::padded(code as nat, 16, 2);
        assert("broker error "@ + ("0x"@ + digits) + ": "@ + message =~= "broker error "@ + "0x"@
            + digits + ": "@ + message);
    }
}

/// A batch is sent message by message, as it was buffered, and each acknowledgement is
/// kept behind those that came before. A batch that was given up sends nothing more, and
/// keeps the offsets that came.
pub proof fn law_batch_is_sent_in_order(flush: FlushView, offset: u64)
    ensures
        flush.offsets.len() < flush.messages.len() ==> flush.next() == Some(
            FrameView::Produce {
                topic: flush.messages[flush.offsets.len() as int].0,
                partition: flush.messages[flush.offsets.len() as int].1,
                payload: flush.messages[flush.offsets.len() as int].2,
            },
        ),
        flush.offsets.len() >= flush.messages.len() ==> flush.next() is None,
        flush.after(seq![offset]).offsets == flush.offsets + seq![offset],
        flush.after(seq![offset]).messages == flush.messages,
        flush.given_up().next() is None,
        flush.given_up().offsets == flush.offsets,
        flush.offsets.len() <= flush.messages.len() ==> flush.given_up().messages
            == flush.messages.take(flush.offsets.len() as int),
{
}

} // verus!
