//! The producer: which partition a message goes to, what is buffered, and what the
//! broker's responses mean.

use vstd::prelude::*;

use vstd::hash_map::StringHashMap;

use crate::broker::protocol;
use crate::broker::protocol::{Frame, FrameView, ProtocolErrorView};
use crate::client_error;
use crate::client_error::{broker_error, invalid_data, ClientError, ClientErrorView};

verus! {

/// A producer, apart from its connection.
pub struct ProducerClient {
    /// Tracks the next partition to use per topic for round-robin assignment.
    round_robin: StringHashMap<u32>,
    /// Known partition counts per topic (populated after create_topic).
    partition_counts: StringHashMap<u32>,
    /// Buffered messages for batch mode: (topic, partition, payload).
    pending: Vec<(String, u32, Vec<u8>)>,
    /// Number of buffered messages after which the caller should flush.
    pub max_batch_size: usize,
}

/// A message with its topic and its partition.
pub type MessageView = (Seq<char>, u32, Seq<u8>);

/// Messages by their views.
pub open spec fn messages_view(messages: Seq<(String, u32, Vec<u8>)>) -> Seq<MessageView> {
    Seq::new(messages.len(), |i: int| (messages[i].0@, messages[i].1, messages[i].2@))
}

/// A producer with its maps and its buffer as mathematical values.
#[verifier::ext_equal]
pub struct ProducerView {
    pub round_robin: Map<Seq<char>, u32>,
    pub partition_counts: Map<Seq<char>, u32>,
    pub pending: Seq<MessageView>,
    pub max_batch_size: usize,
}

impl View for ProducerClient {
    type V = ProducerView;

    closed spec fn view(&self) -> ProducerView {
        ProducerView {
            round_robin: self.round_robin@,
            partition_counts: self.partition_counts@,
            pending: messages_view(self.pending@),
            max_batch_size: self.max_batch_size,
        }
    }
}

impl ProducerView {
    /// How many partitions the topic is taken to have: one, unless it is known.
    pub open spec fn partitions_of(self, topic: Seq<char>) -> u32 {
        if self.partition_counts.contains_key(topic) {
            self.partition_counts[topic]
        } else {
            1
        }
    }

    /// How many messages were assigned to the topic, modulo 2 to the power of 32.
    pub open spec fn counter(self, topic: Seq<char>) -> u32 {
        if self.round_robin.contains_key(topic) {
            self.round_robin[topic]
        } else {
            0
        }
    }

    /// The partition that the next message for the topic goes to.
    pub open spec fn chosen(self, topic: Seq<char>) -> int {
        self.counter(topic) as int % self.partitions_of(topic) as int
    }

    /// The producer after one more message was assigned to the topic.
    pub open spec fn advanced(self, topic: Seq<char>) -> ProducerView {
        let next = if self.counter(topic) == u32::MAX {
            0
        } else {
            (self.counter(topic) + 1) as u32
        };
        ProducerView { round_robin: self.round_robin.insert(topic, next), ..self }
    }
}

/// The request for a payload.
pub open spec fn produce_frame(message: MessageView) -> FrameView {
    FrameView::Produce { topic: message.0, partition: message.1, payload: message.2 }
}

/// What the response to `CreateTopic` means.
pub open spec fn created(reply: Result<FrameView, ProtocolErrorView>) -> Result<
    (),
    ClientErrorView,
> {
    match reply {
        Ok(FrameView::Ack) => Ok(()),
        Ok(FrameView::Error { code, message }) => Err(
            ClientErrorView::Other(client_error::broker_error_text(code, message)),
        ),
        _ => Err(ClientErrorView::InvalidData("unexpected response to CreateTopic"@)),
    }
}

/// What the response to `Produce` means.
pub open spec fn acknowledged(reply: Result<FrameView, ProtocolErrorView>) -> Result<
    u64,
    ClientErrorView,
> {
    match reply {
        Ok(FrameView::ProduceAck { offset }) => Ok(offset),
        Ok(FrameView::Error { code, message }) => Err(
            ClientErrorView::Other(client_error::broker_error_text(code, message)),
        ),
        _ => Err(ClientErrorView::InvalidData("unexpected response to Produce"@)),
    }
}

/// The offset in the response to `Produce`, or why there is none.
pub fn produce_reply(raw: Vec<u8>) -> (r: Result<u64, ClientError>)
    requires
        protocol::whole(raw@),
    ensures
        match r {
            Ok(offset) => acknowledged(protocol::decoded(raw@)) == Ok::<u64, ClientErrorView>(
                offset,
            ),
            Err(e) => acknowledged(protocol::decoded(raw@)) == Err::<u64, ClientErrorView>(e@),
        },
{
    match Frame::decode(raw) {
        Ok(Frame::ProduceAck { offset }) => Ok(offset),
        Ok(Frame::Error { code, message }) => Err(broker_error(code, &message)),
        _ => Err(invalid_data("unexpected response to Produce")),
    }
}

impl ProducerClient {
    /// A producer that knows no topic and has nothing buffered.
    pub fn new() -> (client: ProducerClient)
        ensures
            client@ == (ProducerView {
                round_robin: Map::empty(),
                partition_counts: Map::empty(),
                pending: Seq::empty(),
                max_batch_size: 100,
            }),
    {
        let client = ProducerClient {
            round_robin: StringHashMap::new(),
            partition_counts: StringHashMap::new(),
            pending: Vec::new(),
            max_batch_size: 100,
        };
        assert(client@.pending =~= Seq::empty());
        client
    }

    /// The request that asks the broker to create a topic with `num_partitions`
    /// partitions.
    pub fn create_topic(&self, name: &str, num_partitions: u32) -> (frame: Frame)
        ensures
            frame@ == (FrameView::CreateTopic { name: name@, num_partitions }),
    {
        Frame::CreateTopic { name: String::from_str(name), num_partitions }
    }

    /// Takes the response to `create_topic`. Records the partition count locally
    /// for round-robin assignment.
    pub fn create_topic_reply(&mut self, name: &str, num_partitions: u32, raw: Vec<u8>) -> (r:
        Result<(), ClientError>)
        requires
            protocol::whole(raw@),
        ensures
            match r {
                Ok(_) => {
                    &&& created(protocol::decoded(raw@)) is Ok
                    &&& final(self)@ == (ProducerView {
                        partition_counts: old(self)@.partition_counts.insert(name@, num_partitions),
                        ..old(self)@
                    })
                },
                Err(e) => {
                    &&& created(protocol::decoded(raw@)) == Err::<(), ClientErrorView>(e@)
                    &&& final(self)@ == old(self)@
                },
            },
    {
        match Frame::decode(raw) {
            Ok(Frame::Ack) => {
                self.partition_counts.insert(String::from_str(name), num_partitions);
                Ok(())
            },
            Ok(Frame::Error { code, message }) => Err(broker_error(code, &message)),
            _ => Err(invalid_data("unexpected response to CreateTopic")),
        }
    }

    /// The request that sends `payload` to `topic`, with a partition chosen via
    /// round-robin.
    pub fn send(&mut self, topic: &str, payload: Vec<u8>) -> (frame: Frame)
        requires
            old(self)@.partitions_of(topic@) != 0,
        ensures
            frame@ == produce_frame((topic@, old(self)@.chosen(topic@) as u32, payload@)),
            final(self)@ == old(self)@.advanced(topic@),
    {
        let partition: u32 = self.next_partition(topic);
        self.send_to_partition(topic, partition, payload)
    }

    /// The request that sends `payload` to an explicit `partition` of `topic`.
    pub fn send_to_partition(&self, topic: &str, partition: u32, payload: Vec<u8>) -> (frame: Frame)
        ensures
            frame@ == produce_frame((topic@, partition, payload@)),
    {
        Frame::Produce { topic: String::from_str(topic), partition, payload }
    }

    /// Buffer a message for the next `flush_batch()` call.
    /// Selects a partition via round-robin.
    /// If the buffer reaches `max_batch_size`, the caller should call
    /// `flush_batch()`: this method does not flush.
    pub fn buffer_message(&mut self, topic: &str, payload: Vec<u8>)
        requires
            old(self)@.partitions_of(topic@) != 0,
        ensures
            final(self)@ == (ProducerView {
                pending: old(self)@.pending.push(
                    (topic@, old(self)@.chosen(topic@) as u32, payload@),
                ),
                ..old(self)@.advanced(topic@)
            }),
    {
        let ghost before = self.pending@;
        let partition: u32 = self.next_partition(topic);
        let message = (String::from_str(topic), partition, payload);
        self.pending.push(message);
        assert(messages_view(self.pending@) =~= messages_view(before).push(
            (topic@, partition, payload@),
        ));
    }

    /// Takes all buffered messages, to be sent to the broker in order.
    pub fn flush_batch(&mut self) -> (flush: Flush)
        ensures
            flush@ == (FlushView { messages: old(self)@.pending, offsets: Seq::empty() }),
            final(self)@ == (ProducerView { pending: Seq::empty(), ..old(self)@ }),
    {
        let mut messages: Vec<(String, u32, Vec<u8>)> = Vec::new();
        std::mem::swap(&mut messages, &mut self.pending);
        assert(messages_view(self.pending@) =~= Seq::empty());
        let flush = Flush { messages, offsets: Vec::new() };
        flush
    }

    /// Number of messages currently buffered.
    pub fn pending_count(&self) -> (n: usize)
        ensures
            n == self@.pending.len(),
    {
        self.pending.len()
    }

    /// Whether a message can be assigned to a partition of the topic: not if the
    /// topic was created without any.
    pub fn has_partitions(&self, topic: &str) -> (b: bool)
        ensures
            b == (self@.partitions_of(topic@) != 0),
    {
        match self.partition_counts.get(topic) {
            Some(n) => *n != 0,
            None => true,
        }
    }

    /// The partition that the next message for the topic goes to.
    pub fn next_partition(&mut self, topic: &str) -> (p: u32)
        requires
            old(self)@.partitions_of(topic@) != 0,
        ensures
            p == old(self)@.chosen(topic@),
            final(self)@ == old(self)@.advanced(topic@),
    {
        let num_parts: u32 = match self.partition_counts.get(topic) {
            Some(n) => *n,
            None => 1,
        };
        let counter: u32 = match self.round_robin.get(topic) {
            Some(c) => *c,
            None => 0,
        };
        let p: u32 = counter % num_parts;
        self.round_robin.insert(String::from_str(topic), counter.wrapping_add(1));
        p
    }
}

/// A batch on its way to the broker.
pub struct Flush {
    messages: Vec<(String, u32, Vec<u8>)>,
    offsets: Vec<u64>,
}

/// The messages of a batch, and the offsets of those that were acknowledged.
#[verifier::ext_equal]
pub struct FlushView {
    pub messages: Seq<MessageView>,
    pub offsets: Seq<u64>,
}

impl View for Flush {
    type V = FlushView;

    closed spec fn view(&self) -> FlushView {
        FlushView { messages: messages_view(self.messages@), offsets: self.offsets@ }
    }
}

impl FlushView {
    /// The request for the first message that was not acknowledged yet.
    pub open spec fn next(self) -> Option<FrameView> {
        if self.offsets.len() < self.messages.len() {
            Some(produce_frame(self.messages[self.offsets.len() as int]))
        } else {
            None
        }
    }

    /// The batch cut to the messages that were acknowledged.
    pub open spec fn given_up(self) -> FlushView {
        if self.offsets.len() < self.messages.len() {
            FlushView { messages: self.messages.take(self.offsets.len() as int), ..self }
        } else {
            self
        }
    }

    /// The batch after acknowledgements with these offsets.
    pub open spec fn after(self, offsets: Seq<u64>) -> FlushView {
        FlushView { offsets: self.offsets + offsets, ..self }
    }
}

impl Flush {
    /// The request for the first message that was not acknowledged yet; none if
    /// the batch is through.
    pub fn next_request(&self) -> (r: Option<Frame>)
        ensures
            match r {
                Some(frame) => self@.next() == Some(frame@),
                None => self@.next() is None,
            },
    {
        let i: usize = self.offsets.len();
        if i >= self.messages.len() {
            return None;
        }
        let message = &self.messages[i];
        let payload: Vec<u8> = vstd::slice::slice_to_vec(message.2.as_slice());
        Some(
            Frame::Produce {
                topic: String::from_str(message.0.as_str()),
                partition: message.1,
                payload,
            },
        )
    }

    /// Takes the response to a request. After an error the batch is given up: no
    /// message that was not acknowledged is sent any more.
    pub fn accept(&mut self, raw: Vec<u8>) -> (r: Result<(), ClientError>)
        requires
            protocol::whole(raw@),
        ensures
            match r {
                Ok(_) => {
                    &&& acknowledged(protocol::decoded(raw@)) is Ok
                    &&& final(self)@ == old(self)@.after(
                        seq![acknowledged(protocol::decoded(raw@))->Ok_0],
                    )
                },
                Err(e) => {
                    &&& acknowledged(protocol::decoded(raw@)) == Err::<u64, ClientErrorView>(e@)
                    &&& final(self)@ == old(self)@.given_up()
                    &&& final(self)@.next() is None
                },
            },
    {
        match produce_reply(raw) {
            Ok(offset) => {
                let ghost before = self.offsets@;
                self.offsets.push(offset);
                assert(self.offsets@ =~= before + seq![offset]);
                Ok(())
            },
            Err(e) => {
                self.messages.truncate(self.offsets.len());
                assert(self@ =~= old(self)@.given_up());
                Err(e)
            },
        }
    }

    /// The offsets of the messages, in the order in which these were buffered.
    pub fn into_offsets(self) -> (offsets: Vec<u64>)
        ensures
            offsets@ == self@.offsets,
    {
        self.offsets
    }
}

/// Round-robin: after `sent` more messages for the topic, the next goes `sent`
/// partitions further on, counted around; other topics are not affected. The
/// counter starts over after 32 bits.
pub proof fn law_round_robin(client: ProducerView, topic: Seq<char>, sent: nat, other: Seq<char>)
    requires
        client.partitions_of(topic) != 0,
        client.counter(topic) + sent <= u32::MAX,
        other != topic,
    ensures
        after_sends(client, topic, sent).chosen(topic) == (client.chosen(topic) + sent)
            % client.partitions_of(topic) as int,
        after_sends(client, topic, sent).chosen(other) == client.chosen(other),
        after_sends(client, topic, sent).pending == client.pending,
{
    lemma_after_sends(client, topic, sent, other);
    let n = client.partitions_of(topic) as int;
    vstd::arithmetic::div_mod::lemma_add_mod_noop(client.counter(topic) as int, sent as int, n);
    vstd::arithmetic::div_mod::lemma_add_mod_noop(client.chosen(topic), sent as int, n);
    vstd::arithmetic::div_mod::lemma_mod_twice(client.counter(topic) as int, n);
}

/// The producer after so many more messages were assigned to the topic.
pub open spec fn after_sends(client: ProducerView, topic: Seq<char>, sent: nat) -> ProducerView
    decreases sent,
{
    if sent == 0 {
        client
    } else {
        after_sends(client, topic, (sent - 1) as nat).advanced(topic)
    }
}

proof fn lemma_after_sends(client: ProducerView, topic: Seq<char>, sent: nat, other: Seq<char>)
    requires
        client.counter(topic) + sent <= u32::MAX,
        other != topic,
    ensures
        after_sends(client, topic, sent).counter(topic) == client.counter(topic) + sent,
        after_sends(client, topic, sent).counter(other) == client.counter(other),
        after_sends(client, topic, sent).partition_counts == client.partition_counts,
        after_sends(client, topic, sent).pending == client.pending,
    decreases sent,
{
    if sent > 0 {
        lemma_after_sends(client, topic, (sent - 1) as nat, other);
    }
}

/// A call that assigns a message to a partition (`next_partition`, `send` or
/// `buffer_message`): the topic, and for a message that is buffered its payload.
pub type AssignView = (Seq<char>, Option<Seq<u8>>);

/// The producer after calls that assign messages, for any topics.
pub open spec fn after_calls(client: ProducerView, calls: Seq<AssignView>) -> ProducerView
    decreases calls.len(),
{
    if calls.len() == 0 {
        client
    } else {
        let before = after_calls(client, calls.drop_last());
        let (topic, buffered) = calls.last();
        match buffered {
            None => before.advanced(topic),
            Some(payload) => ProducerView {
                pending: before.pending.push((topic, before.chosen(topic) as u32, payload)),
                ..before.advanced(topic)
            },
        }
    }
}

/// How many of the calls are for the topic.
pub open spec fn calls_for(calls: Seq<AssignView>, topic: Seq<char>) -> nat
    decreases calls.len(),
{
    if calls.len() == 0 {
        0
    } else {
        calls_for(calls.drop_last(), topic) + if calls.last().0 == topic {
            1nat
        } else {
            0nat
        }
    }
}

proof fn lemma_after_calls(client: ProducerView, calls: Seq<AssignView>, topic: Seq<char>)
    requires
        client.counter(topic) + calls_for(calls, topic) <= u32::MAX,
    ensures
        after_calls(client, calls).counter(topic) == client.counter(topic) + calls_for(
            calls,
            topic,
        ),
        after_calls(client, calls).partition_counts == client.partition_counts,
    decreases calls.len(),
{
    if calls.len() > 0 {
        lemma_after_calls(client, calls.drop_last(), topic);
    }
}

/// Round-robin per topic: whatever calls are mixed, the next message for a topic goes
/// as many partitions further on as there were calls for this topic, counted around.
/// Calls for other topics do not matter.
pub proof fn law_round_robin_of_mixed_topics(
    client: ProducerView,
    calls: Seq<AssignView>,
    topic: Seq<char>,
)
    requires
        client.partitions_of(topic) != 0,
        client.counter(topic) + calls_for(calls, topic) <= u32::MAX,
    ensures
        after_calls(client, calls).chosen(topic) == (client.chosen(topic) + calls_for(calls, topic))
            % client.partitions_of(topic) as int,
        client.counter(topic) == 0 ==> after_calls(client, calls).chosen(topic) == calls_for(
            calls,
            topic,
        ) as int % client.partitions_of(topic) as int,
{
    lemma_after_calls(client, calls, topic);
    let n = client.partitions_of(topic) as int;
    let c = client.counter(topic) as int;
    let k = calls_for(calls, topic) as int;
    vstd::arithmetic::div_mod::lemma_add_mod_noop(c, k, n);
    vstd::arithmetic::div_mod::lemma_add_mod_noop(client.chosen(topic), k, n);
    vstd::arithmetic::div_mod::lemma_mod_twice(c, n);
}

/// As many messages in a row as there are partitions go to each partition once.
pub proof fn law_round_robin_reaches_every_partition(
    client: ProducerView,
    topic: Seq<char>,
    partition: u32,
) -> (sent: nat)
    requires
        partition < client.partitions_of(topic),
        client.counter(topic) + client.partitions_of(topic) <= u32::MAX,
    ensures
        sent < client.partitions_of(topic),
        after_sends(client, topic, sent).chosen(topic) == partition,
        forall|k: nat|
            k < client.partitions_of(topic) && #[trigger] after_sends(client, topic, k).chosen(
                topic,
            ) == partition ==> k == sent,
{
    let n = client.partitions_of(topic) as int;
    let start = client.chosen(topic);
    let sent: nat = if partition >= start {
        (partition - start) as nat
    } else {
        (partition - start + n) as nat
    };
    let other = topic.push('a');
    assert(other.len() != topic.len());
    assert(0 <= start < n);
    assert forall|k: nat| k < n implies #[trigger] after_sends(client, topic, k).chosen(topic) == if start
        + k < n {
        start + k
    } else {
        start + k - n
    } by {
        law_round_robin(client, topic, k, other);
        if start + k < n {
            vstd::arithmetic::div_mod::lemma_small_mod((start + k) as nat, n as nat);
        } else {
            vstd::arithmetic::div_mod::lemma_mod_sub_multiples_vanish(start + k, n);
            vstd::arithmetic::div_mod::lemma_small_mod((start + k - n) as nat, n as nat);
        }
    }
    assert(after_sends(client, topic, sent).chosen(topic) == partition);
    sent
}

/// A batch is sent in the order in which it was buffered: after the first so many
/// messages were acknowledged, the next request is for the message behind them,
/// and the offsets stand in the order of the messages.
pub proof fn law_flush_keeps_the_order(messages: Seq<MessageView>, offsets: Seq<u64>)
    requires
        offsets.len() <= messages.len(),
    ensures
        ({
            let flush = (FlushView { messages, offsets: Seq::empty() }).after(offsets);
            &&& flush.offsets == offsets
            &&& offsets.len() < messages.len() ==> flush.next() == Some(
                produce_frame(messages[offsets.len() as int]),
            )
            &&& offsets.len() == messages.len() ==> flush.next() is None
        }),
{
    assert(Seq::<u64>::empty() + offsets =~= offsets);
}

} // verus!
