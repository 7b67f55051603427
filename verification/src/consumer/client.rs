//! The consumer: what it asks for, and what the broker's responses mean.

use vstd::prelude::*;

use crate::broker::protocol;
use crate::broker::protocol::{
    is_whole, opcode, resp_kind, Frame, FrameView, ProtocolErrorView, MAX_FRAME_BYTES,
};
use crate::client_error::{invalid_data, ClientError, ClientErrorView};
use crate::wire::get_le;

verus! {

/// A record as it was fetched.
#[derive(Debug, Clone, PartialEq)]
pub struct Record {
    pub offset: u64,
    pub payload: Vec<u8>,
}

/// Records by their offsets and their bytes.
pub open spec fn records_view(records: Seq<Record>) -> Seq<(u64, Seq<u8>)> {
    Seq::new(records.len(), |i: int| (records[i].offset, records[i].payload@))
}

/// A consumer, apart from its connection.
pub struct ConsumerClient {
    group: String,
    topic: String,
    partition: u32,
    current_offset: u64,
}

/// A consumer with its texts as character sequences.
#[verifier::ext_equal]
pub struct ConsumerView {
    pub group: Seq<char>,
    pub topic: Seq<char>,
    pub partition: u32,
    pub current_offset: u64,
}

impl View for ConsumerClient {
    type V = ConsumerView;

    closed spec fn view(&self) -> ConsumerView {
        ConsumerView {
            group: self.group@,
            topic: self.topic@,
            partition: self.partition,
            current_offset: self.current_offset,
        }
    }
}

impl ConsumerView {
    /// The request for the next record.
    pub open spec fn fetch_frame(self) -> FrameView {
        FrameView::Fetch {
            topic: self.topic,
            partition: self.partition,
            offset: self.current_offset,
        }
    }
}

/// A poll under way: how many records are wanted at most, those that came, and
/// whether the broker has no more.
pub struct Poll {
    max: usize,
    records: Vec<Record>,
    ended: bool,
}

/// A poll with its records as a sequence.
#[verifier::ext_equal]
pub struct PollView {
    pub max: usize,
    pub records: Seq<(u64, Seq<u8>)>,
    pub ended: bool,
}

impl View for Poll {
    type V = PollView;

    closed spec fn view(&self) -> PollView {
        PollView { max: self.max, records: records_view(self.records@), ended: self.ended }
    }
}

impl PollView {
    /// A poll that has just begun.
    pub open spec fn started(max: usize) -> PollView {
        PollView { max, records: Seq::empty(), ended: false }
    }

    /// Whether one more record is to be asked for.
    pub open spec fn wants_more(self) -> bool {
        !self.ended && self.records.len() < self.max
    }
}

/// The consumer and the poll after a response to `Fetch`, or why the poll fails.
pub open spec fn fetched(
    client: ConsumerView,
    poll: PollView,
    reply: Result<FrameView, ProtocolErrorView>,
) -> Result<(ConsumerView, PollView), ClientErrorView> {
    match reply {
        Ok(FrameView::FetchData { offset, payload }) => Ok(
            (
                ConsumerView { current_offset: (offset + 1) as u64, ..client },
                PollView { records: poll.records.push((offset, payload)), ..poll },
            ),
        ),
        Ok(FrameView::Error { code, message }) => Ok((client, PollView { ended: true, ..poll })),
        Ok(other) => Err(
            ClientErrorView::InvalidData("unexpected response to Fetch: "@ + other.shown()),
        ),
        Err(e) => Err(ClientErrorView::Other(e.message())),
    }
}

/// Whether there is an offset behind the one in a response to `Fetch`.
pub open spec fn can_advance(reply: Result<FrameView, ProtocolErrorView>) -> bool {
    match reply {
        Ok(FrameView::FetchData { offset, payload }) => offset < u64::MAX,
        _ => true,
    }
}

/// What the response to `CommitOffset` means.
pub open spec fn committed(reply: Result<FrameView, ProtocolErrorView>) -> Result<
    (),
    ClientErrorView,
> {
    match reply {
        Ok(FrameView::Ack) => Ok(()),
        Ok(FrameView::Error { code, message }) => Err(ClientErrorView::Other(message)),
        _ => Err(ClientErrorView::InvalidData("unexpected response to CommitOffset"@)),
    }
}

/// Whether a response can be handed to `ConsumerClient::poll_reply`.
pub fn admits_reply(raw: &[u8]) -> (b: bool)
    ensures
        b == (protocol::whole(raw@) && can_advance(protocol::decoded(raw@))),
{
    if !is_whole(raw) {
        return false;
    }
    let n: usize = raw.len();
    if n < 5 || get_le(raw, 0, 4) > MAX_FRAME_BYTES as u64 {
        return true;
    }
    if raw[4] == opcode::RESPONSE && raw[5] == resp_kind::PAYLOAD {
        get_le(raw, 6, 8) < u64::MAX
    } else {
        true
    }
}

impl ConsumerClient {
    /// A consumer that is not subscribed yet. `group` is the consumer-group
    /// identifier used when committing offsets.
    pub fn new(group: &str) -> (client: ConsumerClient)
        ensures
            client@ == (ConsumerView {
                group: group@,
                topic: Seq::empty(),
                partition: 0,
                current_offset: 0,
            }),
    {
        let client = ConsumerClient {
            group: String::from_str(group),
            topic: String::new(),
            partition: 0,
            current_offset: 0,
        };
        assert(client@.topic =~= Seq::empty());
        client
    }

    /// Set which topic/partition to consume and the starting offset.
    pub fn subscribe(&mut self, topic: &str, partition: u32, start_offset: u64)
        ensures
            final(self)@ == (ConsumerView {
                group: old(self)@.group,
                topic: topic@,
                partition,
                current_offset: start_offset,
            }),
    {
        self.topic = String::from_str(topic);
        self.partition = partition;
        self.current_offset = start_offset;
    }

    /// Begins to fetch up to `max` records starting from `current_offset`.
    pub fn poll_n(&self, max: usize) -> (poll: Poll)
        ensures
            poll@ == PollView::started(max),
    {
        let poll = Poll { max, records: Vec::new(), ended: false };
        assert(poll@.records =~= Seq::empty());
        poll
    }

    /// Begins to fetch up to 10 records (default batch size).
    pub fn poll(&self) -> (poll: Poll)
        ensures
            poll@ == PollView::started(10),
    {
        self.poll_n(10)
    }

    /// The next request of a poll; none if the poll is through.
    pub fn poll_request(&self, poll: &Poll) -> (r: Option<Frame>)
        ensures
            match r {
                Some(frame) => poll@.wants_more() && frame@ == self@.fetch_frame(),
                None => !poll@.wants_more(),
            },
    {
        if poll.ended || poll.records.len() >= poll.max {
            return None;
        }
        Some(
            Frame::Fetch {
                topic: String::from_str(self.topic.as_str()),
                partition: self.partition,
                offset: self.current_offset,
            },
        )
    }

    /// Takes the response to a request of a poll. A record is kept and
    /// `current_offset` advances past it; any broker error ends the poll.
    pub fn poll_reply(&mut self, poll: &mut Poll, raw: Vec<u8>) -> (r: Result<(), ClientError>)
        requires
            protocol::whole(raw@),
            can_advance(protocol::decoded(raw@)),
        ensures
            match r {
                Ok(_) => fetched(old(self)@, old(poll)@, protocol::decoded(raw@)) == Ok::<
                    (ConsumerView, PollView),
                    ClientErrorView,
                >((final(self)@, final(poll)@)),
                Err(e) => {
                    &&& fetched(old(self)@, old(poll)@, protocol::decoded(raw@)) == Err::<
                        (ConsumerView, PollView),
                        ClientErrorView,
                    >(e@)
                    &&& final(self)@ == old(self)@
                    &&& final(poll)@ == old(poll)@
                },
            },
    {
        match Frame::decode(raw) {
            Ok(Frame::FetchData { offset, payload }) => {
                self.current_offset = offset + 1;
                let ghost before = poll.records@;
                poll.records.push(Record { offset, payload });
                assert(records_view(poll.records@) =~= records_view(before).push(
                    (offset, payload@),
                ));
                Ok(())
            },
            // Any broker error means end-of-log or real error: stop polling.
            Ok(Frame::Error { code: _, message: _ }) => {
                poll.ended = true;
                Ok(())
            },
            Ok(other) => {
                let mut text = String::from_str("unexpected response to Fetch: ");
                text.append(other.shown().as_str());
                Err(ClientError::InvalidData(text))
            },
            Err(e) => Err(ClientError::Other(e.to_string())),
        }
    }

    /// The request that sends `current_offset` to the broker's consumer-group
    /// coordinator.
    pub fn commit_offset(&self) -> (frame: Frame)
        ensures
            frame@ == (FrameView::CommitOffset {
                group: self@.group,
                topic: self@.topic,
                partition: self@.partition,
                offset: self@.current_offset,
            }),
    {
        Frame::CommitOffset {
            group: String::from_str(self.group.as_str()),
            topic: String::from_str(self.topic.as_str()),
            partition: self.partition,
            offset: self.current_offset,
        }
    }

    /// What the response to `commit_offset` means.
    pub fn commit_reply(&self, raw: Vec<u8>) -> (r: Result<(), ClientError>)
        requires
            protocol::whole(raw@),
        ensures
            match r {
                Ok(_) => committed(protocol::decoded(raw@)) is Ok,
                Err(e) => committed(protocol::decoded(raw@)) == Err::<(), ClientErrorView>(e@),
            },
    {
        match Frame::decode(raw) {
            Ok(Frame::Ack) => Ok(()),
            Ok(Frame::Error { code: _, message }) => Err(ClientError::Other(message)),
            _ => Err(invalid_data("unexpected response to CommitOffset")),
        }
    }

    /// The offset that will be requested next.
    pub fn current_offset(&self) -> (offset: u64)
        ensures
            offset == self@.current_offset,
    {
        self.current_offset
    }
}

impl Poll {
    /// The records that came, in order.
    pub fn into_records(self) -> (records: Vec<Record>)
        ensures
            records_view(records@) == self@.records,
    {
        self.records
    }
}

} // verus!
