//! The course of a connection: what is done with what is heard on it.

use vstd::prelude::*;

use super::protocol;
use super::protocol::{Frame, FrameView, ProtocolErrorView};

verus! {

/// What a connection is answered with before it is closed.
pub open spec fn decode_refusal(e: ProtocolErrorView) -> FrameView {
    FrameView::Error { code: 0xFF, message: e.message() }
}

/// What was heard on a connection.
pub enum Heard {
    /// The bytes of a frame.
    Frame(Vec<u8>),
    /// A fault.
    Fault(Fault),
}

/// What can happen to a connection.
#[derive(Debug, Clone, Copy, PartialEq, Eq, Structural)]
pub enum Fault {
    /// The stream has ended.
    EndOfStream,
    /// The other side has reset the connection.
    Reset,
    /// Anything else.
    Other,
}

/// What is to be done on a connection.
pub enum Move {
    /// Handle the request, send its response, and listen again.
    Answer(Frame),
    /// Send the response and close the connection.
    SendAndClose(Frame),
    /// Close the connection; nothing is wrong.
    Close,
    /// Close the connection with this fault.
    Fail(Fault),
}

/// What was heard, with its bytes as a sequence.
pub enum HeardView {
    Frame(Seq<u8>),
    Fault(Fault),
}

impl View for Heard {
    type V = HeardView;

    open spec fn view(&self) -> HeardView {
        match self {
            Heard::Frame(raw) => HeardView::Frame(raw@),
            Heard::Fault(fault) => HeardView::Fault(*fault),
        }
    }
}

/// A `Move` with its frame by its view.
pub enum MoveView {
    Answer(FrameView),
    SendAndClose(FrameView),
    Close,
    Fail(Fault),
}

impl View for Move {
    type V = MoveView;

    open spec fn view(&self) -> MoveView {
        match self {
            Move::Answer(frame) => MoveView::Answer(frame@),
            Move::SendAndClose(frame) => MoveView::SendAndClose(frame@),
            Move::Close => MoveView::Close,
            Move::Fail(fault) => MoveView::Fail(*fault),
        }
    }
}

impl HeardView {
    /// What is to be done when this was heard: a request is answered, a frame that
    /// cannot be decoded is refused and the connection closed, the end of the stream
    /// closes it, and any other fault ends it.
    pub open spec fn moved(self) -> MoveView {
        match self {
            HeardView::Frame(raw) => match protocol::decoded(raw) {
                Ok(frame) => MoveView::Answer(frame),
                Err(e) => MoveView::SendAndClose(decode_refusal(e)),
            },
            HeardView::Fault(fault) => if fault == Fault::EndOfStream {
                MoveView::Close
            } else {
                MoveView::Fail(fault)
            },
        }
    }
}

/// What is to be done on a connection when this was heard.
pub fn connection_step(heard: Heard) -> (m: Move)
    requires
        heard@ matches HeardView::Frame(raw) ==> protocol::whole(raw),
    ensures
        m@ == heard@.moved(),
{
    match heard {
        Heard::Frame(raw) => match Frame::decode(raw) {
            Ok(frame) => Move::Answer(frame),
            Err(e) => Move::SendAndClose(Frame::Error { code: 0xFF, message: e.to_string() }),
        },
        Heard::Fault(fault) => if fault == Fault::EndOfStream {
            Move::Close
        } else {
            Move::Fail(fault)
        },
    }
}

/// Whether a fault that ended a connection is worth a report: the other side may
/// leave at any time.
pub fn is_reported(fault: Fault) -> (b: bool)
    ensures
        b == (fault == Fault::Other),
{
    fault == Fault::Other
}

/// The course of a connection on which this is heard, to its end.
pub open spec fn course(heard: Seq<HeardView>) -> Seq<MoveView>
    decreases heard.len(),
{
    if heard.len() == 0 {
        Seq::empty()
    } else {
        let first = heard[0].moved();
        if first is Answer {
            seq![first] + course(heard.drop_first())
        } else {
            seq![first]
        }
    }
}

/// Each request on a connection gets one answer, in order: as long as the connection
/// lasts, the `i`th move is for what was heard `i`th. It lasts until a frame cannot be
/// decoded or there is a fault, and no longer.
pub proof fn law_requests_are_answered_in_order(heard: Seq<HeardView>, i: int)
    requires
        0 <= i < heard.len(),
        forall|j: int| 0 <= j < i ==> (#[trigger] heard[j]).moved() is Answer,
    ensures
        i < course(heard).len(),
        course(heard)[i] == heard[i].moved(),
        !(heard[i].moved() is Answer) ==> course(heard).len() == i + 1,
        (forall|j: int| 0 <= j < heard.len() ==> (#[trigger] heard[j]).moved() is Answer)
            ==> course(heard).len() == heard.len(),
    decreases heard.len(),
{
    let rest = heard.drop_first();
    if i > 0 {
        assert(heard[0].moved() is Answer);
        assert forall|j: int| 0 <= j < i - 1 implies (#[trigger] rest[j]).moved() is Answer by {
            assert(rest[j] == heard[j + 1]);
        }
        law_requests_are_answered_in_order(rest, i - 1);
        assert(rest[i - 1] == heard[i]);
    }
    if forall|j: int| 0 <= j < heard.len() ==> (#[trigger] heard[j]).moved() is Answer {
        lemma_all_answered(heard);
    }
}

proof fn lemma_all_answered(heard: Seq<HeardView>)
    requires
        forall|j: int| 0 <= j < heard.len() ==> (#[trigger] heard[j]).moved() is Answer,
    ensures
        course(heard).len() == heard.len(),
    decreases heard.len(),
{
    if heard.len() > 0 {
        let rest = heard.drop_first();
        assert forall|j: int| 0 <= j < rest.len() implies (#[trigger] rest[j]).moved() is Answer by {
            assert(rest[j] == heard[j + 1]);
        }
        lemma_all_answered(rest);
    }
}

} // verus!
