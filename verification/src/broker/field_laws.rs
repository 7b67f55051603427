//! Where the fields of a frame stand in a buffer.

use vstd::prelude::*;

use super::protocol;
use super::protocol::{FrameView, ProtocolErrorView};
use crate::wire;

verus! {

/// The number in `width` bytes from `pos` on.
pub open spec fn number(buf: Seq<u8>, pos: int, width: int) -> int {
    wire::le_value(buf.subrange(pos, pos + width)) as int
}

/// Whether a buffer is long enough and not too large to be looked at for its opcode.
pub open spec fn has_opcode(buf: Seq<u8>, op: u8) -> bool {
    buf.len() >= 5 && number(buf, 0, 4) <= 67_108_864 && buf[4] == op
}

/// A produce is whole if its topic, its partition and its payload are there, each behind the
/// other, and is read from these.
pub proof fn law_fields_of_a_produce(buf: Seq<u8>)
    requires
        has_opcode(buf, 0x01),
    ensures
        protocol::whole(buf) <==> {
            let end = 7 + number(buf, 5, 2);
            7 <= buf.len() && end + 8 <= buf.len() && end + 8 + number(buf, end + 4, 4) <= buf.len()
        },
        ({
            let end = 7 + number(buf, 5, 2);
            protocol::whole(buf) ==> protocol::decoded(buf) == Ok::<FrameView, ProtocolErrorView>(
                FrameView::Produce {
                    topic: protocol::text_of(buf.subrange(7, end)),
                    partition: number(buf, end, 4) as u32,
                    payload: buf.subrange(end + 8, end + 8 + number(buf, end + 4, 4)),
                },
            )
        }),
{
}

/// A fetch is whole if its topic, its partition and its offset are there, and is read from
/// these.
pub proof fn law_fields_of_a_fetch(buf: Seq<u8>)
    requires
        has_opcode(buf, 0x02),
    ensures
        protocol::whole(buf) <==> 7 <= buf.len() && 7 + number(buf, 5, 2) + 12 <= buf.len(),
        ({
            let end = 7 + number(buf, 5, 2);
            protocol::whole(buf) ==> protocol::decoded(buf) == Ok::<FrameView, ProtocolErrorView>(
                FrameView::Fetch {
                    topic: protocol::text_of(buf.subrange(7, end)),
                    partition: number(buf, end, 4) as u32,
                    offset: number(buf, end + 4, 8) as u64,
                },
            )
        }),
{
}

/// A request for a topic is whole if its name and its number of partitions are there, and is
/// read from these.
pub proof fn law_fields_of_a_creation(buf: Seq<u8>)
    requires
        has_opcode(buf, 0x03),
    ensures
        protocol::whole(buf) <==> 7 <= buf.len() && 7 + number(buf, 5, 2) + 4 <= buf.len(),
        ({
            let end = 7 + number(buf, 5, 2);
            protocol::whole(buf) ==> protocol::decoded(buf) == Ok::<FrameView, ProtocolErrorView>(
                FrameView::CreateTopic {
                    name: protocol::text_of(buf.subrange(7, end)),
                    num_partitions: number(buf, end, 4) as u32,
                },
            )
        }),
{
}

/// A commit is whole if its group, its topic, its partition and its offset are there, and is
/// read from these.
pub proof fn law_fields_of_a_commit(buf: Seq<u8>)
    requires
        has_opcode(buf, 0x04),
    ensures
        protocol::whole(buf) <==> {
            let mid = 7 + number(buf, 5, 2);
            let end = mid + 2 + number(buf, mid, 2);
            7 <= buf.len() && mid + 2 <= buf.len() && end + 12 <= buf.len()
        },
        ({
            let mid = 7 + number(buf, 5, 2);
            let end = mid + 2 + number(buf, mid, 2);
            protocol::whole(buf) ==> protocol::decoded(buf) == Ok::<FrameView, ProtocolErrorView>(
                FrameView::CommitOffset {
                    group: protocol::text_of(buf.subrange(7, mid)),
                    topic: protocol::text_of(buf.subrange(mid + 2, end)),
                    partition: number(buf, end, 4) as u32,
                    offset: number(buf, end + 4, 8) as u64,
                },
            )
        }),
{
}

/// A response is whole if its kind and what that calls for are there, and is read from these.
pub proof fn law_fields_of_a_response(buf: Seq<u8>)
    requires
        has_opcode(buf, 0x80),
    ensures
        protocol::whole(buf) ==> 6 <= buf.len(),
        6 <= buf.len() && buf[5] == 0 ==> protocol::whole(buf) && protocol::decoded(buf) == Ok::<
            FrameView,
            ProtocolErrorView,
        >(FrameView::Ack),
        6 <= buf.len() && buf[5] == 1 ==> (protocol::whole(buf) <==> 14 <= buf.len())
            && (protocol::whole(buf) ==> protocol::decoded(buf) == Ok::<FrameView, ProtocolErrorView>(
            FrameView::ProduceAck { offset: number(buf, 6, 8) as u64 },
        )),
        6 <= buf.len() && buf[5] == 2 ==> (protocol::whole(buf) <==> 18 <= buf.len() && 18
            + number(buf, 14, 4) <= buf.len()) && (protocol::whole(buf) ==> protocol::decoded(buf) == Ok::<
            FrameView,
            ProtocolErrorView,
        >(
            FrameView::FetchData {
                offset: number(buf, 6, 8) as u64,
                payload: buf.subrange(18, 18 + number(buf, 14, 4)),
            },
        )),
        6 <= buf.len() && buf[5] > 2 ==> protocol::whole(buf),
{
}

/// An error is whole if its code and its message are there, and is read from these.
pub proof fn law_fields_of_an_error(buf: Seq<u8>)
    requires
        has_opcode(buf, 0x81),
    ensures
        protocol::whole(buf) <==> 8 <= buf.len() && 8 + number(buf, 6, 2) <= buf.len(),
        protocol::whole(buf) ==> protocol::decoded(buf) == Ok::<FrameView, ProtocolErrorView>(
            FrameView::Error {
                code: buf[5],
                message: protocol::text_of(buf.subrange(8, 8 + number(buf, 6, 2))),
            },
        ),
{
}

} // verus!
