//! The layout of frames on the wire, byte by byte.

use vstd::prelude::*;

use vstd::utf8;

use super::protocol;
use super::protocol::{FrameView, ProtocolErrorView};
use crate::text;
use crate::wire;

verus! {

/// The layout of each frame: the length of what follows in four bytes, the opcode, and
/// the fields, each integer in its own width and each text and payload behind its length.
pub proof fn law_frame_layout(frame: FrameView)
    ensures
        ({
            let body = frame.encoded().skip(4);
            &&& frame.encoded().take(4) == wire::le_bytes(body.len(), 4)
            &&& match frame {
                FrameView::Produce { topic, partition, payload } => body == seq![0x01u8]
                    + wire::le_bytes(utf8::encode_utf8(topic).len(), 2) + utf8::encode_utf8(topic)
                    + wire::le_bytes(partition as nat, 4) + wire::le_bytes(payload.len(), 4)
                    + payload,
                FrameView::Fetch { topic, partition, offset } => body == seq![0x02u8]
                    + wire::le_bytes(utf8::encode_utf8(topic).len(), 2) + utf8::encode_utf8(topic)
                    + wire::le_bytes(partition as nat, 4) + wire::le_bytes(offset as nat, 8),
                FrameView::CreateTopic { name, num_partitions } => body == seq![0x03u8]
                    + wire::le_bytes(utf8::encode_utf8(name).len(), 2) + utf8::encode_utf8(name)
                    + wire::le_bytes(num_partitions as nat, 4),
                FrameView::CommitOffset { group, topic, partition, offset } => body == seq![0x04u8]
                    + wire::le_bytes(utf8::encode_utf8(group).len(), 2) + utf8::encode_utf8(group)
                    + wire::le_bytes(utf8::encode_utf8(topic).len(), 2) + utf8::encode_utf8(topic)
                    + wire::le_bytes(partition as nat, 4) + wire::le_bytes(offset as nat, 8),
                FrameView::Ack => body == seq![0x80u8, 0x00u8],
                FrameView::ProduceAck { offset } => body == seq![0x80u8, 0x01u8] + wire::le_bytes(
                    offset as nat,
                    8,
                ),
                FrameView::FetchData { offset, payload } => body == seq![0x80u8, 0x02u8]
                    + wire::le_bytes(offset as nat, 8) + wire::le_bytes(payload.len(), 4) + payload,
                FrameView::Error { code, message } => body == seq![0x81u8, code] + wire::le_bytes(
                    utf8::encode_utf8(message).len(),
                    2,
                ) + utf8::encode_utf8(message),
            }
        }),
{
    wire::lemma_le_bytes_len(frame.body().len(), 4);
    assert(frame.encoded().skip(4) =~= frame.body());
    assert(frame.encoded().take(4) =~= wire::le_bytes(frame.body().len(), 4));
    match frame {
        FrameView::Produce { topic, partition, payload } => {
            lemma_produce_layout(topic, partition, payload);
        },
        FrameView::Fetch { topic, partition, offset } => {
            let t = utf8::encode_utf8(topic);
            let l = wire::le_bytes(t.len(), 2);
            let p = wire::le_bytes(partition as nat, 4);
            let o = wire::le_bytes(offset as nat, 8);
            assert(seq![0x02u8] + (l + t) + p + o =~= seq![0x02u8] + l + t + p + o);
        },
        FrameView::CreateTopic { name, num_partitions } => {
            let t = utf8::encode_utf8(name);
            let l = wire::le_bytes(t.len(), 2);
            let p = wire::le_bytes(num_partitions as nat, 4);
            assert(seq![0x03u8] + (l + t) + p =~= seq![0x03u8] + l + t + p);
        },
        FrameView::CommitOffset { group, topic, partition, offset } => {
            lemma_commit_layout(group, topic, partition, offset);
        },
        FrameView::FetchData { offset, payload } => {
            let o = wire::le_bytes(offset as nat, 8);
            let l = wire::le_bytes(payload.len(), 4);
            assert(seq![0x80u8, 0x02u8] + o + (l + payload) =~= seq![0x80u8, 0x02u8] + o + l
                + payload);
        },
        FrameView::Error { code, message } => {
            let t = utf8::encode_utf8(message);
            let l = wire::le_bytes(t.len(), 2);
            assert(seq![0x81u8, code] + (l + t) =~= seq![0x81u8, code] + l + t);
        },
        _ => {},
    }
}

proof fn lemma_produce_layout(topic: Seq<char>, partition: u32, payload: Seq<u8>)
    ensures
        (FrameView::Produce { topic, partition, payload }).body() == seq![0x01u8] + wire::le_bytes(
            utf8::encode_utf8(topic).len(),
            2,
        ) + utf8::encode_utf8(topic) + wire::le_bytes(partition as nat, 4) + wire::le_bytes(
            payload.len(),
            4,
        ) + payload,
{
    let t = utf8::encode_utf8(topic);
    let l = wire::le_bytes(t.len(), 2);
    let p = wire::le_bytes(partition as nat, 4);
    let n = wire::le_bytes(payload.len(), 4);
    assert(seq![0x01u8] + (l + t) + p + (n + payload) =~= seq![0x01u8] + l + t + p + n + payload);
}

proof fn lemma_commit_layout(group: Seq<char>, topic: Seq<char>, partition: u32, offset: u64)
    ensures
        (FrameView::CommitOffset { group, topic, partition, offset }).body() == seq![0x04u8]
            + wire::le_bytes(utf8::encode_utf8(group).len(), 2) + utf8::encode_utf8(group)
            + wire::le_bytes(utf8::encode_utf8(topic).len(), 2) + utf8::encode_utf8(topic)
            + wire::le_bytes(partition as nat, 4) + wire::le_bytes(offset as nat, 8),
{
    let g = utf8::encode_utf8(group);
    let k = wire::le_bytes(g.len(), 2);
    let t = utf8::encode_utf8(topic);
    let l = wire::le_bytes(t.len(), 2);
    let p = wire::le_bytes(partition as nat, 4);
    let o = wire::le_bytes(offset as nat, 8);
    assert(seq![0x04u8] + (k + g) + (l + t) + p + o =~= seq![0x04u8] + k + g + l + t + p + o);
}

/// Which buffers are refused, and how; every other is read as a frame.
pub proof fn law_refused_buffers(buf: Seq<u8>)
    ensures
        ({
            let r = protocol::decoded(buf);
            if buf.len() < 5 {
                r == Err::<FrameView, ProtocolErrorView>(ProtocolErrorView::TooShort)
            } else if wire::le_value(buf.subrange(0, 4)) > 67_108_864 {
                r == Err::<FrameView, ProtocolErrorView>(
                    ProtocolErrorView::FrameTooLarge(wire::le_value(buf.subrange(0, 4)) as u32),
                )
            } else if !(1 <= buf[4] <= 4 || buf[4] == 0x80 || buf[4] == 0x81) {
                r == Err::<FrameView, ProtocolErrorView>(ProtocolErrorView::UnknownOpcode(buf[4]))
            } else if buf[4] == 0x80 && buf[5] > 2 {
                r == Err::<FrameView, ProtocolErrorView>(
                    ProtocolErrorView::UnknownResponseKind(buf[5]),
                )
            } else {
                &&& r is Ok
                &&& buf[4] == 1 <==> r->Ok_0 is Produce
                &&& buf[4] == 2 <==> r->Ok_0 is Fetch
                &&& buf[4] == 3 <==> r->Ok_0 is CreateTopic
                &&& buf[4] == 4 <==> r->Ok_0 is CommitOffset
                &&& buf[4] == 0x80 && buf[5] == 0 <==> r->Ok_0 is Ack
                &&& buf[4] == 0x80 && buf[5] == 1 <==> r->Ok_0 is ProduceAck
                &&& buf[4] == 0x80 && buf[5] == 2 <==> r->Ok_0 is FetchData
                &&& buf[4] == 0x81 <==> r->Ok_0 is Error
            }
        }),
        buf.len() < 5 ==> protocol::whole(buf),
        buf.len() >= 5 && wire::le_value(buf.subrange(0, 4)) > 67_108_864 ==> protocol::whole(buf),
        buf.len() >= 5 && !(1 <= buf[4] <= 4 || buf[4] == 0x80 || buf[4] == 0x81)
            ==> protocol::whole(buf),
{
}

/// Bytes that are well-formed text are read as that text, and others as the replacement
/// that the standard library gives.
pub proof fn law_text_is_read(bytes: Seq<u8>, s: Seq<char>)
    ensures
        bytes == utf8::encode_utf8(s) ==> protocol::text_of(bytes) == s,
        !utf8::valid_utf8(bytes) ==> protocol::text_of(bytes) == protocol::utf8_lossy(bytes),
{
    if bytes == utf8::encode_utf8(s) {
        utf8::encode_utf8_valid_utf8(s);
        utf8::encode_utf8_decode_utf8(s);
    }
}

/// The words for each protocol error.
pub proof fn law_protocol_errors_in_words(e: ProtocolErrorView)
    ensures
        match e {
            ProtocolErrorView::Io(cause) => e.message() == "io: "@ + cause,
            ProtocolErrorView::UnknownOpcode(op) => e.message() == "unknown opcode: "@ + "0x"@
                + text::padded(op as nat, 16, 2),
            ProtocolErrorView::UnknownResponseKind(kind) => e.message()
                == "unknown response kind: "@ + "0x"@ + text::padded(kind as nat, 16, 2),
            ProtocolErrorView::FrameTooLarge(len) => e.message() == "frame too large: "@
                + text::decimal(len as nat) + " bytes"@,
            ProtocolErrorView::TooShort => e.message() == "frame too short"@,
        },
{
    match e {
        ProtocolErrorView::UnknownOpcode(op) => {
            let d = text::padded(op as nat, 16, 2);
            assert("unknown opcode: "@ + ("0x"@ + d) =~= "unknown opcode: "@ + "0x"@ + d);
        },
        ProtocolErrorView::UnknownResponseKind(kind) => {
            let d = text::padded(kind as nat, 16, 2);
            assert("unknown response kind: "@ + ("0x"@ + d) =~= "unknown response kind: "@ + "0x"@
                + d);
        },
        _ => {},
    }
}

} // verus!
