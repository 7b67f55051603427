//! What the wire protocol promises: frames come back as they were sent.

use vstd::prelude::*;

use vstd::utf8;

use super::protocol;
use super::protocol::{opcode, resp_kind, FrameView, ProtocolErrorView, MAX_FRAME_BYTES};
use crate::wire;

verus! {

/// Whether the length of a text fits the two bytes that it has on the wire.
pub open spec fn text_fits(s: Seq<char>) -> bool {
    utf8::encode_utf8(s).len() < 0x1_0000
}

/// Whether the lengths of the frame's texts and payload fit the bytes that they
/// have on the wire.
pub open spec fn lengths_fit(frame: FrameView) -> bool {
    match frame {
        FrameView::Produce { topic, partition, payload } => text_fits(topic) && payload.len()
            < 0x1_0000_0000,
        FrameView::Fetch { topic, partition, offset } => text_fits(topic),
        FrameView::CreateTopic { name, num_partitions } => text_fits(name),
        FrameView::CommitOffset { group, topic, partition, offset } => text_fits(group)
            && text_fits(topic),
        FrameView::Ack => true,
        FrameView::ProduceAck { offset } => true,
        FrameView::FetchData { offset, payload } => payload.len() < 0x1_0000_0000,
        FrameView::Error { code, message } => text_fits(message),
    }
}

/// Whether `part` stands in `buf` from `pos` on.
spec fn stands(buf: Seq<u8>, pos: int, part: Seq<u8>) -> bool {
    0 <= pos && pos + part.len() <= buf.len() && buf.subrange(pos, pos + part.len()) == part
}

proof fn lemma_stands_in_parts(buf: Seq<u8>, pos: int, a: Seq<u8>, b: Seq<u8>)
    requires
        stands(buf, pos, a + b),
    ensures
        stands(buf, pos, a),
        stands(buf, pos + a.len(), b),
{
    let ab = buf.subrange(pos, pos + (a + b).len());
    assert(a =~= ab.subrange(0, a.len() as int));
    assert(buf.subrange(pos, pos + a.len()) =~= ab.subrange(0, a.len() as int));
    assert(b =~= ab.subrange(a.len() as int, ab.len() as int));
    assert(buf.subrange(pos + a.len(), pos + a.len() + b.len()) =~= ab.subrange(
        a.len() as int,
        ab.len() as int,
    ));
}

proof fn lemma_uint_stands(buf: Seq<u8>, pos: int, x: nat, width: nat)
    requires
        stands(buf, pos, wire::le_bytes(x, width)),
        x < wire::le_range(width),
    ensures
        protocol::uint_at(buf, pos, width) == x,
        pos + width <= buf.len(),
{
    wire::lemma_le_bytes_len(x, width);
    wire::lemma_le_value_of_bytes(x, width);
}

proof fn lemma_text_stands(buf: Seq<u8>, pos: int, s: Seq<char>)
    requires
        stands(buf, pos, protocol::text_bytes(s)),
        text_fits(s),
    ensures
        protocol::has_text(buf, pos),
        protocol::text_at(buf, pos) == s,
        protocol::after_text(buf, pos) == pos + protocol::text_bytes(s).len(),
{
    let bytes = utf8::encode_utf8(s);
    wire::lemma_le_ranges();
    wire::lemma_le_bytes_len(bytes.len(), 2);
    lemma_stands_in_parts(buf, pos, wire::le_bytes(bytes.len(), 2), bytes);
    lemma_uint_stands(buf, pos, bytes.len(), 2);
    utf8::encode_utf8_valid_utf8(s);
    utf8::encode_utf8_decode_utf8(s);
}

proof fn lemma_payload_stands(buf: Seq<u8>, pos: int, payload: Seq<u8>)
    requires
        stands(buf, pos, protocol::payload_bytes(payload)),
        payload.len() < 0x1_0000_0000,
    ensures
        protocol::has_payload(buf, pos),
        protocol::payload_at(buf, pos) == payload,
        protocol::uint_at(buf, pos, 4) == payload.len(),
        protocol::payload_bytes(payload).len() == 4 + payload.len(),
{
    wire::lemma_le_ranges();
    wire::lemma_le_bytes_len(payload.len(), 4);
    lemma_stands_in_parts(buf, pos, wire::le_bytes(payload.len(), 4), payload);
    lemma_uint_stands(buf, pos, payload.len(), 4);
}

/// Where the last field that the opcode calls for ends.
spec fn frame_end(buf: Seq<u8>) -> int {
    if buf[4] == opcode::PRODUCE {
        let end = protocol::after_text(buf, 5);
        end + 8 + protocol::uint_at(buf, end + 4, 4)
    } else if buf[4] == opcode::FETCH {
        protocol::after_text(buf, 5) + 12
    } else if buf[4] == opcode::CREATE_TOPIC {
        protocol::after_text(buf, 5) + 4
    } else if buf[4] == opcode::COMMIT_OFFSET {
        protocol::after_text(buf, protocol::after_text(buf, 5)) + 12
    } else if buf[4] == opcode::RESPONSE {
        if buf[5] == resp_kind::OFFSET {
            14
        } else if buf[5] == resp_kind::PAYLOAD {
            18int + protocol::uint_at(buf, 14, 4)
        } else {
            6
        }
    } else if buf[4] == opcode::ERROR {
        protocol::after_text(buf, 6)
    } else {
        5
    }
}

proof fn lemma_uint_of_prefix(buf: Seq<u8>, k: int, pos: int, width: nat)
    requires
        0 <= pos,
        pos + width <= k <= buf.len(),
    ensures
        protocol::uint_at(buf.take(k), pos, width) == protocol::uint_at(buf, pos, width),
{
    assert(buf.take(k).subrange(pos, pos + width) =~= buf.subrange(pos, pos + width));
}

/// A text that stands in a prefix to its end does so in the whole.
proof fn lemma_text_of_prefix(buf: Seq<u8>, k: int, pos: int)
    requires
        0 <= pos,
        0 <= k <= buf.len(),
        protocol::has_text(buf.take(k), pos),
    ensures
        protocol::after_text(buf.take(k), pos) == protocol::after_text(buf, pos),
        pos + 2 <= protocol::after_text(buf, pos) <= k,
{
    lemma_uint_of_prefix(buf, k, pos, 2);
}

/// A prefix that has all its fields reaches to the end of the frame.
proof fn lemma_whole_prefix_reaches_the_end(buf: Seq<u8>, k: int)
    requires
        5 <= k <= buf.len(),
        protocol::uint_at(buf, 0, 4) <= MAX_FRAME_BYTES,
        protocol::whole(buf.take(k)),
    ensures
        frame_end(buf) <= k,
{
    let cut = buf.take(k);
    lemma_uint_of_prefix(buf, k, 0, 4);
    assert(cut[4] == buf[4]);
    if buf[4] == opcode::PRODUCE {
        lemma_text_of_prefix(buf, k, 5);
        lemma_uint_of_prefix(buf, k, protocol::after_text(buf, 5) + 4, 4);
    } else if buf[4] == opcode::FETCH || buf[4] == opcode::CREATE_TOPIC {
        lemma_text_of_prefix(buf, k, 5);
    } else if buf[4] == opcode::COMMIT_OFFSET {
        lemma_text_of_prefix(buf, k, 5);
        lemma_text_of_prefix(buf, k, protocol::after_text(buf, 5));
    } else if buf[4] == opcode::RESPONSE {
        assert(cut[5] == buf[5]);
        if buf[5] == resp_kind::PAYLOAD {
            lemma_uint_of_prefix(buf, k, 14, 4);
        }
    } else if buf[4] == opcode::ERROR {
        lemma_text_of_prefix(buf, k, 6);
    }
}

/// The body of an encoded frame stands behind its length.
proof fn lemma_body_stands(frame: FrameView, rest: Seq<u8>)
    requires
        frame.body().len() < 0x1_0000_0000,
    ensures
        stands(frame.encoded() + rest, 4, frame.body()),
        protocol::uint_at(frame.encoded() + rest, 0, 4) == frame.body().len(),
{
    let buf = frame.encoded() + rest;
    let len = wire::le_bytes(frame.body().len(), 4);
    wire::lemma_le_ranges();
    wire::lemma_le_bytes_len(frame.body().len(), 4);
    assert(buf.subrange(0, frame.encoded().len() as int) =~= frame.encoded());
    lemma_stands_in_parts(buf, 0, len, frame.body());
    lemma_uint_stands(buf, 0, frame.body().len(), 4);
}

proof fn lemma_produce_stands(buf: Seq<u8>, topic: Seq<char>, partition: u32, payload: Seq<u8>)
    requires
        stands(buf, 4, (FrameView::Produce { topic, partition, payload }).body()),
        lengths_fit((FrameView::Produce { topic, partition, payload })),
        protocol::uint_at(buf, 0, 4) <= MAX_FRAME_BYTES,
    ensures
        protocol::whole(buf),
        protocol::decoded(buf) == Ok::<FrameView, ProtocolErrorView>((FrameView::Produce { topic, partition, payload })),
        frame_end(buf) == 4 + (FrameView::Produce { topic, partition, payload }).body().len(),
{
    wire::lemma_le_ranges();
    let a = protocol::text_bytes(topic);
    let b = wire::le_bytes(partition as nat, 4);
    let c = protocol::payload_bytes(payload);
    let op = seq![opcode::PRODUCE];
    wire::lemma_le_bytes_len(partition as nat, 4);
    lemma_stands_in_parts(buf, 4, op + a + b, c);
    lemma_stands_in_parts(buf, 4, op + a, b);
    lemma_stands_in_parts(buf, 4, op, a);
    assert(buf[4] == buf.subrange(4, 5)[0]);
    lemma_text_stands(buf, 5, topic);
    lemma_uint_stands(buf, 5int + a.len(), partition as nat, 4);
    lemma_payload_stands(buf, 5int + a.len() + 4, payload);
}

proof fn lemma_fetch_stands(buf: Seq<u8>, topic: Seq<char>, partition: u32, offset: u64)
    requires
        stands(buf, 4, (FrameView::Fetch { topic, partition, offset }).body()),
        lengths_fit((FrameView::Fetch { topic, partition, offset })),
        protocol::uint_at(buf, 0, 4) <= MAX_FRAME_BYTES,
    ensures
        protocol::whole(buf),
        protocol::decoded(buf) == Ok::<FrameView, ProtocolErrorView>((FrameView::Fetch { topic, partition, offset })),
        frame_end(buf) == 4 + (FrameView::Fetch { topic, partition, offset }).body().len(),
{
    wire::lemma_le_ranges();
    let a = protocol::text_bytes(topic);
    let b = wire::le_bytes(partition as nat, 4);
    let c = wire::le_bytes(offset as nat, 8);
    let op = seq![opcode::FETCH];
    wire::lemma_le_bytes_len(partition as nat, 4);
    wire::lemma_le_bytes_len(offset as nat, 8);
    lemma_stands_in_parts(buf, 4, op + a + b, c);
    lemma_stands_in_parts(buf, 4, op + a, b);
    lemma_stands_in_parts(buf, 4, op, a);
    assert(buf[4] == buf.subrange(4, 5)[0]);
    lemma_text_stands(buf, 5, topic);
    lemma_uint_stands(buf, 5int + a.len(), partition as nat, 4);
    lemma_uint_stands(buf, 5int + a.len() + 4, offset as nat, 8);
}

proof fn lemma_create_topic_stands(buf: Seq<u8>, name: Seq<char>, num_partitions: u32)
    requires
        stands(buf, 4, (FrameView::CreateTopic { name, num_partitions }).body()),
        lengths_fit((FrameView::CreateTopic { name, num_partitions })),
        protocol::uint_at(buf, 0, 4) <= MAX_FRAME_BYTES,
    ensures
        protocol::whole(buf),
        protocol::decoded(buf) == Ok::<FrameView, ProtocolErrorView>((FrameView::CreateTopic { name, num_partitions })),
        frame_end(buf) == 4 + (FrameView::CreateTopic { name, num_partitions }).body().len(),
{
    wire::lemma_le_ranges();
    let a = protocol::text_bytes(name);
    let b = wire::le_bytes(num_partitions as nat, 4);
    let op = seq![opcode::CREATE_TOPIC];
    wire::lemma_le_bytes_len(num_partitions as nat, 4);
    lemma_stands_in_parts(buf, 4, op + a, b);
    lemma_stands_in_parts(buf, 4, op, a);
    assert(buf[4] == buf.subrange(4, 5)[0]);
    lemma_text_stands(buf, 5, name);
    lemma_uint_stands(buf, 5int + a.len(), num_partitions as nat, 4);
}

proof fn lemma_commit_offset_stands(buf: Seq<u8>, group: Seq<char>, topic: Seq<char>, partition: u32, offset: u64)
    requires
        stands(buf, 4, (FrameView::CommitOffset { group, topic, partition, offset }).body()),
        lengths_fit((FrameView::CommitOffset { group, topic, partition, offset })),
        protocol::uint_at(buf, 0, 4) <= MAX_FRAME_BYTES,
    ensures
        protocol::whole(buf),
        protocol::decoded(buf) == Ok::<FrameView, ProtocolErrorView>((FrameView::CommitOffset { group, topic, partition, offset })),
        frame_end(buf) == 4 + (FrameView::CommitOffset { group, topic, partition, offset }).body().len(),
{
    wire::lemma_le_ranges();
    let g = protocol::text_bytes(group);
    let a = protocol::text_bytes(topic);
    let b = wire::le_bytes(partition as nat, 4);
    let c = wire::le_bytes(offset as nat, 8);
    let op = seq![opcode::COMMIT_OFFSET];
    wire::lemma_le_bytes_len(partition as nat, 4);
    wire::lemma_le_bytes_len(offset as nat, 8);
    lemma_stands_in_parts(buf, 4, op + g + a + b, c);
    lemma_stands_in_parts(buf, 4, op + g + a, b);
    lemma_stands_in_parts(buf, 4, op + g, a);
    lemma_stands_in_parts(buf, 4, op, g);
    assert(buf[4] == buf.subrange(4, 5)[0]);
    lemma_text_stands(buf, 5, group);
    lemma_text_stands(buf, 5int + g.len(), topic);
    lemma_uint_stands(buf, 5int + g.len() + a.len(), partition as nat, 4);
    lemma_uint_stands(buf, 5int + g.len() + a.len() + 4, offset as nat, 8);
}

proof fn lemma_ack_stands(buf: Seq<u8>)
    requires
        stands(buf, 4, (FrameView::Ack).body()),
        lengths_fit((FrameView::Ack)),
        protocol::uint_at(buf, 0, 4) <= MAX_FRAME_BYTES,
    ensures
        protocol::whole(buf),
        protocol::decoded(buf) == Ok::<FrameView, ProtocolErrorView>((FrameView::Ack)),
        frame_end(buf) == 4 + (FrameView::Ack).body().len(),
{
    wire::lemma_le_ranges();
    assert(buf[4] == buf.subrange(4, 6)[0]);
    assert(buf[5] == buf.subrange(4, 6)[1]);
}

proof fn lemma_produce_ack_stands(buf: Seq<u8>, offset: u64)
    requires
        stands(buf, 4, (FrameView::ProduceAck { offset }).body()),
        lengths_fit((FrameView::ProduceAck { offset })),
        protocol::uint_at(buf, 0, 4) <= MAX_FRAME_BYTES,
    ensures
        protocol::whole(buf),
        protocol::decoded(buf) == Ok::<FrameView, ProtocolErrorView>((FrameView::ProduceAck { offset })),
        frame_end(buf) == 4 + (FrameView::ProduceAck { offset }).body().len(),
{
    wire::lemma_le_ranges();
    let op = seq![opcode::RESPONSE, resp_kind::OFFSET];
    wire::lemma_le_bytes_len(offset as nat, 8);
    lemma_stands_in_parts(buf, 4, op, wire::le_bytes(offset as nat, 8));
    assert(buf[4] == buf.subrange(4, 6)[0]);
    assert(buf[5] == buf.subrange(4, 6)[1]);
    lemma_uint_stands(buf, 6, offset as nat, 8);
}

proof fn lemma_fetch_data_stands(buf: Seq<u8>, offset: u64, payload: Seq<u8>)
    requires
        stands(buf, 4, (FrameView::FetchData { offset, payload }).body()),
        lengths_fit((FrameView::FetchData { offset, payload })),
        protocol::uint_at(buf, 0, 4) <= MAX_FRAME_BYTES,
    ensures
        protocol::whole(buf),
        protocol::decoded(buf) == Ok::<FrameView, ProtocolErrorView>((FrameView::FetchData { offset, payload })),
        frame_end(buf) == 4 + (FrameView::FetchData { offset, payload }).body().len(),
{
    wire::lemma_le_ranges();
    let op = seq![opcode::RESPONSE, resp_kind::PAYLOAD];
    let a = wire::le_bytes(offset as nat, 8);
    wire::lemma_le_bytes_len(offset as nat, 8);
    lemma_stands_in_parts(buf, 4, op + a, protocol::payload_bytes(payload));
    lemma_stands_in_parts(buf, 4, op, a);
    assert(buf[4] == buf.subrange(4, 6)[0]);
    assert(buf[5] == buf.subrange(4, 6)[1]);
    lemma_uint_stands(buf, 6, offset as nat, 8);
    lemma_payload_stands(buf, 14, payload);
}

proof fn lemma_error_stands(buf: Seq<u8>, code: u8, message: Seq<char>)
    requires
        stands(buf, 4, (FrameView::Error { code, message }).body()),
        lengths_fit((FrameView::Error { code, message })),
        protocol::uint_at(buf, 0, 4) <= MAX_FRAME_BYTES,
    ensures
        protocol::whole(buf),
        protocol::decoded(buf) == Ok::<FrameView, ProtocolErrorView>((FrameView::Error { code, message })),
        frame_end(buf) == 4 + (FrameView::Error { code, message }).body().len(),
{
    wire::lemma_le_ranges();
    let op = seq![opcode::ERROR, code];
    lemma_stands_in_parts(buf, 4, op, protocol::text_bytes(message));
    assert(buf[4] == buf.subrange(4, 6)[0]);
    assert(buf[5] == buf.subrange(4, 6)[1]);
    lemma_text_stands(buf, 6, message);
}

/// Decoding gives back the frame that was encoded, whatever follows it, wherever
/// its lengths fit and its body is no longer than is accepted.
pub proof fn law_frame_round_trip(frame: FrameView, rest: Seq<u8>)
    requires
        lengths_fit(frame),
        frame.body().len() <= MAX_FRAME_BYTES,
    ensures
        protocol::whole(frame.encoded() + rest),
        protocol::decoded(frame.encoded() + rest) == Ok::<FrameView, ProtocolErrorView>(frame),
{
    let buf = frame.encoded() + rest;
    lemma_body_stands(frame, rest);
    match frame {
        FrameView::Produce { topic, partition, payload } => {
            lemma_produce_stands(buf, topic, partition, payload);
        },
        FrameView::Fetch { topic, partition, offset } => {
            lemma_fetch_stands(buf, topic, partition, offset);
        },
        FrameView::CreateTopic { name, num_partitions } => {
            lemma_create_topic_stands(buf, name, num_partitions);
        },
        FrameView::CommitOffset { group, topic, partition, offset } => {
            lemma_commit_offset_stands(buf, group, topic, partition, offset);
        },
        FrameView::Ack => {
            lemma_ack_stands(buf);
        },
        FrameView::ProduceAck { offset } => {
            lemma_produce_ack_stands(buf, offset);
        },
        FrameView::FetchData { offset, payload } => {
            lemma_fetch_data_stands(buf, offset, payload);
        },
        FrameView::Error { code, message } => {
            lemma_error_stands(buf, code, message);
        },
    }
}

/// Decoding goes by the fields: the length in front is only held against the largest
/// that is accepted, and what follows the fields does not matter.
pub proof fn law_decoding_goes_by_the_fields(frame: FrameView, prefix: Seq<u8>, rest: Seq<u8>)
    requires
        lengths_fit(frame),
        prefix.len() == 4,
        wire::le_value(prefix) <= 67_108_864,
    ensures
        protocol::whole(prefix + frame.body() + rest),
        protocol::decoded(prefix + frame.body() + rest) == Ok::<FrameView, ProtocolErrorView>(
            frame,
        ),
{
    let buf = prefix + frame.body() + rest;
    assert(buf.subrange(0, 4) =~= prefix);
    assert(buf.subrange(4, 4int + frame.body().len()) =~= frame.body());
    match frame {
        FrameView::Produce { topic, partition, payload } => {
            lemma_produce_stands(buf, topic, partition, payload);
        },
        FrameView::Fetch { topic, partition, offset } => {
            lemma_fetch_stands(buf, topic, partition, offset);
        },
        FrameView::CreateTopic { name, num_partitions } => {
            lemma_create_topic_stands(buf, name, num_partitions);
        },
        FrameView::CommitOffset { group, topic, partition, offset } => {
            lemma_commit_offset_stands(buf, group, topic, partition, offset);
        },
        FrameView::Ack => {
            lemma_ack_stands(buf);
        },
        FrameView::ProduceAck { offset } => {
            lemma_produce_ack_stands(buf, offset);
        },
        FrameView::FetchData { offset, payload } => {
            lemma_fetch_data_stands(buf, offset, payload);
        },
        FrameView::Error { code, message } => {
            lemma_error_stands(buf, code, message);
        },
    }
}

/// The fields of an encoded frame end where it ends.
proof fn lemma_encoded_ends(frame: FrameView)
    requires
        lengths_fit(frame),
        frame.body().len() <= MAX_FRAME_BYTES,
    ensures
        frame_end(frame.encoded()) == frame.encoded().len(),
        protocol::uint_at(frame.encoded(), 0, 4) <= MAX_FRAME_BYTES,
{
    let buf = frame.encoded();
    lemma_body_stands(frame, Seq::empty());
    assert(buf + Seq::<u8>::empty() =~= buf);
    wire::lemma_le_bytes_len(frame.body().len(), 4);
    match frame {
        FrameView::Produce { topic, partition, payload } => {
            lemma_produce_stands(buf, topic, partition, payload);
        },
        FrameView::Fetch { topic, partition, offset } => {
            lemma_fetch_stands(buf, topic, partition, offset);
        },
        FrameView::CreateTopic { name, num_partitions } => {
            lemma_create_topic_stands(buf, name, num_partitions);
        },
        FrameView::CommitOffset { group, topic, partition, offset } => {
            lemma_commit_offset_stands(buf, group, topic, partition, offset);
        },
        FrameView::Ack => {
            lemma_ack_stands(buf);
        },
        FrameView::ProduceAck { offset } => {
            lemma_produce_ack_stands(buf, offset);
        },
        FrameView::FetchData { offset, payload } => {
            lemma_fetch_data_stands(buf, offset, payload);
        },
        FrameView::Error { code, message } => {
            lemma_error_stands(buf, code, message);
        },
    }
}

/// An encoding that was cut off is not decoded to a frame: below five bytes it is
/// too short, and from there on its fields are not all there, or the frame was too
/// large from the beginning and is refused as such.
pub proof fn law_cut_frame_is_not_decoded(frame: FrameView, k: int)
    requires
        lengths_fit(frame),
        frame.body().len() < 0x1_0000_0000,
        0 <= k < frame.encoded().len(),
    ensures
        ({
            let cut = frame.encoded().take(k);
            if k < 5 {
                &&& protocol::whole(cut)
                &&& protocol::decoded(cut) == Err::<FrameView, ProtocolErrorView>(
                    ProtocolErrorView::TooShort,
                )
            } else if frame.body().len() <= MAX_FRAME_BYTES {
                !protocol::whole(cut)
            } else {
                &&& protocol::whole(cut)
                &&& protocol::decoded(cut) == Err::<FrameView, ProtocolErrorView>(
                    ProtocolErrorView::FrameTooLarge(frame.body().len() as u32),
                )
            }
        }),
{
    let buf = frame.encoded();
    if k >= 5 {
        if frame.body().len() <= MAX_FRAME_BYTES {
            lemma_encoded_ends(frame);
            if protocol::whole(buf.take(k)) {
                lemma_whole_prefix_reaches_the_end(buf, k);
            }
        } else {
            lemma_body_stands(frame, Seq::empty());
            assert(buf + Seq::<u8>::empty() =~= buf);
            lemma_uint_of_prefix(buf, k, 0, 4);
        }
    }
}

/// A frame whose body is longer than is accepted is refused with its length,
/// wherever the length fits the four bytes that it has.
pub proof fn law_oversized_frame_is_refused(frame: FrameView, rest: Seq<u8>)
    requires
        MAX_FRAME_BYTES < frame.body().len() < 0x1_0000_0000,
    ensures
        protocol::whole(frame.encoded() + rest),
        protocol::decoded(frame.encoded() + rest) == Err::<FrameView, ProtocolErrorView>(
            ProtocolErrorView::FrameTooLarge(frame.body().len() as u32),
        ),
{
    lemma_body_stands(frame, rest);
}

/// A frame is read off a stream by its prefix: the first four bytes say how many
/// more make up the frame, and with these it is what was encoded.
pub proof fn law_frame_is_read_off_a_stream(frame: FrameView, rest: Seq<u8>)
    requires
        frame.body().len() <= MAX_FRAME_BYTES,
    ensures
        ({
            let stream = frame.encoded() + rest;
            let len = wire::le_value(stream.take(4)) as int;
            &&& len == frame.body().len()
            &&& stream.take(4) + stream.subrange(4, 4 + len) == frame.encoded()
            &&& stream.skip(4 + len) == rest
        }),
{
    let stream = frame.encoded() + rest;
    lemma_body_stands(frame, rest);
    wire::lemma_le_bytes_len(frame.body().len(), 4);
    assert(stream.take(4) =~= stream.subrange(0, 4));
    let len = frame.body().len() as int;
    assert(stream.take(4) + stream.subrange(4, 4 + len) =~= frame.encoded());
    assert(stream.skip(4 + len) =~= rest);
}

} // verus!
