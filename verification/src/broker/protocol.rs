//! The wire protocol: frames, their encoding and their decoding.
//!
//! A frame is the length of its body in four bytes, which do not count
//! themselves, and then the body. Integers are little-endian; a text stands
//! behind its length in two bytes, a payload behind its length in four.
//!
//! | frame           | body                                              |
//! |-----------------|---------------------------------------------------|
//! | `Produce`       | `01` topic, partition (4), payload                |
//! | `Fetch`         | `02` topic, partition (4), offset (8)             |
//! | `CreateTopic`   | `03` name, number of partitions (4)               |
//! | `CommitOffset`  | `04` group, topic, partition (4), offset (8)      |
//! | `Ack`           | `80` `00`                                         |
//! | `ProduceAck`    | `80` `01` offset (8)                              |
//! | `FetchData`     | `80` `02` offset (8), payload                     |
//! | `Error`         | `81` code (1), message                            |

pub mod opcode;
pub mod resp_kind;

use vstd::prelude::*;

use vstd::slice::{slice_subrange, slice_to_vec};
use vstd::utf8;

use crate::text;
use crate::text::{push_decimal, push_padded};
use crate::wire;
use crate::wire::{get_le, put_le};

verus! {

/// The longest body that is accepted: 64 MiB.
pub const MAX_FRAME_BYTES: u32 = 67_108_864;

/// What can go wrong when a frame is read.
#[derive(Debug)]
pub enum ProtocolError {
    /// The bytes could not be had; the text is the system's.
    Io(String),
    /// No frame has this opcode.
    UnknownOpcode(u8),
    /// No response is of this kind.
    UnknownResponseKind(u8),
    /// The body is longer than `MAX_FRAME_BYTES`.
    FrameTooLarge(u32),
    /// There is no room for a length and an opcode.
    TooShort,
}

/// A `ProtocolError` with its text as a character sequence.
pub enum ProtocolErrorView {
    Io(Seq<char>),
    UnknownOpcode(u8),
    UnknownResponseKind(u8),
    FrameTooLarge(u32),
    TooShort,
}

impl View for ProtocolError {
    type V = ProtocolErrorView;

    open spec fn view(&self) -> ProtocolErrorView {
        match self {
            ProtocolError::Io(text) => ProtocolErrorView::Io(text@),
            ProtocolError::UnknownOpcode(op) => ProtocolErrorView::UnknownOpcode(*op),
            ProtocolError::UnknownResponseKind(kind) => ProtocolErrorView::UnknownResponseKind(
                *kind,
            ),
            ProtocolError::FrameTooLarge(len) => ProtocolErrorView::FrameTooLarge(*len),
            ProtocolError::TooShort => ProtocolErrorView::TooShort,
        }
    }
}

/// A byte as it is shown in messages: `0x` and two digits.
pub open spec fn hex_byte(b: u8) -> Seq<char> {
    "0x"@ + text::padded(b as nat, 16, 2)
}

/// Appends a byte as it is shown in messages.
pub fn push_hex_byte(out: &mut String, b: u8)
    ensures
        final(out)@ == old(out)@ + hex_byte(b),
{
    out.append("0x");
    push_padded(out, b as u64, 16, 2);
    assert(out@ =~= old(out)@ + hex_byte(b));
}

/// What a frame that is too large is answered with.
pub open spec fn too_large_text(len: nat) -> Seq<char> {
    "frame too large: "@ + text::decimal(len) + " bytes"@
}

fn too_large(len: u32) -> (out: String)
    ensures
        out@ == too_large_text(len as nat),
{
    let mut out = String::from_str("frame too large: ");
    push_decimal(&mut out, len as u64);
    out.append(" bytes");
    out
}

impl ProtocolErrorView {
    /// The error in words.
    pub open spec fn message(self) -> Seq<char> {
        match self {
            ProtocolErrorView::Io(text) => "io: "@ + text,
            ProtocolErrorView::UnknownOpcode(op) => "unknown opcode: "@ + hex_byte(op),
            ProtocolErrorView::UnknownResponseKind(kind) => "unknown response kind: "@ + hex_byte(
                kind,
            ),
            ProtocolErrorView::FrameTooLarge(len) => too_large_text(len as nat),
            ProtocolErrorView::TooShort => "frame too short"@,
        }
    }
}

impl ProtocolError {
    /// The error in words.
    pub fn to_string(&self) -> (out: String)
        ensures
            out@ == self@.message(),
    {
        match self {
            ProtocolError::Io(text) => {
                let mut out = String::from_str("io: ");
                out.append(text.as_str());
                out
            },
            ProtocolError::UnknownOpcode(op) => {
                let mut out = String::from_str("unknown opcode: ");
                push_hex_byte(&mut out, *op);
                out
            },
            ProtocolError::UnknownResponseKind(kind) => {
                let mut out = String::from_str("unknown response kind: ");
                push_hex_byte(&mut out, *kind);
                out
            },
            ProtocolError::FrameTooLarge(len) => too_large(*len),
            ProtocolError::TooShort => String::from_str("frame too short"),
        }
    }
}

/// A request to the broker or a response of the broker.
#[derive(Debug, Clone, PartialEq)]
pub enum Frame {
    /// Append a payload to a partition.
    Produce { topic: String, partition: u32, payload: Vec<u8> },
    /// Read the record with this offset.
    Fetch { topic: String, partition: u32, offset: u64 },
    /// Create a topic.
    CreateTopic { name: String, num_partitions: u32 },
    /// Remember how far a consumer group has come.
    CommitOffset { group: String, topic: String, partition: u32, offset: u64 },
    /// Generic success with no data (`CreateTopic`, `CommitOffset`).
    Ack,
    /// Offset returned after a successful `Produce`.
    ProduceAck { offset: u64 },
    /// Record data returned by a successful `Fetch`.
    FetchData { offset: u64, payload: Vec<u8> },
    /// Error response.
    Error { code: u8, message: String },
}

/// A `Frame` with its texts and payload as sequences.
#[verifier::ext_equal]
pub enum FrameView {
    Produce { topic: Seq<char>, partition: u32, payload: Seq<u8> },
    Fetch { topic: Seq<char>, partition: u32, offset: u64 },
    CreateTopic { name: Seq<char>, num_partitions: u32 },
    CommitOffset { group: Seq<char>, topic: Seq<char>, partition: u32, offset: u64 },
    Ack,
    ProduceAck { offset: u64 },
    FetchData { offset: u64, payload: Seq<u8> },
    Error { code: u8, message: Seq<char> },
}

impl View for Frame {
    type V = FrameView;

    open spec fn view(&self) -> FrameView {
        match self {
            Frame::Produce { topic, partition, payload } => FrameView::Produce {
                topic: topic@,
                partition: *partition,
                payload: payload@,
            },
            Frame::Fetch { topic, partition, offset } => FrameView::Fetch {
                topic: topic@,
                partition: *partition,
                offset: *offset,
            },
            Frame::CreateTopic { name, num_partitions } => FrameView::CreateTopic {
                name: name@,
                num_partitions: *num_partitions,
            },
            Frame::CommitOffset { group, topic, partition, offset } => FrameView::CommitOffset {
                group: group@,
                topic: topic@,
                partition: *partition,
                offset: *offset,
            },
            Frame::Ack => FrameView::Ack,
            Frame::ProduceAck { offset } => FrameView::ProduceAck { offset: *offset },
            Frame::FetchData { offset, payload } => FrameView::FetchData {
                offset: *offset,
                payload: payload@,
            },
            Frame::Error { code, message } => FrameView::Error {
                code: *code,
                message: message@,
            },
        }
    }
}

/// A text on the wire: the low two bytes of its length, and its bytes.
pub open spec fn text_bytes(s: Seq<char>) -> Seq<u8> {
    wire::le_bytes(utf8::encode_utf8(s).len(), 2) + utf8::encode_utf8(s)
}

/// A payload on the wire: the low four bytes of its length, and its bytes.
pub open spec fn payload_bytes(payload: Seq<u8>) -> Seq<u8> {
    wire::le_bytes(payload.len(), 4) + payload
}

impl FrameView {
    /// The body of the frame on the wire.
    pub open spec fn body(self) -> Seq<u8> {
        match self {
            FrameView::Produce { topic, partition, payload } => seq![opcode::PRODUCE] + text_bytes(
                topic,
            ) + wire::le_bytes(partition as nat, 4) + payload_bytes(payload),
            FrameView::Fetch { topic, partition, offset } => seq![opcode::FETCH] + text_bytes(topic)
                + wire::le_bytes(partition as nat, 4) + wire::le_bytes(offset as nat, 8),
            FrameView::CreateTopic { name, num_partitions } => seq![opcode::CREATE_TOPIC]
                + text_bytes(name) + wire::le_bytes(num_partitions as nat, 4),
            FrameView::CommitOffset { group, topic, partition, offset } => seq![
                opcode::COMMIT_OFFSET,
            ] + text_bytes(group) + text_bytes(topic) + wire::le_bytes(partition as nat, 4)
                + wire::le_bytes(offset as nat, 8),
            FrameView::Ack => seq![opcode::RESPONSE, resp_kind::OK],
            FrameView::ProduceAck { offset } => seq![opcode::RESPONSE, resp_kind::OFFSET]
                + wire::le_bytes(offset as nat, 8),
            FrameView::FetchData { offset, payload } => seq![opcode::RESPONSE, resp_kind::PAYLOAD]
                + wire::le_bytes(offset as nat, 8) + payload_bytes(payload),
            FrameView::Error { code, message } => seq![opcode::ERROR, code] + text_bytes(message),
        }
    }

    /// The frame on the wire: the low four bytes of the length of its body, and
    /// the body.
    pub open spec fn encoded(self) -> Seq<u8> {
        wire::le_bytes(self.body().len(), 4) + self.body()
    }
}

/// The text that `String::from_utf8_lossy` makes of malformed bytes.
pub uninterp spec fn utf8_lossy(bytes: Seq<u8>) -> Seq<char>;

/// The text that bytes are read as.
pub open spec fn text_of(bytes: Seq<u8>) -> Seq<char> {
    if utf8::valid_utf8(bytes) {
        utf8::decode_utf8(bytes)
    } else {
        utf8_lossy(bytes)
    }
}

/// Calls `String::from_utf8_lossy`: well-formed bytes give the text that they
/// encode; where bytes are malformed, replacement characters stand in the text
/// in their place, and of that text it is only said that the bytes determine it.
#[verifier::external_body]
fn from_utf8_lossy(bytes: &[u8]) -> (s: String)
    ensures
        utf8::valid_utf8(bytes@) ==> s@ == utf8::decode_utf8(bytes@),
        !utf8::valid_utf8(bytes@) ==> s@ == utf8_lossy(bytes@),
{
    String::from_utf8_lossy(bytes).into_owned()
}

/// The integer in the `width` bytes from `pos` on.
pub open spec fn uint_at(buf: Seq<u8>, pos: int, width: nat) -> nat {
    wire::le_value(buf.subrange(pos, pos + width))
}

/// The bytes of the text that stands at `pos`.
pub open spec fn text_bytes_at(buf: Seq<u8>, pos: int) -> Seq<u8> {
    buf.subrange(pos + 2, after_text(buf, pos))
}

/// The text that stands at `pos`.
pub open spec fn text_at(buf: Seq<u8>, pos: int) -> Seq<char> {
    text_of(text_bytes_at(buf, pos))
}

/// Where the text that stands at `pos` ends.
pub open spec fn after_text(buf: Seq<u8>, pos: int) -> int {
    pos + 2 + uint_at(buf, pos, 2)
}

/// Whether a text stands at `pos` to its end.
pub open spec fn has_text(buf: Seq<u8>, pos: int) -> bool {
    pos + 2 <= buf.len() && after_text(buf, pos) <= buf.len()
}

/// The payload that stands at `pos`.
pub open spec fn payload_at(buf: Seq<u8>, pos: int) -> Seq<u8> {
    buf.subrange(pos + 4, pos + 4 + uint_at(buf, pos, 4))
}

/// Whether a payload stands at `pos` to its end.
pub open spec fn has_payload(buf: Seq<u8>, pos: int) -> bool {
    pos + 4 <= buf.len() && pos + 4 + uint_at(buf, pos, 4) <= buf.len()
}

/// Whether the fields that the opcode calls for are all there. A frame that is
/// refused for another reason has none to look for.
pub open spec fn whole(buf: Seq<u8>) -> bool {
    if buf.len() < 5 || uint_at(buf, 0, 4) > MAX_FRAME_BYTES {
        true
    } else if buf[4] == opcode::PRODUCE {
        has_text(buf, 5) && has_payload(buf, after_text(buf, 5) + 4)
    } else if buf[4] == opcode::FETCH {
        has_text(buf, 5) && after_text(buf, 5) + 12 <= buf.len()
    } else if buf[4] == opcode::CREATE_TOPIC {
        has_text(buf, 5) && after_text(buf, 5) + 4 <= buf.len()
    } else if buf[4] == opcode::COMMIT_OFFSET {
        has_text(buf, 5) && has_text(buf, after_text(buf, 5)) && after_text(
            buf,
            after_text(buf, 5),
        ) + 12 <= buf.len()
    } else if buf[4] == opcode::RESPONSE {
        6 <= buf.len() && (buf[5] == resp_kind::OFFSET ==> 14 <= buf.len()) && (buf[5]
            == resp_kind::PAYLOAD ==> has_payload(buf, 14))
    } else if buf[4] == opcode::ERROR {
        has_text(buf, 6)
    } else {
        true
    }
}

/// What the bytes mean, read from the length on; bytes behind the frame do not
/// matter.
pub open spec fn decoded(buf: Seq<u8>) -> Result<FrameView, ProtocolErrorView> {
    if buf.len() < 5 {
        Err(ProtocolErrorView::TooShort)
    } else if uint_at(buf, 0, 4) > MAX_FRAME_BYTES {
        Err(ProtocolErrorView::FrameTooLarge(uint_at(buf, 0, 4) as u32))
    } else if buf[4] == opcode::PRODUCE {
        let end = after_text(buf, 5);
        Ok(
            FrameView::Produce {
                topic: text_at(buf, 5),
                partition: uint_at(buf, end, 4) as u32,
                payload: payload_at(buf, end + 4),
            },
        )
    } else if buf[4] == opcode::FETCH {
        let end = after_text(buf, 5);
        Ok(
            FrameView::Fetch {
                topic: text_at(buf, 5),
                partition: uint_at(buf, end, 4) as u32,
                offset: uint_at(buf, end + 4, 8) as u64,
            },
        )
    } else if buf[4] == opcode::CREATE_TOPIC {
        Ok(
            FrameView::CreateTopic {
                name: text_at(buf, 5),
                num_partitions: uint_at(buf, after_text(buf, 5), 4) as u32,
            },
        )
    } else if buf[4] == opcode::COMMIT_OFFSET {
        let mid = after_text(buf, 5);
        let end = after_text(buf, mid);
        Ok(
            FrameView::CommitOffset {
                group: text_at(buf, 5),
                topic: text_at(buf, mid),
                partition: uint_at(buf, end, 4) as u32,
                offset: uint_at(buf, end + 4, 8) as u64,
            },
        )
    } else if buf[4] == opcode::RESPONSE {
        if buf[5] == resp_kind::OK {
            Ok(FrameView::Ack)
        } else if buf[5] == resp_kind::OFFSET {
            Ok(FrameView::ProduceAck { offset: uint_at(buf, 6, 8) as u64 })
        } else if buf[5] == resp_kind::PAYLOAD {
            Ok(
                FrameView::FetchData {
                    offset: uint_at(buf, 6, 8) as u64,
                    payload: payload_at(buf, 14),
                },
            )
        } else {
            Err(ProtocolErrorView::UnknownResponseKind(buf[5]))
        }
    } else if buf[4] == opcode::ERROR {
        Ok(FrameView::Error { code: buf[5], message: text_at(buf, 6) })
    } else {
        Err(ProtocolErrorView::UnknownOpcode(buf[4]))
    }
}

/// A result with its frame and its error by their views.
pub open spec fn decode_outcome(r: Result<Frame, ProtocolError>) -> Result<
    FrameView,
    ProtocolErrorView,
> {
    match r {
        Ok(frame) => Ok(frame@),
        Err(e) => Err(e@),
    }
}

fn put_text(buf: &mut Vec<u8>, s: &String)
    ensures
        final(buf)@ == old(buf)@ + text_bytes(s@),
{
    let bytes: &[u8] = s.as_str().as_bytes();
    put_le(buf, bytes.len() as u64, 2);
    buf.extend_from_slice(bytes);
    assert(buf@ =~= old(buf)@ + text_bytes(s@));
}

fn put_payload(buf: &mut Vec<u8>, payload: &Vec<u8>)
    ensures
        final(buf)@ == old(buf)@ + payload_bytes(payload@),
{
    put_le(buf, payload.len() as u64, 4);
    buf.extend_from_slice(payload.as_slice());
    assert(buf@ =~= old(buf)@ + payload_bytes(payload@));
}

fn get_u32(buf: &[u8], pos: usize) -> (x: u32)
    requires
        pos + 4 <= buf@.len(),
    ensures
        x == uint_at(buf@, pos as int, 4),
{
    let x: u64 = get_le(buf, pos, 4);
    proof {
        wire::lemma_le_ranges();
    }
    x as u32
}

fn get_u64(buf: &[u8], pos: usize) -> (x: u64)
    requires
        pos + 8 <= buf@.len(),
    ensures
        x == uint_at(buf@, pos as int, 8),
{
    get_le(buf, pos, 8)
}

/// Where the text at `pos` ends, if it does within the buffer.
fn text_end(buf: &[u8], pos: usize) -> (end: Option<usize>)
    requires
        pos <= buf@.len(),
    ensures
        match end {
            Some(e) => has_text(buf@, pos as int) && e == after_text(buf@, pos as int),
            None => !has_text(buf@, pos as int),
        },
{
    let n: usize = buf.len();
    if n - pos < 2 {
        return None;
    }
    let len: u64 = get_le(buf, pos, 2);
    proof {
        wire::lemma_le_ranges();
    }
    if ((n - pos - 2) as u64) < len {
        None
    } else {
        Some(pos + 2 + len as usize)
    }
}

/// Where the payload at `pos` ends, if it does within the buffer.
fn payload_end(buf: &[u8], pos: usize) -> (end: Option<usize>)
    requires
        pos <= buf@.len(),
    ensures
        match end {
            Some(e) => has_payload(buf@, pos as int) && e == pos + 4 + uint_at(
                buf@,
                pos as int,
                4,
            ),
            None => !has_payload(buf@, pos as int),
        },
{
    let n: usize = buf.len();
    if n - pos < 4 {
        return None;
    }
    let len: u32 = get_u32(buf, pos);
    if ((n - pos - 4) as u64) < len as u64 {
        None
    } else {
        Some(pos + 4 + len as usize)
    }
}

/// The text at `pos` and where it ends.
fn get_str(buf: &[u8], pos: usize) -> (r: (String, usize))
    requires
        has_text(buf@, pos as int),
    ensures
        r.0@ == text_at(buf@, pos as int),
        r.1 == after_text(buf@, pos as int),
{
    let end: usize = match text_end(buf, pos) {
        Some(e) => e,
        None => pos,
    };
    (from_utf8_lossy(slice_subrange(buf, pos + 2, end)), end)
}

/// The payload at `pos`.
fn get_payload(buf: &[u8], pos: usize) -> (r: Vec<u8>)
    requires
        has_payload(buf@, pos as int),
    ensures
        r@ == payload_at(buf@, pos as int),
{
    let end: usize = match payload_end(buf, pos) {
        Some(e) => e,
        None => pos,
    };
    slice_to_vec(slice_subrange(buf, pos + 4, end))
}

/// Whether the fields that the opcode calls for are all there.
pub fn is_whole(buf: &[u8]) -> (r: bool)
    ensures
        r == whole(buf@),
{
    let n: usize = buf.len();
    if n < 5 || get_u32(buf, 0) > MAX_FRAME_BYTES {
        return true;
    }
    let op: u8 = buf[4];
    if op == opcode::PRODUCE {
        match text_end(buf, 5) {
            Some(end) => n - end >= 4 && payload_end(buf, end + 4).is_some(),
            None => false,
        }
    } else if op == opcode::FETCH {
        match text_end(buf, 5) {
            Some(end) => n - end >= 12,
            None => false,
        }
    } else if op == opcode::CREATE_TOPIC {
        match text_end(buf, 5) {
            Some(end) => n - end >= 4,
            None => false,
        }
    } else if op == opcode::COMMIT_OFFSET {
        match text_end(buf, 5) {
            Some(mid) => match text_end(buf, mid) {
                Some(end) => n - end >= 12,
                None => false,
            },
            None => false,
        }
    } else if op == opcode::RESPONSE {
        if n < 6 {
            false
        } else if buf[5] == resp_kind::OFFSET {
            n >= 14
        } else if buf[5] == resp_kind::PAYLOAD {
            n >= 14 && payload_end(buf, 14).is_some()
        } else {
            true
        }
    } else if op == opcode::ERROR {
        n >= 6 && text_end(buf, 6).is_some()
    } else {
        true
    }
}

impl Frame {
    /// The frame on the wire.
    pub fn encode(&self) -> (out: Vec<u8>)
        ensures
            out@ == self@.encoded(),
    {
        let mut body: Vec<u8> = Vec::new();
        match self {
            Frame::Produce { topic, partition, payload } => {
                body.push(opcode::PRODUCE);
                put_text(&mut body, topic);
                put_le(&mut body, *partition as u64, 4);
                put_payload(&mut body, payload);
            },
            Frame::Fetch { topic, partition, offset } => {
                body.push(opcode::FETCH);
                put_text(&mut body, topic);
                put_le(&mut body, *partition as u64, 4);
                put_le(&mut body, *offset, 8);
            },
            Frame::CreateTopic { name, num_partitions } => {
                body.push(opcode::CREATE_TOPIC);
                put_text(&mut body, name);
                put_le(&mut body, *num_partitions as u64, 4);
            },
            Frame::CommitOffset { group, topic, partition, offset } => {
                body.push(opcode::COMMIT_OFFSET);
                put_text(&mut body, group);
                put_text(&mut body, topic);
                put_le(&mut body, *partition as u64, 4);
                put_le(&mut body, *offset, 8);
            },
            Frame::Ack => {
                body.push(opcode::RESPONSE);
                body.push(resp_kind::OK);
            },
            Frame::ProduceAck { offset } => {
                body.push(opcode::RESPONSE);
                body.push(resp_kind::OFFSET);
                put_le(&mut body, *offset, 8);
            },
            Frame::FetchData { offset, payload } => {
                body.push(opcode::RESPONSE);
                body.push(resp_kind::PAYLOAD);
                put_le(&mut body, *offset, 8);
                put_payload(&mut body, payload);
            },
            Frame::Error { code, message } => {
                body.push(opcode::ERROR);
                body.push(*code);
                put_text(&mut body, message);
            },
        }
        assert(body@ =~= self@.body());
        let mut out: Vec<u8> = Vec::new();
        put_le(&mut out, body.len() as u64, 4);
        out.extend_from_slice(body.as_slice());
        assert(out@ =~= self@.encoded());
        out
    }

    /// Decodes a frame from a buffer that starts with the 4-byte length prefix.
    pub fn decode(buf: Vec<u8>) -> (r: Result<Frame, ProtocolError>)
        requires
            whole(buf@),
        ensures
            decode_outcome(r) == decoded(buf@),
    {
        if buf.len() < 5 {
            return Err(ProtocolError::TooShort);
        }
        let bytes: &[u8] = buf.as_slice();
        let frame_len: u32 = get_u32(bytes, 0);
        if frame_len > MAX_FRAME_BYTES {
            return Err(ProtocolError::FrameTooLarge(frame_len));
        }
        let op: u8 = bytes[4];
        if op == opcode::PRODUCE {
            let (topic, end) = get_str(bytes, 5);
            let partition: u32 = get_u32(bytes, end);
            let payload: Vec<u8> = get_payload(bytes, end + 4);
            Ok(Frame::Produce { topic, partition, payload })
        } else if op == opcode::FETCH {
            let (topic, end) = get_str(bytes, 5);
            let partition: u32 = get_u32(bytes, end);
            let offset: u64 = get_u64(bytes, end + 4);
            Ok(Frame::Fetch { topic, partition, offset })
        } else if op == opcode::CREATE_TOPIC {
            let (name, end) = get_str(bytes, 5);
            let num_partitions: u32 = get_u32(bytes, end);
            Ok(Frame::CreateTopic { name, num_partitions })
        } else if op == opcode::COMMIT_OFFSET {
            let (group, mid) = get_str(bytes, 5);
            let (topic, end) = get_str(bytes, mid);
            let partition: u32 = get_u32(bytes, end);
            let offset: u64 = get_u64(bytes, end + 4);
            Ok(Frame::CommitOffset { group, topic, partition, offset })
        } else if op == opcode::RESPONSE {
            let kind: u8 = bytes[5];
            if kind == resp_kind::OK {
                Ok(Frame::Ack)
            } else if kind == resp_kind::OFFSET {
                Ok(Frame::ProduceAck { offset: get_u64(bytes, 6) })
            } else if kind == resp_kind::PAYLOAD {
                let offset: u64 = get_u64(bytes, 6);
                let payload: Vec<u8> = get_payload(bytes, 14);
                Ok(Frame::FetchData { offset, payload })
            } else {
                Err(ProtocolError::UnknownResponseKind(kind))
            }
        } else if op == opcode::ERROR {
            let code: u8 = bytes[5];
            let (message, _) = get_str(bytes, 6);
            Ok(Frame::Error { code, message })
        } else {
            Err(ProtocolError::UnknownOpcode(op))
        }
    }
}

/// How many bytes follow the length prefix of a frame, or what a frame that is
/// too large is answered with.
pub fn read_frame_len(len_buf: &[u8]) -> (r: Result<usize, String>)
    requires
        len_buf@.len() == 4,
    ensures
        match r {
            Ok(n) => n == wire::le_value(len_buf@) && n <= MAX_FRAME_BYTES,
            Err(text) => wire::le_value(len_buf@) > MAX_FRAME_BYTES && text@ == too_large_text(
                wire::le_value(len_buf@),
            ),
        },
{
    let frame_len: u32 = get_u32(len_buf, 0);
    assert(len_buf@.subrange(0, 4) =~= len_buf@);
    if frame_len > MAX_FRAME_BYTES {
        return Err(too_large(frame_len));
    }
    Ok(frame_len as usize)
}

/// The frame as it is decoded: its length prefix and its body in one.
pub fn read_frame_joined(len_buf: &[u8], body: &[u8]) -> (full: Vec<u8>)
    ensures
        full@ == len_buf@ + body@,
{
    let mut full: Vec<u8> = slice_to_vec(len_buf);
    full.extend_from_slice(body);
    full
}

} // verus!
