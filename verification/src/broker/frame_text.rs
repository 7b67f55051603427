//! Frames as they are shown in messages about unexpected ones.

use vstd::prelude::*;

use super::protocol::{Frame, FrameView};
use crate::text;
use crate::text::push_decimal;

verus! {

/// The text that the `Debug` form of a `str` gives: the characters in double
/// quotes, with escapes.
pub uninterp spec fn quoted(s: Seq<char>) -> Seq<char>;

/// Formats a `str` with `{:?}`. The text is a function of the characters; which
/// of them are escaped is left to the standard library.
#[verifier::external_body]
fn quote(s: &str) -> (out: String)
    ensures
        out@ == quoted(s@),
{
    format!("{:?}", s)
}

/// One byte in the `Debug` form of `bytes::Bytes`.
pub open spec fn byte_shown(b: u8) -> Seq<char> {
    if b == 0x0a {
        "\\n"@
    } else if b == 0x0d {
        "\\r"@
    } else if b == 0x09 {
        "\\t"@
    } else if b == 0x5c {
        "\\\\"@
    } else if b == 0x22 {
        "\\\""@
    } else if b == 0x00 {
        "\\0"@
    } else if 0x20 <= b < 0x7f {
        seq![b as char]
    } else {
        "\\x"@ + text::padded(b as nat, 16, 2)
    }
}

/// Bytes one by one in the `Debug` form of `bytes::Bytes`.
pub open spec fn bytes_escaped(bytes: Seq<u8>) -> Seq<char>
    decreases bytes.len(),
{
    if bytes.len() == 0 {
        Seq::empty()
    } else {
        bytes_escaped(bytes.drop_last()) + byte_shown(bytes.last())
    }
}

/// A payload as it is shown: a byte string literal.
pub open spec fn bytes_shown(bytes: Seq<u8>) -> Seq<char> {
    "b\""@ + bytes_escaped(bytes) + "\""@
}

/// Formats a `bytes::Bytes` of these bytes with `{:?}`: a byte string literal, in
/// which printable ASCII stands for itself, a quote and a backslash are escaped,
/// newline, carriage return, tab and nul have their short escapes, and every
/// other byte is written with `\x` and two hexadecimal digits.
#[verifier::external_body]
fn show_bytes(payload: &[u8]) -> (out: String)
    ensures
        out@ == bytes_shown(payload@),
{
    format!("{:?}", bytes::Bytes::copy_from_slice(payload))
}

impl FrameView {
    /// The frame as it is shown in messages.
    pub open spec fn shown(self) -> Seq<char> {
        match self {
            FrameView::Produce { topic, partition, payload } => "Produce { topic: "@ + quoted(topic)
                + ", partition: "@ + text::decimal(partition as nat) + ", payload: "@ + bytes_shown(
                payload,
            ) + " }"@,
            FrameView::Fetch { topic, partition, offset } => "Fetch { topic: "@ + quoted(topic)
                + ", partition: "@ + text::decimal(partition as nat) + ", offset: "@
                + text::decimal(offset as nat) + " }"@,
            FrameView::CreateTopic { name, num_partitions } => "CreateTopic { name: "@ + quoted(
                name,
            ) + ", num_partitions: "@ + text::decimal(num_partitions as nat) + " }"@,
            FrameView::CommitOffset { group, topic, partition, offset } =>
            "CommitOffset { group: "@ + quoted(group) + ", topic: "@ + quoted(topic)
                + ", partition: "@ + text::decimal(partition as nat) + ", offset: "@
                + text::decimal(offset as nat) + " }"@,
            FrameView::Ack => "Ack"@,
            FrameView::ProduceAck { offset } => "ProduceAck { offset: "@ + text::decimal(
                offset as nat,
            ) + " }"@,
            FrameView::FetchData { offset, payload } => "FetchData { offset: "@ + text::decimal(
                offset as nat,
            ) + ", payload: "@ + bytes_shown(payload) + " }"@,
            FrameView::Error { code, message } => "Error { code: "@ + text::decimal(code as nat)
                + ", message: "@ + quoted(message) + " }"@,
        }
    }
}

impl Frame {
    /// The frame as it is shown in messages.
    pub fn shown(&self) -> (out: String)
        ensures
            out@ == self@.shown(),
    {
        match self {
            Frame::Produce { topic, partition, payload } => {
                let mut out = String::from_str("Produce { topic: ");
                out.append(quote(topic.as_str()).as_str());
                out.append(", partition: ");
                push_decimal(&mut out, *partition as u64);
                out.append(", payload: ");
                out.append(show_bytes(payload.as_slice()).as_str());
                out.append(" }");
                out
            },
            Frame::Fetch { topic, partition, offset } => {
                let mut out = String::from_str("Fetch { topic: ");
                out.append(quote(topic.as_str()).as_str());
                out.append(", partition: ");
                push_decimal(&mut out, *partition as u64);
                out.append(", offset: ");
                push_decimal(&mut out, *offset);
                out.append(" }");
                out
            },
            Frame::CreateTopic { name, num_partitions } => {
                let mut out = String::from_str("CreateTopic { name: ");
                out.append(quote(name.as_str()).as_str());
                out.append(", num_partitions: ");
                push_decimal(&mut out, *num_partitions as u64);
                out.append(" }");
                out
            },
            Frame::CommitOffset { group, topic, partition, offset } => {
                let mut out = String::from_str("CommitOffset { group: ");
                out.append(quote(group.as_str()).as_str());
                out.append(", topic: ");
                out.append(quote(topic.as_str()).as_str());
                out.append(", partition: ");
                push_decimal(&mut out, *partition as u64);
                out.append(", offset: ");
                push_decimal(&mut out, *offset);
                out.append(" }");
                out
            },
            Frame::Ack => String::from_str("Ack"),
            Frame::ProduceAck { offset } => {
                let mut out = String::from_str("ProduceAck { offset: ");
                push_decimal(&mut out, *offset);
                out.append(" }");
                out
            },
            Frame::FetchData { offset, payload } => {
                let mut out = String::from_str("FetchData { offset: ");
                push_decimal(&mut out, *offset);
                out.append(", payload: ");
                out.append(show_bytes(payload.as_slice()).as_str());
                out.append(" }");
                out
            },
            Frame::Error { code, message } => {
                let mut out = String::from_str("Error { code: ");
                push_decimal(&mut out, *code as u64);
                out.append(", message: ");
                out.append(quote(message.as_str()).as_str());
                out.append(" }");
                out
            },
        }
    }
}

} // verus!
