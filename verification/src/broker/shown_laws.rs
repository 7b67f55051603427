//! How frames are shown.

use vstd::prelude::*;

use super::frame_text;
use super::protocol::FrameView;
use crate::text;

verus! {

/// How each frame is shown: its name and its fields, texts in quotes and payloads as byte
/// strings.
pub proof fn law_frames_are_shown_with_their_fields(frame: FrameView)
    ensures
        match frame {
            FrameView::Produce { topic, partition, payload } => frame.shown()
                == "Produce { topic: "@ + frame_text::quoted(topic) + ", partition: "@
                + text::decimal(partition as nat) + ", payload: "@ + frame_text::bytes_shown(
                payload,
            ) + " }"@,
            FrameView::Fetch { topic, partition, offset } => frame.shown() == "Fetch { topic: "@
                + frame_text::quoted(topic) + ", partition: "@ + text::decimal(partition as nat)
                + ", offset: "@ + text::decimal(offset as nat) + " }"@,
            FrameView::CreateTopic { name, num_partitions } => frame.shown()
                == "CreateTopic { name: "@ + frame_text::quoted(name) + ", num_partitions: "@
                + text::decimal(num_partitions as nat) + " }"@,
            FrameView::CommitOffset { group, topic, partition, offset } => frame.shown()
                == "CommitOffset { group: "@ + frame_text::quoted(group) + ", topic: "@
                + frame_text::quoted(topic) + ", partition: "@ + text::decimal(partition as nat)
                + ", offset: "@ + text::decimal(offset as nat) + " }"@,
            FrameView::Ack => frame.shown() == "Ack"@,
            FrameView::ProduceAck { offset } => frame.shown() == "ProduceAck { offset: "@
                + text::decimal(offset as nat) + " }"@,
            FrameView::FetchData { offset, payload } => frame.shown() == "FetchData { offset: "@
                + text::decimal(offset as nat) + ", payload: "@ + frame_text::bytes_shown(payload)
                + " }"@,
            FrameView::Error { code, message } => frame.shown() == "Error { code: "@
                + text::decimal(code as nat) + ", message: "@ + frame_text::quoted(message)
                + " }"@,
        },
{
}

/// How a payload is shown: byte by byte, between quotes.
pub proof fn law_payloads_are_shown_byte_by_byte(bytes: Seq<u8>, b: u8)
    ensures
        frame_text::bytes_shown(bytes) == "b\""@ + frame_text::bytes_escaped(bytes) + "\""@,
        frame_text::bytes_escaped(Seq::<u8>::empty()) == Seq::<char>::empty(),
        frame_text::bytes_escaped(bytes.push(b)) == frame_text::bytes_escaped(bytes)
            + frame_text::byte_shown(b),
        0x20 <= b < 0x7f && b != 0x22 && b != 0x5c ==> frame_text::byte_shown(b) == seq![b as char],
        b < 0x20 || b >= 0x7f || b == 0x22 || b == 0x5c ==> frame_text::byte_shown(b).len() >= 2
            && frame_text::byte_shown(b)[0] == '\\',
        b >= 0x7f ==> frame_text::byte_shown(b) == "\\x"@ + text::padded(b as nat, 16, 2),
        b < 0x20 && b != 0 && b != 9 && b != 10 && b != 13 ==> frame_text::byte_shown(b)
            == "\\x"@ + text::padded(b as nat, 16, 2),
        frame_text::byte_shown(0) == "\\0"@,
        frame_text::byte_shown(9) == "\\t"@,
        frame_text::byte_shown(10) == "\\n"@,
        frame_text::byte_shown(13) == "\\r"@,
        frame_text::byte_shown(0x22) == "\\\""@,
        frame_text::byte_shown(0x5c) == "\\\\"@,
{
    assert(bytes.push(b).drop_last() =~= bytes);
    reveal_strlit("\\n");
    reveal_strlit("\\r");
    reveal_strlit("\\t");
    reveal_strlit("\\\\");
    reveal_strlit("\\\"");
    reveal_strlit("\\0");
    reveal_strlit("\\x");
}

} // verus!
