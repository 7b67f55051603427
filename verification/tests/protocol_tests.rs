use streamforge::broker::protocol::{
    is_whole, opcode, read_frame_joined, read_frame_len, Frame, ProtocolError, MAX_FRAME_BYTES,
};

// ── Round-trip helpers ────────────────────────────────────────────────────────

fn rt(frame: Frame) -> Frame {
    let raw = frame.encode();
    assert!(is_whole(&raw));
    Frame::decode(raw).expect("decode failed")
}

fn assert_rt(frame: Frame) {
    assert_eq!(rt(frame.clone()), frame);
}

// ── Request frames ────────────────────────────────────────────────────────────

#[test]
fn test_produce_roundtrip() {
    assert_rt(Frame::Produce {
        topic: "events".into(),
        partition: 0,
        payload: b"hello world".to_vec(),
    });
}

#[test]
fn test_produce_explicit_partition_roundtrip() {
    assert_rt(Frame::Produce {
        topic: "logs".into(),
        partition: 3,
        payload: b"data".to_vec(),
    });
}

#[test]
fn test_fetch_roundtrip() {
    assert_rt(Frame::Fetch {
        topic: "orders".into(),
        partition: 2,
        offset: 9_999_999,
    });
}

#[test]
fn test_fetch_offset_zero_roundtrip() {
    assert_rt(Frame::Fetch {
        topic: "t".into(),
        partition: 0,
        offset: 0,
    });
}

#[test]
fn test_create_topic_roundtrip() {
    assert_rt(Frame::CreateTopic {
        name: "my-topic".into(),
        num_partitions: 8,
    });
}

#[test]
fn test_create_topic_single_partition() {
    assert_rt(Frame::CreateTopic {
        name: "solo".into(),
        num_partitions: 1,
    });
}

#[test]
fn test_commit_offset_roundtrip() {
    assert_rt(Frame::CommitOffset {
        group: "analytics-group".into(),
        topic: "events".into(),
        partition: 1,
        offset: 42,
    });
}

// ── Response frames ───────────────────────────────────────────────────────────

#[test]
fn test_ack_roundtrip() {
    assert_rt(Frame::Ack);
}

#[test]
fn test_produce_ack_roundtrip() {
    assert_rt(Frame::ProduceAck { offset: 12345 });
}

#[test]
fn test_fetch_data_roundtrip() {
    assert_rt(Frame::FetchData {
        offset: 7,
        payload: vec![0xDE, 0xAD, 0xBE, 0xEF],
    });
}

#[test]
fn test_error_roundtrip() {
    assert_rt(Frame::Error {
        code: 0x03,
        message: "offset out of range".into(),
    });
}

#[test]
fn test_error_empty_message() {
    assert_rt(Frame::Error {
        code: 0xFF,
        message: String::new(),
    });
}

// ── Edge cases ────────────────────────────────────────────────────────────────

#[test]
fn test_empty_topic_name_roundtrip() {
    assert_rt(Frame::Produce {
        topic: String::new(),
        partition: 0,
        payload: b"payload".to_vec(),
    });
}

#[test]
fn protocol_tests_test_large_payload_roundtrip() {
    let payload = vec![0xABu8; 512_000];
    assert_rt(Frame::FetchData { offset: 0, payload });
}

#[test]
fn test_decode_too_short_returns_error() {
    let short = b"\x01\x02".to_vec();
    assert!(matches!(
        Frame::decode(short),
        Err(ProtocolError::TooShort)
    ));
}

#[test]
fn test_decode_unknown_opcode_returns_error() {
    // Craft a frame with opcode 0xAA (unknown)
    let mut buf = vec![0u8; 5];
    buf[0..4].copy_from_slice(&1u32.to_le_bytes()); // body_len = 1
    buf[4] = 0xAA; // unknown opcode
    assert!(matches!(
        Frame::decode(buf),
        Err(ProtocolError::UnknownOpcode(0xAA))
    ));
}

#[test]
fn test_encode_decode_preserves_u64_max_offset() {
    assert_rt(Frame::ProduceAck { offset: u64::MAX });
}

// ── Exact bytes ───────────────────────────────────────────────────────────────

#[test]
fn frames_have_their_exact_bytes() {
    let produce = Frame::Produce {
        topic: "ab".into(),
        partition: 0x01020304,
        payload: vec![9, 8, 7],
    };
    assert_eq!(
        produce.encode(),
        vec![16, 0, 0, 0, 1, 2, 0, b'a', b'b', 4, 3, 2, 1, 3, 0, 0, 0, 9, 8, 7]
    );
    let commit = Frame::CommitOffset {
        group: "g".into(),
        topic: "t".into(),
        partition: 1,
        offset: 258,
    };
    assert_eq!(
        commit.encode(),
        vec![19, 0, 0, 0, 4, 1, 0, b'g', 1, 0, b't', 1, 0, 0, 0, 2, 1, 0, 0, 0, 0, 0, 0]
    );
    assert_eq!(Frame::Ack.encode(), vec![2, 0, 0, 0, 0x80, 0]);
    assert_eq!(
        Frame::ProduceAck { offset: 1 }.encode(),
        vec![10, 0, 0, 0, 0x80, 1, 1, 0, 0, 0, 0, 0, 0, 0]
    );
    assert_eq!(
        Frame::Error { code: 5, message: "é".into() }.encode(),
        vec![6, 0, 0, 0, opcode::ERROR, 5, 2, 0, 0xC3, 0xA9]
    );
}

#[test]
fn text_comes_back_in_every_script() {
    assert_rt(Frame::CreateTopic {
        name: "naïve Ω 試験 🦀".into(),
        num_partitions: 1,
    });
}

#[test]
fn malformed_text_is_replaced() {
    let mut raw = Frame::CreateTopic { name: "abc".into(), num_partitions: 1 }.encode();
    raw[8] = 0xFF; // the second character
    assert_eq!(
        Frame::decode(raw).unwrap(),
        Frame::CreateTopic { name: "a\u{FFFD}c".into(), num_partitions: 1 }
    );
}

#[test]
fn bytes_behind_a_frame_do_not_matter() {
    let mut raw = Frame::ProduceAck { offset: 3 }.encode();
    raw.extend_from_slice(b"and more");
    assert_eq!(Frame::decode(raw).unwrap(), Frame::ProduceAck { offset: 3 });
}

#[test]
fn a_long_name_keeps_only_the_low_bytes_of_its_length() {
    let raw = Frame::CreateTopic { name: "x".repeat(65_537), num_partitions: 1 }.encode();
    assert_eq!(raw[5..7], [1, 0]);
    assert_eq!(raw.len(), 4 + 1 + 2 + 65_537 + 4);
    assert_eq!(
        Frame::decode(raw).unwrap(),
        Frame::CreateTopic { name: "x".into(), num_partitions: 0x78787878 }
    );
}

#[test]
fn an_unknown_kind_of_response_is_refused() {
    assert!(matches!(
        Frame::decode(vec![2, 0, 0, 0, 0x80, 3]),
        Err(ProtocolError::UnknownResponseKind(3))
    ));
}

#[test]
fn a_frame_that_is_too_large_is_refused() {
    let mut raw = vec![0u8; 5];
    raw[0..4].copy_from_slice(&(MAX_FRAME_BYTES + 1).to_le_bytes());
    assert!(is_whole(&raw));
    assert!(matches!(
        Frame::decode(raw),
        Err(ProtocolError::FrameTooLarge(67_108_865))
    ));
}

#[test]
fn frames_that_are_cut_short_are_told_apart() {
    let frames = vec![
        Frame::Produce { topic: "ab".into(), partition: 1, payload: vec![1, 2] },
        Frame::Fetch { topic: "ab".into(), partition: 1, offset: 2 },
        Frame::CreateTopic { name: "ab".into(), num_partitions: 1 },
        Frame::CommitOffset { group: "g".into(), topic: "t".into(), partition: 1, offset: 2 },
        Frame::Ack,
        Frame::ProduceAck { offset: 1 },
        Frame::FetchData { offset: 1, payload: vec![1, 2] },
        Frame::Error { code: 1, message: "ab".into() },
    ];
    for frame in frames {
        let raw = frame.encode();
        assert!(is_whole(&raw));
        for n in 5..raw.len() {
            assert!(!is_whole(&raw[..n]), "{:?} cut to {}", frame, n);
        }
        assert!(is_whole(&raw[..4]));
    }
}

#[test]
fn a_frame_is_read_by_its_length() {
    let raw = Frame::ProduceAck { offset: 77 }.encode();
    let len = read_frame_len(&raw[..4]).unwrap();
    assert_eq!(len, 10);
    assert_eq!(read_frame_joined(&raw[..4], &raw[4..4 + len]), raw);
    assert_eq!(read_frame_len(&MAX_FRAME_BYTES.to_le_bytes()), Ok(67_108_864));
    assert_eq!(
        read_frame_len(&(MAX_FRAME_BYTES + 1).to_le_bytes()),
        Err("frame too large: 67108865 bytes".to_string())
    );
}

// ── Words ─────────────────────────────────────────────────────────────────────

#[test]
fn protocol_errors_are_put_in_words() {
    assert_eq!(ProtocolError::Io("gone".into()).to_string(), "io: gone");
    assert_eq!(ProtocolError::UnknownOpcode(0xAA).to_string(), "unknown opcode: 0xaa");
    assert_eq!(ProtocolError::UnknownOpcode(7).to_string(), "unknown opcode: 0x07");
    assert_eq!(
        ProtocolError::UnknownResponseKind(3).to_string(),
        "unknown response kind: 0x03"
    );
    assert_eq!(
        ProtocolError::FrameTooLarge(67_108_865).to_string(),
        "frame too large: 67108865 bytes"
    );
    assert_eq!(ProtocolError::TooShort.to_string(), "frame too short");
}

#[test]
fn frames_are_shown_in_full() {
    assert_eq!(
        Frame::Produce { topic: "a\"b\n".into(), partition: 2, payload: b"x\"\\\n\r\t\0 ~\x7f\xff".to_vec() }
            .shown(),
        "Produce { topic: \"a\\\"b\\n\", partition: 2, payload: b\"x\\\"\\\\\\n\\r\\t\\0 ~\\x7f\\xff\" }"
    );
    assert_eq!(
        Frame::Fetch { topic: "t".into(), partition: 2, offset: 3 }.shown(),
        "Fetch { topic: \"t\", partition: 2, offset: 3 }"
    );
    assert_eq!(
        Frame::CreateTopic { name: "t".into(), num_partitions: 20 }.shown(),
        "CreateTopic { name: \"t\", num_partitions: 20 }"
    );
    assert_eq!(
        Frame::CommitOffset { group: "g".into(), topic: "t".into(), partition: 0, offset: 9 }.shown(),
        "CommitOffset { group: \"g\", topic: \"t\", partition: 0, offset: 9 }"
    );
    assert_eq!(Frame::Ack.shown(), "Ack");
    assert_eq!(Frame::ProduceAck { offset: 5 }.shown(), "ProduceAck { offset: 5 }");
    assert_eq!(
        Frame::FetchData { offset: 1, payload: Vec::new() }.shown(),
        "FetchData { offset: 1, payload: b\"\" }"
    );
    assert_eq!(
        Frame::Error { code: 255, message: "no".into() }.shown(),
        "Error { code: 255, message: \"no\" }"
    );
}
