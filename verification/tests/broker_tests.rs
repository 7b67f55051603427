use streamforge::broker::consumer_group::ConsumerGroupCoordinator;
use streamforge::broker::topic::{partition_dir, TopicManager};
use streamforge::broker::BrokerError;
use streamforge::compression::lz4::{answer, decode_batch, encode_batch, is_decompressible};
use streamforge::compression::{compress, compress_batch, decompress, decompress_batch};
use streamforge::log::directory::StoredFile;
use streamforge::log::{LogConfig, LogError};

fn test_config() -> LogConfig {
    LogConfig {
        max_segment_bytes: 4 * 1024 * 1024,
        index_interval: 4,
    }
}

/// The files of so many directories that were not there before.
fn new_dirs(n: u32) -> Result<Vec<Vec<StoredFile>>, LogError> {
    Ok((0..n).map(|_| Vec::new()).collect())
}

// ── TopicManager tests ────────────────────────────────────────────────────────

#[test]
fn test_topic_manager_create_and_append() {
    let mut mgr = TopicManager::new(test_config());

    mgr.create_topic("events", 2, new_dirs(2)).unwrap();
    let log = mgr.get_partition_mut("events", 0).unwrap();
    let offset = log.append(b"hello");
    assert_eq!(offset, 0);
}

#[test]
fn test_topic_manager_multiple_partitions_independent() {
    let mut mgr = TopicManager::new(test_config());

    mgr.create_topic("multi", 3, new_dirs(3)).unwrap();

    // Append to partition 0 and 2 separately.
    mgr.get_partition_mut("multi", 0).unwrap().append(b"p0-msg0");
    mgr.get_partition_mut("multi", 2).unwrap().append(b"p2-msg0");
    mgr.get_partition_mut("multi", 0).unwrap().append(b"p0-msg1");

    assert_eq!(mgr.get_partition_mut("multi", 0).unwrap().next_offset(), 2);
    assert_eq!(mgr.get_partition_mut("multi", 1).unwrap().next_offset(), 0);
    assert_eq!(mgr.get_partition_mut("multi", 2).unwrap().next_offset(), 1);
}

#[test]
fn test_topic_manager_get_or_create_auto_creates_topic() {
    let mut mgr = TopicManager::new(test_config());

    // Topic "auto" does not exist yet.
    let log = mgr.get_or_create_partition_mut("auto", 0, new_dirs(1)).unwrap();
    log.append(b"auto-created");
    assert_eq!(mgr.num_partitions("auto"), Some(1));
}

#[test]
fn test_topic_manager_partition_out_of_range() {
    let mut mgr = TopicManager::new(test_config());

    mgr.create_topic("small", 1, new_dirs(1)).unwrap();

    // Only partition 0 exists.
    assert!(matches!(
        mgr.get_partition_mut("small", 1),
        Err(BrokerError::PartitionOutOfRange(1, _, 1))
    ));
}

#[test]
fn test_topic_manager_unknown_topic_returns_not_found() {
    let mut mgr = TopicManager::new(test_config());

    assert!(matches!(
        mgr.get_partition_mut("ghost", 0),
        Err(BrokerError::TopicNotFound(_))
    ));
}

#[test]
fn test_topic_manager_duplicate_create_returns_error() {
    let mut mgr = TopicManager::new(test_config());

    mgr.create_topic("dup", 2, new_dirs(2)).unwrap();
    assert!(matches!(
        mgr.create_topic("dup", 4, new_dirs(4)),
        Err(BrokerError::TopicAlreadyExists(_, 2))
    ));
    assert_eq!(mgr.num_partitions("dup"), Some(2));
}

#[test]
fn test_topic_manager_topic_names() {
    let mut mgr = TopicManager::new(test_config());

    mgr.create_topic("alpha", 1, new_dirs(1)).unwrap();
    mgr.create_topic("beta", 2, new_dirs(2)).unwrap();

    let mut names = mgr.topic_names();
    names.sort();
    assert_eq!(names, vec!["alpha", "beta"]);
}

#[test]
fn a_topic_is_created_with_one_partition_more_than_the_one_asked_for() {
    let mut mgr = TopicManager::new(test_config());
    let log = mgr.get_or_create_partition_mut("auto", 3, new_dirs(4)).unwrap();
    assert_eq!(log.append(b"x"), 0);
    assert_eq!(mgr.num_partitions("auto"), Some(4));
    assert_eq!(mgr.num_partitions("other"), None);
    assert_eq!(mgr.get_partition_mut("auto", 3).unwrap().next_offset(), 1);
    // It is there now, and does not grow.
    match mgr.get_or_create_partition_mut("auto", 4, new_dirs(5)) {
        Err(e) => assert_eq!(
            e.to_string(),
            "partition 4 out of range for topic 'auto' (4 partitions)"
        ),
        Ok(_) => panic!("there is no such partition"),
    }
}

#[test]
fn a_topic_whose_directories_cannot_be_had_is_not_created() {
    let mut mgr = TopicManager::new(test_config());
    let e = mgr
        .create_topic("t", 1, Err(LogError::Io("disk full".to_string())))
        .unwrap_err();
    assert_eq!(e.to_string(), "log error: io error: disk full");
    assert_eq!(mgr.num_partitions("t"), None);
    assert!(mgr
        .get_or_create_partition_mut("t", 0, Err(LogError::Empty))
        .is_err());
    assert!(mgr.topic_names().is_empty());
}

#[test]
fn a_topic_takes_up_what_its_directories_hold() {
    let mut data = vec![1, 0, 0, 0];
    data.extend_from_slice(&0xE8B7BE43u32.to_le_bytes()); // the checksum of "a"
    data.push(b'a');
    let stored = vec![
        Vec::new(),
        vec![StoredFile {
            name: "00000000000000000009.log".to_string(),
            data,
        }],
    ];
    let mut mgr = TopicManager::new(test_config());
    mgr.create_topic("old", 2, Ok(stored)).unwrap();
    assert_eq!(mgr.get_partition_mut("old", 0).unwrap().next_offset(), 0);
    let log = mgr.get_partition_mut("old", 1).unwrap();
    assert_eq!(log.next_offset(), 10);
    assert_eq!(log.read(9).unwrap().file, "00000000000000000009.log");
    assert!(log.read(10).is_err());
}

#[test]
fn partitions_have_directories_of_their_own() {
    assert_eq!(partition_dir(0), "partition-0");
    assert_eq!(partition_dir(4_294_967_295), "partition-4294967295");
}

#[test]
fn broker_errors_are_put_in_words() {
    assert_eq!(
        BrokerError::Log(LogError::Empty).to_string(),
        "log error: log is empty"
    );
    assert_eq!(
        BrokerError::TopicNotFound("ghost".into()).to_string(),
        "topic 'ghost' not found"
    );
    assert_eq!(
        BrokerError::PartitionOutOfRange(1, "small".into(), 1).to_string(),
        "partition 1 out of range for topic 'small' (1 partitions)"
    );
    assert_eq!(
        BrokerError::TopicAlreadyExists("dup".into(), 2).to_string(),
        "topic 'dup' already exists with 2 partitions"
    );
}

// ── ConsumerGroupCoordinator tests ────────────────────────────────────────────

#[test]
fn test_coordinator_commit_and_fetch() {
    let mut coord = ConsumerGroupCoordinator::new();
    coord.commit("g1", "events", 0, 42);
    assert_eq!(coord.fetch_offset("g1", "events", 0), Some(42));
}

#[test]
fn test_coordinator_fetch_non_existent_returns_none() {
    let coord = ConsumerGroupCoordinator::new();
    assert_eq!(coord.fetch_offset("nobody", "nothing", 0), None);
}

#[test]
fn test_coordinator_groups_are_independent() {
    let mut coord = ConsumerGroupCoordinator::new();
    coord.commit("g1", "t", 0, 10);
    coord.commit("g2", "t", 0, 99);

    assert_eq!(coord.fetch_offset("g1", "t", 0), Some(10));
    assert_eq!(coord.fetch_offset("g2", "t", 0), Some(99));
}

#[test]
fn test_coordinator_partitions_tracked_independently() {
    let mut coord = ConsumerGroupCoordinator::new();
    coord.commit("g1", "t", 0, 5);
    coord.commit("g1", "t", 1, 7);
    coord.commit("g1", "t", 2, 3);

    assert_eq!(coord.fetch_offset("g1", "t", 0), Some(5));
    assert_eq!(coord.fetch_offset("g1", "t", 1), Some(7));
    assert_eq!(coord.fetch_offset("g1", "t", 2), Some(3));
}

#[test]
fn test_coordinator_overwrite_advances_offset() {
    let mut coord = ConsumerGroupCoordinator::new();
    coord.commit("g", "t", 0, 1);
    coord.commit("g", "t", 0, 50);
    assert_eq!(coord.fetch_offset("g", "t", 0), Some(50));
}

#[test]
fn a_commit_may_go_back_and_topics_are_told_apart() {
    let mut coord = ConsumerGroupCoordinator::default();
    coord.commit("g", "t", 0, 50);
    coord.commit("g", "u", 0, 7);
    coord.commit("g", "t", 0, 2);
    assert_eq!(coord.fetch_offset("g", "t", 0), Some(2));
    assert_eq!(coord.fetch_offset("g", "u", 0), Some(7));
    assert_eq!(coord.fetch_offset("t", "g", 0), None);
}

// ── Compression tests ─────────────────────────────────────────────────────────

#[test]
fn test_compress_decompress_roundtrip() {
    let data = b"the quick brown fox jumps over the lazy dog";
    let compressed = compress(data);
    let decompressed = decompress(&compressed).unwrap();
    assert_eq!(decompressed, data);
}

#[test]
fn test_compress_empty_payload() {
    let compressed = compress(b"");
    let decompressed = decompress(&compressed).unwrap();
    assert_eq!(decompressed, b"");
}

#[test]
fn test_compress_large_payload() {
    let data: Vec<u8> = (0..100_000).map(|i| (i % 256) as u8).collect();
    let compressed = compress(&data);
    assert!(
        compressed.len() < data.len(),
        "compressed should be smaller than original"
    );
    let decompressed = decompress(&compressed).unwrap();
    assert_eq!(decompressed, data);
}

#[test]
fn test_decompress_bad_data_returns_error() {
    let garbage = b"\xDE\xAD\xBE\xEF\x00\x00\x00\x00";
    assert!(decompress(garbage).is_err());
}

#[test]
fn test_compress_batch_single_message() {
    let messages: &[&[u8]] = &[b"only message"];
    let compressed = compress_batch(messages);
    let decoded = decompress_batch(&compressed).unwrap();
    assert_eq!(decoded.len(), 1);
    assert_eq!(decoded[0], b"only message");
}

#[test]
fn test_compress_batch_multiple_messages() {
    let messages: &[&[u8]] = &[b"alpha", b"beta", b"gamma delta epsilon"];
    let compressed = compress_batch(messages);
    let decoded = decompress_batch(&compressed).unwrap();
    assert_eq!(decoded.len(), 3);
    assert_eq!(decoded[0], b"alpha");
    assert_eq!(decoded[1], b"beta");
    assert_eq!(decoded[2], b"gamma delta epsilon");
}

#[test]
fn test_compress_batch_empty_messages_in_batch() {
    let messages: &[&[u8]] = &[b"first", b"", b"last"];
    let compressed = compress_batch(messages);
    let decoded = decompress_batch(&compressed).unwrap();
    assert_eq!(decoded.len(), 3);
    assert_eq!(decoded[1], b"");
}

#[test]
fn test_decompress_batch_bad_data_returns_error() {
    assert!(decompress_batch(b"\xFF\xFF\xFF\xFF").is_err());
}

#[test]
fn compressed_data_starts_with_its_length_and_stays_within_its_bound() {
    for n in [0usize, 1, 14, 15, 16, 300, 70_000] {
        let data: Vec<u8> = (0..n).map(|i| (i * i % 251) as u8).collect();
        let compressed = compress(&data);
        assert_eq!(compressed[..4], (n as u32).to_le_bytes());
        assert!(compressed.len() <= 24 + n * 110 / 100);
        assert!(is_decompressible(&compressed));
        assert_eq!(decompress(&compressed).unwrap(), data);
    }
}

#[test]
fn a_buffer_without_a_length_is_refused_with_a_reason() {
    match decompress(b"\x01\x02") {
        Err(LogError::CorruptRecord(text)) => {
            assert_eq!(text, "lz4 decompress: expected another byte, found none")
        }
        other => panic!("got {:?}", other),
    }
    match answer(Err("why".to_string())) {
        Err(LogError::CorruptRecord(text)) => assert_eq!(text, "lz4 decompress: why"),
        other => panic!("got {:?}", other),
    }
    assert_eq!(answer(Ok(vec![1, 2])).unwrap(), vec![1, 2]);
}

#[test]
fn overlong_lengths_are_told_beforehand() {
    // A length field of literals, behind a token that calls for one.
    let mut input = vec![0, 0, 0, 0, 0xF0];
    input.extend(std::iter::repeat(0xFF).take(16_843_009));
    assert!(is_decompressible(&input));
    input.push(0);
    assert!(is_decompressible(&input));
    assert!(decompress(&input).is_err());
    *input.last_mut().unwrap() = 1;
    assert!(!is_decompressible(&input));
    // The same bytes where no length field stands.
    input[4] = 0;
    assert!(is_decompressible(&input));
    assert!(decompress(&input).is_err());
    // A length field of a match, behind one literal and its distance.
    let mut input = vec![9, 0, 0, 0, 0x1F, b'a', 1, 0];
    input.extend(std::iter::repeat(0xFF).take(16_843_009));
    input.push(1);
    assert!(!is_decompressible(&input));
    // A distance that reaches back too far is found out behind the field, one of
    // zero before it.
    input[6] = 2;
    assert!(!is_decompressible(&input));
    input[6] = 0;
    assert!(is_decompressible(&input));
    match decompress(&input) {
        Err(LogError::CorruptRecord(text)) => {
            assert_eq!(text, "lz4 decompress: 0 is not a valid match offset")
        }
        other => panic!("got {:?}", other),
    }
}

#[test]
fn a_long_run_of_the_largest_byte_survives_compression() {
    let mut data = vec![0xFF; 17_000_000];
    data.push(7);
    let compressed = compress(&data);
    assert!(is_decompressible(&compressed));
    assert_eq!(decompress(&compressed).unwrap(), data);
    let messages: &[&[u8]] = &[&data, b"", &data[16_999_990..]];
    let blob = compress_batch(messages);
    assert!(is_decompressible(&blob));
    let decoded = decompress_batch(&blob).unwrap();
    assert_eq!(decoded.len(), 3);
    assert_eq!(decoded[0], data);
    assert_eq!(decoded[2], data[16_999_990..]);
}

#[test]
fn a_batch_has_its_exact_bytes() {
    let messages: &[&[u8]] = &[b"ab", b"", b"c"];
    let raw = encode_batch(messages);
    assert_eq!(
        raw,
        vec![3, 0, 0, 0, 2, 0, 0, 0, b'a', b'b', 0, 0, 0, 0, 1, 0, 0, 0, b'c']
    );
    assert_eq!(
        decode_batch(raw).unwrap(),
        vec![b"ab".to_vec(), Vec::new(), b"c".to_vec()]
    );
    assert_eq!(encode_batch(&[]), vec![0, 0, 0, 0]);
    assert!(decode_batch(vec![0, 0, 0, 0, 99]).unwrap().is_empty());
}

#[test]
fn a_batch_that_is_cut_short_is_refused() {
    let reason = |raw: &[u8]| match decode_batch(raw.to_vec()) {
        Err(LogError::CorruptRecord(text)) => text,
        other => panic!("got {:?}", other),
    };
    assert_eq!(reason(&[1, 0, 0]), "batch header truncated");
    assert_eq!(reason(&[1, 0, 0, 0, 2, 0, 0]), "batch entry length truncated");
    assert_eq!(
        reason(&[1, 0, 0, 0, 2, 0, 0, 0, 7]),
        "batch entry payload truncated"
    );
    assert_eq!(
        reason(&[2, 0, 0, 0, 0, 0, 0, 0]),
        "batch entry length truncated"
    );
    // The same through compression.
    match decompress_batch(&compress(b"abc")) {
        Err(LogError::CorruptRecord(text)) => assert_eq!(text, "batch header truncated"),
        other => panic!("got {:?}", other),
    }
}

#[test]
fn a_batch_is_compressed_as_its_framing() {
    let messages: &[&[u8]] = &[b"ab", b""];
    assert_eq!(
        compress_batch(messages),
        compress(&[2, 0, 0, 0, 2, 0, 0, 0, 97, 98, 0, 0, 0, 0])
    );
}
