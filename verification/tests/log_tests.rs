use streamforge::log::directory::{idx_path, seg_path, FileOp, StoredFile};
use streamforge::log::commit_log::AppendStep;
use streamforge::log::record::{Chunk, Cursor, Progress};
use streamforge::log::{Log, LogConfig, LogError, SegmentFiles};

fn small_config() -> LogConfig {
    LogConfig {
        max_segment_bytes: 512, // tiny segments so rotation tests are fast
        index_interval: 4,
    }
}

fn default_config() -> LogConfig {
    LogConfig {
        max_segment_bytes: 64 * 1024 * 1024,
        index_interval: 4,
    }
}

// ─── A directory in memory ────────────────────────────────────────────────────

struct Dir {
    files: Vec<StoredFile>,
}

impl Dir {
    fn new() -> Dir {
        Dir { files: Vec::new() }
    }

    fn copy(&self) -> Vec<StoredFile> {
        self.files
            .iter()
            .map(|f| StoredFile {
                name: f.name.clone(),
                data: f.data.clone(),
            })
            .collect()
    }

    fn apply(&mut self, op: FileOp) {
        let (name, data, append) = match op {
            FileOp::Write { name, data } => (name, data, false),
            FileOp::Append { name, data } => (name, data, true),
        };
        match self.files.iter_mut().find(|f| f.name == name) {
            Some(file) => {
                if !append {
                    file.data.clear();
                }
                file.data.extend_from_slice(&data);
            }
            None => self.files.push(StoredFile { name, data }),
        }
    }

    fn open(&mut self, config: LogConfig) -> Log {
        for op in Log::open_ops(&self.files) {
            self.apply(op);
        }
        assert!(Log::can_open(&self.files));
        Log::open(self.copy(), config)
    }

    fn contents(&self, name: &str) -> Vec<u8> {
        match self.files.iter().find(|f| f.name == name) {
            Some(file) => file.data.clone(),
            None => Vec::new(),
        }
    }

    fn append(&mut self, log: &mut Log, payload: &[u8]) -> u64 {
        let mut rotated = false;
        loop {
            match log.append_step(payload, rotated) {
                AppendStep::Rotate { ops, base } => {
                    for op in ops {
                        self.apply(op);
                    }
                    log.rotate(SegmentFiles {
                        data: self.contents(&seg_path(base)),
                        index: self.contents(&idx_path(base)),
                    });
                    rotated = true;
                }
                AppendStep::Write(op) => {
                    self.apply(op);
                    assert!(log.has_room(payload));
                    return log.append(payload);
                }
            }
        }
    }

    fn read(&self, log: &Log, offset: u64) -> Result<Vec<u8>, LogError> {
        let reading = log.read(offset)?;
        let data = self.contents(&reading.file);
        let mut cursor = reading.cursor;
        loop {
            let (pos, len) = cursor.request();
            let start = data.len().min(pos as usize);
            let end = data.len().min(start + len);
            match cursor.take(Chunk::Bytes(data[start..end].to_vec())) {
                Progress::Next(next) => cursor = next,
                Progress::Done(outcome) => return outcome,
            }
        }
    }

    fn names(&self, ending: &str) -> Vec<String> {
        let mut names: Vec<String> = self
            .files
            .iter()
            .map(|f| f.name.clone())
            .filter(|n| n.ends_with(ending))
            .collect();
        names.sort();
        names
    }

    fn data(&mut self, name: &str) -> &mut Vec<u8> {
        &mut self.files.iter_mut().find(|f| f.name == name).unwrap().data
    }
}

// ─── Basic append / read ─────────────────────────────────────────────────────

#[test]
fn test_append_single_record_and_read_back() {
    let mut dir = Dir::new();
    let mut log = dir.open(default_config());

    let offset = dir.append(&mut log, b"hello");
    assert_eq!(offset, 0);

    let payload = dir.read(&log, 0).unwrap();
    assert_eq!(payload, b"hello");
}

#[test]
fn test_append_multiple_records_read_in_order() {
    let mut dir = Dir::new();
    let mut log = dir.open(default_config());

    let messages: Vec<&[u8]> = vec![b"alpha", b"beta", b"gamma", b"delta"];
    let mut offsets = Vec::new();
    for msg in &messages {
        offsets.push(dir.append(&mut log, msg));
    }

    assert_eq!(offsets, vec![0, 1, 2, 3]);
    for (i, msg) in messages.iter().enumerate() {
        let payload = dir.read(&log, i as u64).unwrap();
        assert_eq!(&payload, msg);
    }
}

#[test]
fn test_sequential_offsets_are_monotonically_increasing() {
    let mut dir = Dir::new();
    let mut log = dir.open(default_config());

    let mut prev = u64::MAX;
    for i in 0u32..20 {
        let offset = dir.append(&mut log, format!("record-{}", i).as_bytes());
        if prev != u64::MAX {
            assert_eq!(offset, prev + 1, "gap in offsets at record {}", i);
        }
        prev = offset;
    }
}

// ─── Empty log ────────────────────────────────────────────────────────────────

#[test]
fn test_empty_log_returns_error_on_read() {
    let mut dir = Dir::new();
    let log = dir.open(default_config());

    let result = dir.read(&log, 0);
    assert!(
        matches!(result, Err(LogError::OffsetOutOfRange(0))),
        "expected OffsetOutOfRange, got {:?}",
        result
    );
}

#[test]
fn test_read_out_of_range_after_append() {
    let mut dir = Dir::new();
    let mut log = dir.open(default_config());

    dir.append(&mut log, b"only record");
    let result = dir.read(&log, 1); // offset 1 does not exist yet
    assert!(matches!(result, Err(LogError::OffsetOutOfRange(1))));
}

// ─── Segment rotation ─────────────────────────────────────────────────────────

#[test]
fn test_segment_rotation_when_max_bytes_exceeded() {
    let mut dir = Dir::new();
    let mut log = dir.open(small_config());

    // Each record is 8 (header) + payload bytes. With max_segment_bytes=512
    // and 50-byte payloads (58 bytes/record), we will rotate after ~8 records.
    let payload = vec![b'x'; 50];
    let mut offsets = Vec::new();
    for _ in 0..20 {
        offsets.push(dir.append(&mut log, &payload));
    }

    // All records must be readable regardless of which segment they landed in.
    for (i, &offset) in offsets.iter().enumerate() {
        let data = dir.read(&log, offset).unwrap();
        assert_eq!(data, payload, "mismatch at index {}", i);
    }

    // There must be more than one .log file in the directory.
    let seg_files = dir.names(".log");
    assert!(
        seg_files.len() > 1,
        "expected multiple segments, found {}",
        seg_files.len()
    );
}

#[test]
fn test_offsets_span_segment_boundary() {
    let mut dir = Dir::new();
    let mut log = dir.open(small_config());

    let payload = vec![b'Z'; 60]; // forces rotation quickly
    for _ in 0..15 {
        dir.append(&mut log, &payload);
    }
    // Read across segment boundary
    for i in 0..15u64 {
        let data = dir.read(&log, i).unwrap();
        assert_eq!(data, payload);
    }
}

// ─── CRC validation ───────────────────────────────────────────────────────────

#[test]
fn test_crc_mismatch_detected_on_corruption() {
    let mut dir = Dir::new();
    let mut log = dir.open(default_config());

    dir.append(&mut log, b"important data");

    // Drop the log so that only its files are left.
    drop(log);

    // Find the .log file and corrupt one byte in the payload area.
    let log_file = dir.names(".log")[0].clone();
    let data = dir.data(&log_file);
    // Payload starts at byte 8; flip the first byte.
    if data.len() > 8 {
        data[8] ^= 0xFF;
    }

    let log2 = dir.open(default_config());
    // Recovery re-scans but doesn't validate CRC, so read must catch it.
    let result = dir.read(&log2, 0);
    assert!(
        matches!(result, Err(LogError::CrcMismatch { .. })),
        "expected CrcMismatch, got {:?}",
        result
    );
}

// ─── Large payloads ───────────────────────────────────────────────────────────

#[test]
fn log_tests_test_large_payload_roundtrip() {
    let mut dir = Dir::new();
    let mut log = dir.open(default_config());

    let payload: Vec<u8> = (0..1_000_000).map(|i| (i % 251) as u8).collect();
    let offset = dir.append(&mut log, &payload);
    let back = dir.read(&log, offset).unwrap();
    assert_eq!(back, payload);
}

#[test]
fn test_empty_payload_roundtrip() {
    let mut dir = Dir::new();
    let mut log = dir.open(default_config());

    let offset = dir.append(&mut log, b"");
    let back = dir.read(&log, offset).unwrap();
    assert_eq!(back, b"");
}

// ─── Index / sparse lookup ────────────────────────────────────────────────────

#[test]
fn test_index_sparse_lookup_finds_correct_record() {
    let mut dir = Dir::new();
    // index_interval=1 means every record is indexed → tests direct lookup
    let config = LogConfig {
        max_segment_bytes: 64 * 1024 * 1024,
        index_interval: 1,
    };
    let mut log = dir.open(config);

    for i in 0u32..32 {
        dir.append(&mut log, format!("record-{:04}", i).as_bytes());
    }
    // Read any record by offset using the dense index.
    for i in 0u64..32 {
        let data = dir.read(&log, i).unwrap();
        let expected = format!("record-{:04}", i);
        assert_eq!(String::from_utf8(data).unwrap(), expected);
    }
}

#[test]
fn test_index_sparse_lookup_with_large_interval() {
    let mut dir = Dir::new();
    let config = LogConfig {
        max_segment_bytes: 64 * 1024 * 1024,
        index_interval: 16, // only every 16th record is indexed
    };
    let mut log = dir.open(config);

    for i in 0u32..64 {
        dir.append(&mut log, format!("msg-{:04}", i).as_bytes());
    }
    // Read a record that falls between index entries (requires linear scan).
    for i in [7u64, 15, 23, 31, 47, 55, 63] {
        let data = dir.read(&log, i).unwrap();
        let expected = format!("msg-{:04}", i);
        assert_eq!(String::from_utf8(data).unwrap(), expected);
    }
}

// ─── Persistence / reopen ─────────────────────────────────────────────────────

#[test]
fn test_log_survives_reopen() {
    let mut dir = Dir::new();
    {
        let mut log = dir.open(default_config());
        for i in 0u32..10 {
            dir.append(&mut log, format!("persist-{}", i).as_bytes());
        }
    }
    // Re-open the same directory.
    let log2 = dir.open(default_config());
    for i in 0u64..10 {
        let data = dir.read(&log2, i).unwrap();
        let expected = format!("persist-{}", i);
        assert_eq!(String::from_utf8(data).unwrap(), expected);
    }
}

#[test]
fn test_next_offset_after_reopen_is_correct() {
    let mut dir = Dir::new();
    let expected_next = {
        let mut log = dir.open(default_config());
        for _ in 0..5 {
            dir.append(&mut log, b"x");
        }
        log.next_offset()
    };
    let log2 = dir.open(default_config());
    assert_eq!(log2.next_offset(), expected_next);
}

// ─── Property tests ───────────────────────────────────────────────────────────

/// Pseudo-random payloads: up to `most` of them, each of `shortest` bytes or more
/// and fewer than `longest`.
fn payloads(seed: u64, most: u64, shortest: u64, longest: u64) -> Vec<Vec<u8>> {
    let mut state = seed;
    let mut next = move || {
        state = state.wrapping_mul(6364136223846793005).wrapping_add(1442695040888963407);
        state >> 33
    };
    let count = 1 + next() % most;
    (0..count)
        .map(|_| {
            let len = shortest + next() % (longest - shortest);
            (0..len).map(|_| next() as u8).collect()
        })
        .collect()
}

/// Any sequence of appended payloads can be read back identically.
#[test]
fn prop_append_then_read_is_identity() {
    for seed in 0..64 {
        let payloads = payloads(seed, 31, 0, 512);
        let mut dir = Dir::new();
        let config = LogConfig {
            max_segment_bytes: 1024,
            index_interval: 4,
        };
        let mut log = dir.open(config);
        let mut offsets = Vec::new();
        for p in &payloads {
            offsets.push(dir.append(&mut log, p));
        }
        for (i, p) in payloads.iter().enumerate() {
            let back = dir.read(&log, offsets[i]).unwrap();
            assert_eq!(&back, p);
        }
    }
}

/// Offsets are always sequential with no gaps.
#[test]
fn prop_offsets_are_sequential_with_no_gaps() {
    for seed in 64..128 {
        let payloads = payloads(seed, 39, 1, 128);
        let mut dir = Dir::new();
        let config = LogConfig {
            max_segment_bytes: 512,
            index_interval: 8,
        };
        let mut log = dir.open(config);
        let mut offsets = Vec::new();
        for p in &payloads {
            offsets.push(dir.append(&mut log, p));
        }
        for (i, &off) in offsets.iter().enumerate() {
            assert_eq!(off, i as u64, "gap at index {}", i);
        }
    }
}

/// A log that was rotated, flushed and reopened in the middle reads back every
/// record, and goes on with the next offset.
#[test]
fn reopened_log_goes_on_where_it_was() {
    for seed in 128..160 {
        let payloads = payloads(seed, 60, 0, 100);
        let config = LogConfig {
            max_segment_bytes: 300,
            index_interval: 3,
        };
        let mut dir = Dir::new();
        let mut log = dir.open(config);
        for (i, p) in payloads.iter().enumerate() {
            if i % 7 == 3 {
                let op = log.flush_index();
                dir.apply(op);
            }
            if i % 5 == 4 {
                log = dir.open(config);
                assert_eq!(log.next_offset(), i as u64);
            }
            assert_eq!(dir.append(&mut log, p), i as u64);
        }
        assert_eq!(log.first_offset(), 0);
        for (i, p) in payloads.iter().enumerate() {
            assert_eq!(&dir.read(&log, i as u64).unwrap(), p);
        }
    }
}

/// After a reopen the index knows of none of the records before it, and yet they
/// are found.
#[test]
fn records_before_the_first_index_entry_are_found() {
    let mut dir = Dir::new();
    let mut log = dir.open(default_config());
    for i in 0u8..3 {
        dir.append(&mut log, &[i]);
    }
    let mut log = dir.open(default_config());
    for i in 3u8..9 {
        dir.append(&mut log, &[i]);
    }
    for i in 0u8..9 {
        assert_eq!(dir.read(&log, i as u64).unwrap(), vec![i]);
    }
}

// ─── Files ────────────────────────────────────────────────────────────────────

#[test]
fn first_record_has_its_exact_bytes_on_disk() {
    let mut dir = Dir::new();
    let mut log = dir.open(default_config());
    assert_eq!(dir.names(""), vec!["00000000000000000000.log"]);
    dir.append(&mut log, b"123456789");
    let mut expected = vec![9, 0, 0, 0, 0x26, 0x39, 0xF4, 0xCB];
    expected.extend_from_slice(b"123456789");
    assert_eq!(*dir.data("00000000000000000000.log"), expected);
}

#[test]
fn rotation_stores_the_index_and_starts_a_file() {
    let mut dir = Dir::new();
    let config = LogConfig {
        max_segment_bytes: 20,
        index_interval: 2,
    };
    let mut log = dir.open(config);
    for i in 0u8..4 {
        dir.append(&mut log, &[i, i]); // ten bytes a record
    }
    assert_eq!(
        dir.names(".log"),
        vec!["00000000000000000000.log", "00000000000000000002.log"]
    );
    assert_eq!(dir.names(".idx"), vec!["00000000000000000000.idx"]);
    assert_eq!(*dir.data("00000000000000000000.idx"), vec![0u8; 16]);
    let op = log.flush_index();
    dir.apply(op);
    let mut entry = vec![0u8; 16];
    entry[0] = 2;
    assert_eq!(*dir.data("00000000000000000002.idx"), entry);
    assert_eq!(dir.read(&log, 3).unwrap(), vec![3, 3]);
}

#[test]
fn a_log_may_start_after_offset_zero() {
    let mut dir = Dir::new();
    let config = LogConfig {
        max_segment_bytes: 20,
        index_interval: 2,
    };
    let mut log = dir.open(config);
    for i in 0u8..4 {
        dir.append(&mut log, &[i, i]);
    }
    dir.files.retain(|f| !f.name.starts_with("00000000000000000000"));
    let log = dir.open(config);
    assert_eq!(log.first_offset(), 2);
    assert_eq!(log.next_offset(), 4);
    assert_eq!(dir.read(&log, 2).unwrap(), vec![2, 2]);
    assert!(matches!(dir.read(&log, 1), Err(LogError::OffsetOutOfRange(1))));
    assert!(matches!(dir.read(&log, 4), Err(LogError::OffsetOutOfRange(4))));
}

#[test]
fn files_of_other_names_are_passed_over() {
    let mut dir = Dir::new();
    for name in ["notes.txt", "abc.log", ".log", "1x.log", "99999999999999999999.log"] {
        dir.files.push(StoredFile {
            name: name.to_string(),
            data: vec![1, 2, 3],
        });
    }
    let mut log = dir.open(default_config());
    assert_eq!(log.first_offset(), 0);
    assert_eq!(dir.append(&mut log, b"a"), 0);
    assert_eq!(dir.read(&log, 0).unwrap(), b"a");
}

#[test]
fn an_unpadded_name_gives_a_padded_file() {
    let mut dir = Dir::new();
    dir.files.push(StoredFile {
        name: "5.log.log".to_string(),
        data: Vec::new(),
    });
    let log = dir.open(default_config());
    assert_eq!(log.first_offset(), 5);
    assert_eq!(log.next_offset(), 5);
    assert_eq!(dir.names(".log"), vec!["00000000000000000005.log", "5.log.log"]);
}

// ─── Damage ───────────────────────────────────────────────────────────────────

#[test]
fn truncated_payload_is_reported() {
    let mut dir = Dir::new();
    let mut log = dir.open(default_config());
    dir.append(&mut log, b"whole");
    dir.append(&mut log, b"cut short");
    let data = dir.data("00000000000000000000.log");
    data.truncate(data.len() - 1);
    let log = dir.open(default_config());
    assert_eq!(log.next_offset(), 2);
    assert_eq!(dir.read(&log, 0).unwrap(), b"whole");
    match dir.read(&log, 1) {
        Err(LogError::CorruptRecord(text)) => assert_eq!(text, "truncated payload"),
        other => panic!("got {:?}", other),
    }
}

#[test]
fn truncated_header_does_not_count_as_a_record() {
    let mut dir = Dir::new();
    let mut log = dir.open(default_config());
    dir.append(&mut log, b"whole");
    dir.append(&mut log, b"");
    let data = dir.data("00000000000000000000.log");
    data.truncate(data.len() - 1);
    let log = dir.open(default_config());
    assert_eq!(log.next_offset(), 1);
}

#[test]
fn index_past_the_data_is_reported() {
    let mut dir = Dir::new();
    let mut log = dir.open(default_config());
    dir.append(&mut log, b"a");
    dir.append(&mut log, b"b");
    let mut entry = vec![0u8; 16];
    entry[8] = 200;
    dir.files.push(StoredFile {
        name: "00000000000000000000.idx".to_string(),
        data: entry,
    });
    let log = dir.open(default_config());
    match dir.read(&log, 0) {
        Err(LogError::CorruptRecord(text)) => assert_eq!(text, "truncated header"),
        other => panic!("got {:?}", other),
    }
    match dir.read(&log, 1) {
        Err(LogError::CorruptRecord(text)) => assert_eq!(text, "truncated during scan"),
        other => panic!("got {:?}", other),
    }
}

#[test]
fn checksums_are_reported_as_stored_and_as_found() {
    let mut dir = Dir::new();
    let mut log = dir.open(default_config());
    dir.append(&mut log, b"123456789");
    dir.data("00000000000000000000.log")[4] = 0x27;
    let log = dir.open(default_config());
    match dir.read(&log, 0) {
        Err(e) => {
            assert_eq!(
                e.to_string(),
                "crc mismatch: expected 0xcbf43927, got 0xcbf43926"
            );
            assert!(matches!(
                e,
                LogError::CrcMismatch {
                    expected: 0xCBF4_3927,
                    actual: 0xCBF4_3926
                }
            ));
        }
        Ok(payload) => panic!("got {:?}", payload),
    }
}

#[test]
fn every_changed_byte_of_a_payload_is_detected() {
    let payload = b"important data";
    let mut dir = Dir::new();
    let mut log = dir.open(default_config());
    dir.append(&mut log, b"before");
    dir.append(&mut log, payload);
    for i in 0..payload.len() {
        for flip in [0x01, 0x80, 0xFF] {
            dir.data("00000000000000000000.log")[14 + 8 + i] ^= flip;
            let damaged = dir.open(default_config());
            assert!(matches!(dir.read(&damaged, 1), Err(LogError::CrcMismatch { .. })));
            assert_eq!(dir.read(&damaged, 0).unwrap(), b"before");
            dir.data("00000000000000000000.log")[14 + 8 + i] ^= flip;
        }
    }
    assert_eq!({
        let log = dir.open(default_config());
        dir.read(&log, 1).unwrap()
    }, payload);
}

/// What is read is what the file holds at that time.
#[test]
fn a_read_sees_the_file_as_it_is() {
    let mut dir = Dir::new();
    let mut log = dir.open(default_config());
    dir.append(&mut log, b"one");
    dir.append(&mut log, b"two");
    dir.data("00000000000000000000.log")[8] ^= 0xFF;
    assert!(matches!(dir.read(&log, 0), Err(LogError::CrcMismatch { .. })));
    dir.data("00000000000000000000.log").truncate(11 + 9);
    match dir.read(&log, 1) {
        Err(LogError::CorruptRecord(text)) => assert_eq!(text, "truncated payload"),
        other => panic!("got {:?}", other),
    }
    dir.data("00000000000000000000.log").truncate(2);
    match dir.read(&log, 1) {
        Err(LogError::CorruptRecord(text)) => assert_eq!(text, "truncated during scan"),
        other => panic!("got {:?}", other),
    }
}

/// Two logs over one directory read each other's records.
#[test]
fn logs_over_one_directory_share_its_files() {
    let mut dir = Dir::new();
    let mut a = dir.open(default_config());
    let mut b = dir.open(default_config());
    assert_eq!(dir.append(&mut a, b"first"), 0);
    assert_eq!(dir.append(&mut b, b"second"), 0);
    assert_eq!(dir.read(&b, 0).unwrap(), b"first");
}

/// A record that was cut off keeps its offset and stays damaged; the next one goes to
/// the end of the file, where the index finds it.
#[test]
fn records_go_on_behind_one_that_was_cut_off() {
    let mut dir = Dir::new();
    let config = LogConfig {
        max_segment_bytes: 1000,
        index_interval: 1,
    };
    let mut log = dir.open(config);
    dir.append(&mut log, b"whole");
    dir.append(&mut log, b"cut off");
    dir.data("00000000000000000000.log").truncate(13 + 10);
    let mut log = dir.open(config);
    assert_eq!(log.next_offset(), 2);
    assert_eq!(dir.append(&mut log, b"after"), 2);
    assert_eq!(dir.read(&log, 2).unwrap(), b"after");
    assert_eq!(dir.read(&log, 0).unwrap(), b"whole");
    // The header still claims seven bytes, and what stands there is not the payload.
    assert!(matches!(dir.read(&log, 1), Err(LogError::CrcMismatch { .. })));
}

#[test]
fn faults_of_the_system_are_reported_as_they_are() {
    let seek = |skip| Cursor::Seek { pos: 5, skip };
    let outcome = |cursor: Cursor, chunk| match cursor.take(chunk) {
        Progress::Done(Err(e)) => e.to_string(),
        other => panic!("got {:?}", other),
    };
    let failed = |text: &str| Chunk::ReadFailed(text.to_string());
    let lost = |text: &str| Chunk::SeekFailed(text.to_string());
    assert_eq!(outcome(seek(1), lost("lost")), "io error: lost");
    assert_eq!(outcome(seek(0), lost("lost")), "io error: lost");
    assert_eq!(outcome(seek(0), failed("bad")), "io error: bad");
    assert_eq!(outcome(seek(1), failed("bad")), "corrupt record: truncated during scan");
    let payload = Cursor::Payload { pos: 13, length: 4, stored: 0 };
    assert_eq!(outcome(payload, failed("bad")), "io error: bad");
    assert_eq!(outcome(payload, Chunk::Bytes(vec![1, 2, 3])), "corrupt record: truncated payload");
    assert_eq!(payload.request(), (13, 4));
    assert_eq!(seek(3).request(), (5, 4));
    assert_eq!(seek(0).request(), (5, 8));
}

#[test]
fn errors_are_put_in_words() {
    assert_eq!(LogError::Io("gone".to_string()).to_string(), "io error: gone");
    assert_eq!(
        LogError::OffsetOutOfRange(1048576).to_string(),
        "offset 1048576 is out of range for this log"
    );
    assert_eq!(LogError::Empty.to_string(), "log is empty");
    assert_eq!(
        LogError::CorruptRecord("truncated header".to_string()).to_string(),
        "corrupt record: truncated header"
    );
}

#[test]
fn offsets_must_not_run_out() {
    let mut dir = Dir::new();
    let mut log = dir.open(default_config());
    dir.append(&mut log, b"a");
    dir.append(&mut log, b"b");
    let data = dir.data("00000000000000000000.log").clone();
    let mut last = Dir::new();
    last.files.push(StoredFile {
        name: "18446744073709551614.log".to_string(),
        data,
    });
    assert!(!Log::can_open(&last.files));
    last.files[0].data.truncate(9);
    let log = last.open(default_config());
    assert_eq!(log.next_offset(), u64::MAX);
    assert_eq!(last.read(&log, u64::MAX - 1).unwrap(), b"a");
    assert!(!log.has_room(b""));
}
