use streamforge::log::index::Index;
use streamforge::log::record::{count_records, push_record, scan_to, Chunk, Cursor, Progress};
use streamforge::log::{LogConfig, LogError, Segment};

#[test]
fn a_fresh_segment_is_empty() {
    let segment = Segment::open(b"", 7, 100);
    assert_eq!(segment.base_offset, 7);
    assert_eq!(segment.next_offset, 7);
    assert_eq!(segment.file_pos, 0);
    assert_eq!(segment.record_count(), 0);
    assert!(!segment.is_full());
}

/// Reads a record of a file that holds `data`.
fn read(data: &[u8], mut cursor: Cursor) -> Result<Vec<u8>, LogError> {
    loop {
        let (pos, len) = cursor.request();
        let start = data.len().min(pos as usize);
        let end = data.len().min(start + len);
        match cursor.take(Chunk::Bytes(data[start..end].to_vec())) {
            Progress::Next(next) => cursor = next,
            Progress::Done(outcome) => return outcome,
        }
    }
}

#[test]
fn appending_moves_on_by_one_record() {
    let mut segment = Segment::open(b"", 7, 20);
    assert_eq!(segment.reader(), "00000000000000000007.log");
    let mut data = Vec::new();
    push_record(&mut data, b"0123");
    assert_eq!(segment.append(b"0123"), 7);
    assert_eq!(segment.file_pos, 12);
    assert!(!segment.is_full());
    push_record(&mut data, b"");
    assert_eq!(segment.append(b""), 8);
    assert_eq!(segment.file_pos, 20);
    assert!(segment.is_full());
    assert_eq!(segment.record_count(), 2);
    assert_eq!(data.len(), 20);
    assert_eq!(read(&data, segment.read_at(0)).unwrap(), b"0123");
    assert_eq!(read(&data, segment.read_at(12)).unwrap(), b"");
}

#[test]
fn recovery_counts_the_records() {
    let mut data = Vec::new();
    push_record(&mut data, b"one");
    push_record(&mut data, b"three");
    let mut segment = Segment::open(&data, 40, 1000);
    assert_eq!(segment.next_offset, 40);
    assert_eq!(segment.file_pos, 24);
    segment.recover(&data);
    assert_eq!(segment.next_offset, 42);
    assert_eq!(segment.file_pos, 24);
    assert_eq!(segment.append(b"four"), 42);
    push_record(&mut data, b"four");
    assert_eq!(read(&data, segment.read_at(24)).unwrap(), b"four");
}

#[test]
fn recovery_goes_to_the_end_of_a_record_that_was_cut_short() {
    let mut data = Vec::new();
    push_record(&mut data, b"abcdef");
    data.truncate(9);
    assert_eq!(count_records(&data), 1);
    let mut segment = Segment::open(&data, 0, 1000);
    segment.recover(&data);
    assert_eq!(segment.next_offset, 1);
    assert_eq!(segment.file_pos, 9);
    assert!(matches!(read(&data, segment.read_at(0)), Err(LogError::CorruptRecord(_))));
    // What is appended next stands where the segment says.
    push_record(&mut data, b"next");
    assert_eq!(read(&data, segment.read_at(segment.file_pos)).unwrap(), b"next");
}

#[test]
fn records_are_read_where_they_stand() {
    let mut data = Vec::new();
    push_record(&mut data, b"a");
    push_record(&mut data, b"bc");
    push_record(&mut data, b"def");
    assert_eq!(data.len(), 9 + 10 + 11);
    assert_eq!(read(&data, scan_to(0, 0)).unwrap(), b"a");
    assert_eq!(read(&data, scan_to(0, 2)).unwrap(), b"def");
    assert_eq!(read(&data, scan_to(9, 1)).unwrap(), b"def");
    let reason = |cursor| match read(&data, cursor) {
        Err(LogError::CorruptRecord(text)) => text,
        other => panic!("got {:?}", other),
    };
    assert_eq!(reason(scan_to(9, 2)), "truncated header");
    assert_eq!(reason(scan_to(0, 4)), "truncated during scan");
    assert_eq!(reason(scan_to(5000, 0)), "truncated header");
}

#[test]
fn every_nth_record_is_indexed() {
    let mut index = Index::open(b"", 4);
    assert!(index.is_empty());
    assert_eq!(index.lookup(3), None);
    for i in 0..10u64 {
        index.maybe_record(i, 100 + i, 10 * i);
    }
    assert_eq!(index.len(), 3);
    assert_eq!(index.lookup(99), None);
    assert_eq!(index.lookup(100), Some((100, 0)));
    assert_eq!(index.lookup(103), Some((100, 0)));
    assert_eq!(index.lookup(104), Some((104, 40)));
    assert_eq!(index.lookup(5000), Some((108, 80)));
}

#[test]
fn an_interval_of_zero_indexes_the_first_record_only() {
    let mut index = Index::open(b"", 0);
    for i in 0..10u64 {
        index.maybe_record(i, i, i);
    }
    assert_eq!(index.len(), 1);
}

#[test]
fn a_flushed_index_reopens() {
    let mut index = Index::open(b"", 1);
    index.maybe_record(0, 258, 3);
    index.maybe_record(1, 259, u64::MAX);
    let bytes = index.flush();
    assert_eq!(bytes.len(), 32);
    assert_eq!(bytes[..10], [2, 1, 0, 0, 0, 0, 0, 0, 3, 0]);
    let again = Index::open(&bytes, 1);
    assert_eq!(again.len(), 2);
    assert_eq!(again.lookup(258), Some((258, 3)));
    assert_eq!(again.lookup(300), Some((259, u64::MAX)));
    for target in [0, 257, 258, 259, 260, u64::MAX] {
        assert_eq!(Index::open(&bytes, 77).lookup(target), index.lookup(target));
    }
    // A last entry that is not whole does not count.
    assert_eq!(Index::open(&bytes[..31], 1).len(), 1);
}

#[test]
fn the_default_configuration() {
    let config = LogConfig::default();
    assert_eq!(config.max_segment_bytes, 67_108_864);
    assert_eq!(config.index_interval, 64);
}
