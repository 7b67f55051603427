use std::collections::HashMap;

use streamforge::broker::protocol::{is_whole, read_frame_joined, read_frame_len, Frame};
use streamforge::broker::connection::{connection_step, is_reported, Fault, Heard, Move};
use streamforge::broker::server::{admits, process_frame, Event, Server, Step};
use streamforge::client_error::ClientError;
use streamforge::consumer::client::{admits_reply, ConsumerClient, Record};
use streamforge::log::directory::{idx_path, seg_path, FileOp, StoredFile};
use streamforge::log::record::{Chunk, Progress};
use streamforge::log::{Log, LogConfig, LogError, Reading, SegmentFiles};
use streamforge::producer::client::{produce_reply, ProducerClient};

// ── Test broker fixture ───────────────────────────────────────────────────────

/// A broker with its directories in memory. Requests and responses pass through
/// their bytes.
struct Broker {
    server: Server,
    disk: HashMap<(String, u32), Vec<StoredFile>>,
    fail: bool,
}

fn copy(files: &[StoredFile]) -> Vec<StoredFile> {
    files
        .iter()
        .map(|f| StoredFile {
            name: f.name.clone(),
            data: f.data.clone(),
        })
        .collect()
}

fn apply(files: &mut Vec<StoredFile>, op: FileOp) {
    let (name, data, append) = match op {
        FileOp::Write { name, data } => (name, data, false),
        FileOp::Append { name, data } => (name, data, true),
    };
    match files.iter_mut().find(|f| f.name == name) {
        Some(file) => {
            if !append {
                file.data.clear();
            }
            file.data.extend_from_slice(&data);
        }
        None => files.push(StoredFile { name, data }),
    }
}

fn contents(files: &[StoredFile], name: &str) -> Vec<u8> {
    match files.iter().find(|f| f.name == name) {
        Some(file) => file.data.clone(),
        None => Vec::new(),
    }
}

fn read(files: &[StoredFile], reading: Reading) -> Result<Vec<u8>, LogError> {
    let data = contents(files, &reading.file);
    let mut cursor = reading.cursor;
    loop {
        let (pos, len) = cursor.request();
        let start = data.len().min(pos as usize);
        let end = data.len().min(start + len);
        match cursor.take(Chunk::Bytes(data[start..end].to_vec())) {
            Progress::Next(next) => cursor = next,
            Progress::Done(outcome) => return outcome,
        }
    }
}

impl Broker {
    fn config() -> LogConfig {
        LogConfig {
            max_segment_bytes: 4 * 1024 * 1024,
            index_interval: 4,
        }
    }

    fn start() -> Broker {
        Broker {
            server: Server::new(Broker::config()),
            disk: HashMap::new(),
            fail: false,
        }
    }

    /// The same directories, and nothing else.
    fn restart(self) -> Broker {
        Broker {
            server: Server::new(Broker::config()),
            disk: self.disk,
            fail: false,
        }
    }

    fn answer(&mut self, frame: &Frame) -> Frame {
        let mut event = Event::Received;
        loop {
            assert!(admits(frame, &event, &self.server));
            match process_frame(frame, event, &mut self.server) {
                Step::Reply(response) => return response,
                Step::Load { topic, partitions } => {
                    if self.fail {
                        event = Event::Loaded(Err(LogError::Io("disk full".to_string())));
                        continue;
                    }
                    let mut dirs = Vec::new();
                    for i in 0..partitions {
                        let files = self.disk.entry((topic.clone(), i)).or_default();
                        for op in Log::open_ops(files) {
                            apply(files, op);
                        }
                        assert!(Log::can_open(files));
                        dirs.push(copy(files));
                    }
                    event = Event::Loaded(Ok(dirs));
                }
                Step::Rotate { topic, partition, ops, base } => {
                    if self.fail {
                        event = Event::Rotated(Err(LogError::Io("disk full".to_string())));
                        continue;
                    }
                    let files = self.disk.get_mut(&(topic, partition)).unwrap();
                    for op in ops {
                        apply(files, op);
                    }
                    event = Event::Rotated(Ok(SegmentFiles {
                        data: contents(files, &seg_path(base)),
                        index: contents(files, &idx_path(base)),
                    }));
                }
                Step::Write { topic, partition, op } => {
                    if self.fail {
                        event = Event::Written(Err(LogError::Io("disk full".to_string())));
                        continue;
                    }
                    let files = self.disk.get_mut(&(topic, partition)).unwrap();
                    apply(files, op);
                    event = Event::Written(Ok(()));
                }
                Step::Read { topic, partition, reading } => {
                    event = Event::Read(read(&self.disk[&(topic, partition)], reading));
                }
            }
        }
    }

    /// The bytes of the response to the bytes of a request.
    fn serve(&mut self, request: Vec<u8>) -> Vec<u8> {
        let len = read_frame_len(&request[..4]).unwrap();
        let raw = read_frame_joined(&request[..4], &request[4..4 + len]);
        assert_eq!(raw, request);
        assert!(is_whole(&raw));
        let response = match connection_step(Heard::Frame(raw)) {
            Move::Answer(frame) => self.answer(&frame),
            Move::SendAndClose(refusal) => refusal,
            _ => panic!("a frame was heard"),
        };
        response.encode()
    }

    fn create_topic(&mut self, p: &mut ProducerClient, name: &str, n: u32) -> Result<(), ClientError> {
        let raw = self.serve(p.create_topic(name, n).encode());
        assert!(is_whole(&raw));
        p.create_topic_reply(name, n, raw)
    }

    fn send(&mut self, p: &mut ProducerClient, topic: &str, payload: Vec<u8>) -> Result<u64, ClientError> {
        assert!(p.has_partitions(topic));
        let raw = self.serve(p.send(topic, payload).encode());
        assert!(is_whole(&raw));
        produce_reply(raw)
    }

    fn send_to_partition(
        &mut self,
        p: &mut ProducerClient,
        topic: &str,
        partition: u32,
        payload: Vec<u8>,
    ) -> Result<u64, ClientError> {
        let raw = self.serve(p.send_to_partition(topic, partition, payload).encode());
        assert!(is_whole(&raw));
        produce_reply(raw)
    }

    fn flush_batch(&mut self, p: &mut ProducerClient) -> Result<Vec<u64>, ClientError> {
        let mut flush = p.flush_batch();
        while let Some(request) = flush.next_request() {
            let raw = self.serve(request.encode());
            assert!(is_whole(&raw));
            flush.accept(raw)?;
        }
        Ok(flush.into_offsets())
    }

    fn poll_n(&mut self, c: &mut ConsumerClient, max: usize) -> Result<Vec<Record>, ClientError> {
        let mut poll = c.poll_n(max);
        while let Some(request) = c.poll_request(&poll) {
            let raw = self.serve(request.encode());
            assert!(admits_reply(&raw));
            c.poll_reply(&mut poll, raw)?;
        }
        Ok(poll.into_records())
    }

    fn commit_offset(&mut self, c: &ConsumerClient) -> Result<(), ClientError> {
        let raw = self.serve(c.commit_offset().encode());
        assert!(is_whole(&raw));
        c.commit_reply(raw)
    }
}

// ── Integration tests ─────────────────────────────────────────────────────────

/// A producer sends 100 messages; a consumer reads all 100 back in order.
#[test]
fn test_produce_100_and_consume_all() {
    let mut broker = Broker::start();

    // Produce
    let mut producer = ProducerClient::new();
    let mut expected_offsets = Vec::new();
    for i in 0u32..100 {
        let payload = format!("message-{:04}", i).into_bytes();
        let offset = broker.send(&mut producer, "stream", payload).unwrap();
        expected_offsets.push(offset);
    }
    assert_eq!(expected_offsets, (0u64..100).collect::<Vec<_>>());

    // Consume
    let mut consumer = ConsumerClient::new("test-group");
    consumer.subscribe("stream", 0, 0);
    let records = broker.poll_n(&mut consumer, 100).unwrap();
    assert_eq!(records.len(), 100);
    for (i, r) in records.iter().enumerate() {
        assert_eq!(r.offset, i as u64);
        assert_eq!(r.payload, format!("message-{:04}", i).into_bytes());
    }
}

/// Messages sent to different topics stay isolated.
#[test]
fn test_multiple_topics_are_isolated() {
    let mut broker = Broker::start();

    let mut producer = ProducerClient::new();
    broker.send(&mut producer, "topic-a", b"a0".to_vec()).unwrap();
    broker.send(&mut producer, "topic-b", b"b0".to_vec()).unwrap();
    broker.send(&mut producer, "topic-a", b"a1".to_vec()).unwrap();

    let mut consumer = ConsumerClient::new("g");
    consumer.subscribe("topic-a", 0, 0);
    let a_records = broker.poll_n(&mut consumer, 10).unwrap();
    assert_eq!(a_records.len(), 2);
    assert_eq!(a_records[0].payload, b"a0");
    assert_eq!(a_records[1].payload, b"a1");

    consumer.subscribe("topic-b", 0, 0);
    let b_records = broker.poll_n(&mut consumer, 10).unwrap();
    assert_eq!(b_records.len(), 1);
    assert_eq!(b_records[0].payload, b"b0");
}

/// Explicit create_topic then produce to it.
#[test]
fn test_explicit_create_topic_then_produce() {
    let mut broker = Broker::start();

    let mut producer = ProducerClient::new();
    broker.create_topic(&mut producer, "explicit", 1).unwrap();

    let offset = broker
        .send_to_partition(&mut producer, "explicit", 0, b"created".to_vec())
        .unwrap();
    assert_eq!(offset, 0);

    let mut consumer = ConsumerClient::new("g");
    consumer.subscribe("explicit", 0, 0);
    let records = broker.poll_n(&mut consumer, 5).unwrap();
    assert_eq!(records[0].payload, b"created");
}

/// Producer with multiple partitions routes messages correctly.
#[test]
fn test_multiple_partitions_produce_and_fetch() {
    let mut broker = Broker::start();

    let mut producer = ProducerClient::new();
    broker.create_topic(&mut producer, "partitioned", 3).unwrap();

    // Send 2 messages to each partition explicitly.
    for part in 0..3u32 {
        for seq in 0..2u32 {
            let payload = format!("p{}-seq{}", part, seq).into_bytes();
            broker
                .send_to_partition(&mut producer, "partitioned", part, payload)
                .unwrap();
        }
    }

    // Read from each partition independently.
    for part in 0..3u32 {
        let mut consumer = ConsumerClient::new("g");
        consumer.subscribe("partitioned", part, 0);
        let records = broker.poll_n(&mut consumer, 10).unwrap();
        assert_eq!(records.len(), 2, "partition {} should have 2 records", part);
        assert_eq!(
            records[0].payload,
            format!("p{}-seq0", part).into_bytes()
        );
    }
}

/// Producer round-robin distributes across partitions when using `send()`.
#[test]
fn test_round_robin_partition_assignment() {
    let mut broker = Broker::start();

    let mut producer = ProducerClient::new();
    broker.create_topic(&mut producer, "rr", 2).unwrap();

    // send() cycles partition 0 → 1 → 0 → 1 ...
    for i in 0u32..4 {
        broker
            .send(&mut producer, "rr", format!("msg-{}", i).into_bytes())
            .unwrap();
    }

    // Partition 0 gets messages 0 and 2.
    let mut c0 = ConsumerClient::new("g");
    c0.subscribe("rr", 0, 0);
    let r0 = broker.poll_n(&mut c0, 10).unwrap();
    assert_eq!(r0.len(), 2);
    assert_eq!(r0[0].payload, b"msg-0");
    assert_eq!(r0[1].payload, b"msg-2");

    // Partition 1 gets messages 1 and 3.
    let mut c1 = ConsumerClient::new("g");
    c1.subscribe("rr", 1, 0);
    let r1 = broker.poll_n(&mut c1, 10).unwrap();
    assert_eq!(r1.len(), 2);
    assert_eq!(r1[0].payload, b"msg-1");
    assert_eq!(r1[1].payload, b"msg-3");
}

/// batch-buffering then flush sends all messages in order.
#[test]
fn test_producer_batch_flush() {
    let mut broker = Broker::start();

    let mut producer = ProducerClient::new();

    for i in 0u32..10 {
        producer.buffer_message("batch-topic", format!("item-{}", i).into_bytes());
    }
    assert_eq!(producer.pending_count(), 10);

    let offsets = broker.flush_batch(&mut producer).unwrap();
    assert_eq!(offsets.len(), 10);
    assert_eq!(offsets, (0u64..10).collect::<Vec<_>>());
    assert_eq!(producer.pending_count(), 0);

    // Verify the broker stored them.
    let mut consumer = ConsumerClient::new("g");
    consumer.subscribe("batch-topic", 0, 0);
    let records = broker.poll_n(&mut consumer, 20).unwrap();
    assert_eq!(records.len(), 10);
    for (i, r) in records.iter().enumerate() {
        assert_eq!(r.payload, format!("item-{}", i).into_bytes());
    }
}

/// Consumer offset tracking: poll some records, commit, reconnect, resume.
#[test]
fn test_consumer_offset_commit_and_resume() {
    let mut broker = Broker::start();

    // Produce 20 messages.
    let mut producer = ProducerClient::new();
    for i in 0u32..20 {
        broker
            .send(&mut producer, "resume-topic", format!("r-{}", i).into_bytes())
            .unwrap();
    }

    // First consumer session: read 10, commit.
    let committed_offset = {
        let mut c = ConsumerClient::new("resume-group");
        c.subscribe("resume-topic", 0, 0);
        let first_batch = broker.poll_n(&mut c, 10).unwrap();
        assert_eq!(first_batch.len(), 10);
        broker.commit_offset(&c).unwrap();
        c.current_offset()
    };
    assert_eq!(committed_offset, 10);
    assert_eq!(
        broker.server.coordinator.fetch_offset("resume-group", "resume-topic", 0),
        Some(10)
    );

    // Second session continues from offset 10.
    let mut c2 = ConsumerClient::new("g2");
    c2.subscribe("resume-topic", 0, committed_offset);
    let second_batch = broker.poll_n(&mut c2, 20).unwrap();
    assert_eq!(second_batch.len(), 10);
    assert_eq!(second_batch[0].offset, 10);
    assert_eq!(second_batch[0].payload, b"r-10");
}

/// `poll()` stops at end-of-log and returns only what's available.
#[test]
fn test_consumer_poll_stops_at_end_of_log() {
    let mut broker = Broker::start();

    let mut producer = ProducerClient::new();
    for i in 0u32..3 {
        broker
            .send(&mut producer, "short", format!("x-{}", i).into_bytes())
            .unwrap();
    }

    let mut consumer = ConsumerClient::new("g");
    consumer.subscribe("short", 0, 0);
    // Asking for 100 records but only 3 exist.
    let records = broker.poll_n(&mut consumer, 100).unwrap();
    assert_eq!(records.len(), 3);
}

/// A fetch from a topic that is not there yields nothing.
#[test]
fn test_fetch_from_empty_topic_returns_error() {
    let mut broker = Broker::start();

    let mut consumer = ConsumerClient::new("g");
    consumer.subscribe("empty-topic", 0, 0);
    // The broker auto-creates the topic on first access via get_or_create,
    // but we're calling Fetch (not Produce), which uses get_partition_mut.
    // An unknown topic should result in zero records returned.
    let records = broker.poll_n(&mut consumer, 5).unwrap();
    assert_eq!(records.len(), 0, "empty/unknown topic should yield 0 records");
}

/// Consumer `commit_offset` is acknowledged by the broker.
#[test]
fn test_commit_offset_acknowledged() {
    let mut broker = Broker::start();

    let mut producer = ProducerClient::new();
    broker.send(&mut producer, "ack-topic", b"ack".to_vec()).unwrap();

    let mut consumer = ConsumerClient::new("ack-group");
    consumer.subscribe("ack-topic", 0, 0);
    broker.poll_n(&mut consumer, 1).unwrap();
    // commit_offset() should not error.
    broker.commit_offset(&consumer).unwrap();
    assert_eq!(consumer.current_offset(), 1);
}

/// The consumer `poll_n` returns records with correct sequential offsets.
#[test]
fn test_poll_records_have_sequential_offsets() {
    let mut broker = Broker::start();

    let mut producer = ProducerClient::new();
    for i in 0u32..15 {
        broker
            .send(&mut producer, "seq-topic", format!("s-{}", i).into_bytes())
            .unwrap();
    }

    let mut consumer = ConsumerClient::new("g");
    consumer.subscribe("seq-topic", 0, 0);
    let records: Vec<Record> = broker.poll_n(&mut consumer, 15).unwrap();

    for (i, r) in records.iter().enumerate() {
        assert_eq!(r.offset, i as u64, "offset mismatch at index {}", i);
    }
    assert_eq!(records.len(), 15);
}

// ── More of the broker ────────────────────────────────────────────────────────

#[test]
fn records_survive_a_restart_and_topics_come_back_when_they_are_asked_for() {
    let mut broker = Broker::start();
    let mut producer = ProducerClient::new();
    for i in 0u8..5 {
        broker.send(&mut producer, "kept", vec![i]).unwrap();
    }
    let mut broker = broker.restart();
    let mut consumer = ConsumerClient::new("g");
    consumer.subscribe("kept", 0, 0);
    assert!(broker.poll_n(&mut consumer, 10).unwrap().is_empty());
    assert_eq!(broker.send(&mut producer, "kept", vec![5]).unwrap(), 5);
    let records = broker.poll_n(&mut consumer, 10).unwrap();
    let payloads: Vec<Vec<u8>> = records.into_iter().map(|r| r.payload).collect();
    assert_eq!(payloads, (0u8..6).map(|i| vec![i]).collect::<Vec<_>>());
    assert_eq!(consumer.current_offset(), 6);
}

#[test]
fn an_acknowledged_record_is_fetched_whatever_comes_between() {
    let mut broker = Broker::start();
    let produce = |topic: &str, partition, payload: &[u8]| Frame::Produce {
        topic: topic.into(),
        partition,
        payload: payload.to_vec(),
    };
    assert_eq!(broker.answer(&produce("t", 1, b"kept")), Frame::ProduceAck { offset: 0 });
    let between = vec![
        produce("t", 1, b"more"),
        produce("t", 0, b"beside"),
        produce("t", 9, b"nowhere"),
        produce("u", 1, b"elsewhere"),
        Frame::CreateTopic { name: "t".into(), num_partitions: 7 },
        Frame::CreateTopic { name: "v".into(), num_partitions: 1 },
        Frame::CommitOffset { group: "g".into(), topic: "t".into(), partition: 1, offset: 0 },
        Frame::Fetch { topic: "t".into(), partition: 1, offset: 99 },
        Frame::Ack,
    ];
    let fetch = Frame::Fetch { topic: "t".into(), partition: 1, offset: 0 };
    for frame in between {
        broker.answer(&frame);
        assert_eq!(
            broker.answer(&fetch),
            Frame::FetchData { offset: 0, payload: b"kept".to_vec() }
        );
    }
    assert_eq!(broker.server.manager.num_partitions("t"), Some(2));
}

#[test]
fn requests_are_refused_with_a_code_and_a_reason() {
    let mut broker = Broker::start();
    let refusal = |frame: Frame| match frame {
        Frame::Error { code, message } => (code, message),
        other => panic!("got {:?}", other),
    };
    let create = Frame::CreateTopic { name: "t".into(), num_partitions: 2 };
    assert_eq!(broker.answer(&create), Frame::Ack);
    assert_eq!(
        refusal(broker.answer(&create)),
        (0x05, "topic 't' already exists with 2 partitions".into())
    );
    let produce = |partition| Frame::Produce { topic: "t".into(), partition, payload: vec![1] };
    assert_eq!(
        refusal(broker.answer(&produce(2))),
        (0x02, "partition 2 out of range for topic 't' (2 partitions)".into())
    );
    let fetch = |topic: &str, partition, offset| Frame::Fetch { topic: topic.into(), partition, offset };
    assert_eq!(
        refusal(broker.answer(&fetch("u", 0, 0))),
        (0x04, "topic 'u' not found".into())
    );
    assert_eq!(
        refusal(broker.answer(&fetch("t", 2, 0))),
        (0x04, "partition 2 out of range for topic 't' (2 partitions)".into())
    );
    assert_eq!(
        refusal(broker.answer(&fetch("t", 1, 7))),
        (0x03, "offset 7 is out of range for this log".into())
    );
    assert_eq!(
        refusal(broker.answer(&Frame::ProduceAck { offset: 3 })),
        (0xFE, "unexpected request frame: ProduceAck { offset: 3 }".into())
    );
    assert_eq!(
        refusal(broker.answer(&Frame::FetchData { offset: 1, payload: b"a\x01".to_vec() })),
        (0xFE, "unexpected request frame: FetchData { offset: 1, payload: b\"a\\x01\" }".into())
    );
    assert_eq!(broker.answer(&produce(1)), Frame::ProduceAck { offset: 0 });
    assert_eq!(broker.answer(&produce(1)), Frame::ProduceAck { offset: 1 });
    assert_eq!(broker.answer(&produce(0)), Frame::ProduceAck { offset: 0 });
}

#[test]
fn a_broker_whose_disk_fails_says_so_and_stays_as_it_was() {
    let mut broker = Broker::start();
    let produce = Frame::Produce { topic: "t".into(), partition: 0, payload: vec![1] };
    broker.fail = true;
    assert_eq!(
        broker.answer(&produce),
        Frame::Error { code: 0x02, message: "log error: io error: disk full".into() }
    );
    assert_eq!(
        broker.answer(&Frame::CreateTopic { name: "t".into(), num_partitions: 1 }),
        Frame::Error { code: 0x05, message: "log error: io error: disk full".into() }
    );
    assert_eq!(broker.server.manager.num_partitions("t"), None);
    broker.fail = false;
    assert_eq!(broker.answer(&produce), Frame::ProduceAck { offset: 0 });
    broker.fail = true;
    assert_eq!(
        broker.answer(&produce),
        Frame::Error { code: 0x01, message: "io error: disk full".into() }
    );
    broker.fail = false;
    assert_eq!(broker.answer(&produce), Frame::ProduceAck { offset: 1 });
}

#[test]
fn a_frame_that_cannot_be_decoded_is_answered() {
    match connection_step(Heard::Frame(vec![1, 0, 0, 0, 0xAA])) {
        Move::SendAndClose(frame) => assert_eq!(
            frame,
            Frame::Error { code: 0xFF, message: "unknown opcode: 0xaa".into() }
        ),
        _ => panic!("the frame cannot be decoded"),
    }
}

#[test]
fn a_connection_ends_as_it_should() {
    let frame = Frame::Fetch { topic: "t".into(), partition: 0, offset: 3 };
    match connection_step(Heard::Frame(frame.encode())) {
        Move::Answer(request) => assert_eq!(request, frame),
        _ => panic!("a request is answered"),
    }
    assert!(matches!(connection_step(Heard::Fault(Fault::EndOfStream)), Move::Close));
    assert!(matches!(connection_step(Heard::Fault(Fault::Reset)), Move::Fail(Fault::Reset)));
    assert!(matches!(connection_step(Heard::Fault(Fault::Other)), Move::Fail(Fault::Other)));
    assert!(is_reported(Fault::Other));
    assert!(!is_reported(Fault::Reset));
    assert!(!is_reported(Fault::EndOfStream));
}

#[test]
fn a_full_segment_is_rotated_on_the_way() {
    let mut broker = Broker::start();
    broker.server = Server::new(LogConfig { max_segment_bytes: 20, index_interval: 2 });
    let produce = |i: u8| Frame::Produce { topic: "t".into(), partition: 0, payload: vec![i, i] };
    let fetch = |offset| Frame::Fetch { topic: "t".into(), partition: 0, offset };
    for i in 0..9u8 {
        assert_eq!(broker.answer(&produce(i)), Frame::ProduceAck { offset: i as u64 });
        for j in 0..=i {
            assert_eq!(
                broker.answer(&fetch(j as u64)),
                Frame::FetchData { offset: j as u64, payload: vec![j, j] }
            );
        }
    }
    let data_files = broker.disk[&("t".into(), 0)].iter().filter(|f| f.name.ends_with(".log"));
    assert_eq!(data_files.count(), 5);
    // A rotation that fails is an error of the append, and is tried again.
    assert_eq!(broker.answer(&produce(9)), Frame::ProduceAck { offset: 9 });
    broker.fail = true;
    assert_eq!(
        broker.answer(&produce(10)),
        Frame::Error { code: 0x01, message: "io error: disk full".into() }
    );
    broker.fail = false;
    assert_eq!(broker.answer(&produce(10)), Frame::ProduceAck { offset: 10 });
    // What is damaged on disk is reported, while the broker runs.
    let files = broker.disk.get_mut(&("t".into(), 0)).unwrap();
    files.iter_mut().find(|f| f.name.ends_with("02.log")).unwrap().data[8] ^= 1;
    match broker.answer(&fetch(2)) {
        Frame::Error { code, message } => {
            assert_eq!(code, 0x03);
            assert!(message.starts_with("crc mismatch: "));
        }
        other => panic!("got {:?}", other),
    }
}

#[test]
fn the_last_partition_number_cannot_be_created() {
    let server = Server::new(LogConfig::default());
    let produce = |partition| Frame::Produce { topic: "t".into(), partition, payload: Vec::new() };
    assert!(!admits(&produce(u32::MAX), &Event::Received, &server));
    assert!(admits(&produce(u32::MAX - 1), &Event::Received, &server));
}

#[test]
fn an_offset_before_the_log_is_out_of_range() {
    let mut broker = Broker::start();
    broker.disk.insert(
        ("t".into(), 0),
        vec![StoredFile {
            name: "00000000000000000009.log".into(),
            data: vec![0; 8],
        }],
    );
    let create = Frame::CreateTopic { name: "t".into(), num_partitions: 1 };
    assert_eq!(broker.answer(&create), Frame::Ack);
    let fetch = |offset| Frame::Fetch { topic: "t".into(), partition: 0, offset };
    assert_eq!(
        broker.answer(&fetch(8)),
        Frame::Error { code: 0x03, message: "offset 8 is out of range for this log".into() }
    );
    assert_eq!(broker.answer(&fetch(9)), Frame::FetchData { offset: 9, payload: Vec::new() });
}

// ── More of the clients ───────────────────────────────────────────────────────

#[test]
fn a_producer_goes_round_the_partitions_of_each_topic() {
    let mut broker = Broker::start();
    let mut producer = ProducerClient::new();
    assert_eq!(producer.max_batch_size, 100);
    broker.create_topic(&mut producer, "three", 3).unwrap();
    let mut chosen = Vec::new();
    for i in 0..7 {
        match producer.send("three", Vec::new()) {
            Frame::Produce { partition, .. } => chosen.push(partition),
            other => panic!("got {:?}", other),
        }
        if i == 2 {
            // Another topic, of which nothing is known: it has one partition.
            assert_eq!(
                producer.send("unknown", vec![1]),
                Frame::Produce { topic: "unknown".into(), partition: 0, payload: vec![1] }
            );
        }
    }
    assert_eq!(chosen, vec![0, 1, 2, 0, 1, 2, 0]);
}

#[test]
fn sends_to_several_topics_do_not_disturb_each_other() {
    let mut broker = Broker::start();
    let mut producer = ProducerClient::new();
    broker.create_topic(&mut producer, "two", 2).unwrap();
    broker.create_topic(&mut producer, "three", 3).unwrap();
    let mut chosen: HashMap<String, Vec<u32>> = HashMap::new();
    for (i, topic) in ["two", "three", "three", "two", "three", "two", "three", "two", "two"]
        .iter()
        .enumerate()
    {
        let partition = if i % 2 == 0 {
            match producer.send(topic, Vec::new()) {
                Frame::Produce { partition, .. } => partition,
                other => panic!("got {:?}", other),
            }
        } else {
            producer.buffer_message(topic, Vec::new());
            match producer.flush_batch().next_request() {
                Some(Frame::Produce { partition, .. }) => partition,
                other => panic!("got {:?}", other),
            }
        };
        chosen.entry(topic.to_string()).or_default().push(partition);
    }
    assert_eq!(chosen["two"], vec![0, 1, 0, 1, 0]);
    assert_eq!(chosen["three"], vec![0, 1, 2, 0]);
    assert_eq!(producer.next_partition("three"), 1);
    assert_eq!(producer.next_partition("two"), 1);
}

#[test]
fn a_topic_without_partitions_takes_no_message() {
    let mut broker = Broker::start();
    let mut producer = ProducerClient::new();
    assert!(producer.has_partitions("none"));
    broker.create_topic(&mut producer, "none", 0).unwrap();
    assert!(!producer.has_partitions("none"));
    match broker.send_to_partition(&mut producer, "none", 0, Vec::new()) {
        Err(ClientError::Other(text)) => assert_eq!(
            text,
            "broker error 0x02: partition 0 out of range for topic 'none' (0 partitions)"
        ),
        other => panic!("got {:?}", other),
    }
}

#[test]
fn a_producer_is_told_what_went_wrong() {
    let mut producer = ProducerClient::new();
    let refused = Frame::Error { code: 5, message: "no".into() }.encode();
    match producer.create_topic_reply("t", 3, refused.clone()) {
        Err(ClientError::Other(text)) => assert_eq!(text, "broker error 0x05: no"),
        other => panic!("got {:?}", other),
    }
    match producer.create_topic_reply("t", 3, Frame::ProduceAck { offset: 1 }.encode()) {
        Err(ClientError::InvalidData(text)) => {
            assert_eq!(text, "unexpected response to CreateTopic")
        }
        other => panic!("got {:?}", other),
    }
    match produce_reply(refused) {
        Err(ClientError::Other(text)) => assert_eq!(text, "broker error 0x05: no"),
        other => panic!("got {:?}", other),
    }
    // An answer that cannot be decoded is unexpected, too.
    match produce_reply(vec![1]) {
        Err(ClientError::InvalidData(text)) => assert_eq!(text, "unexpected response to Produce"),
        other => panic!("got {:?}", other),
    }
    // Nothing was learned of the topic.
    assert_eq!(
        producer.send("t", Vec::new()),
        Frame::Produce { topic: "t".into(), partition: 0, payload: Vec::new() }
    );
    assert_eq!(
        producer.send("t", Vec::new()),
        Frame::Produce { topic: "t".into(), partition: 0, payload: Vec::new() }
    );
}

#[test]
fn a_batch_is_given_up_at_the_first_error() {
    let mut producer = ProducerClient::new();
    for i in 0..3u8 {
        producer.buffer_message("t", vec![i]);
    }
    let mut flush = producer.flush_batch();
    assert_eq!(producer.pending_count(), 0);
    assert_eq!(
        flush.next_request(),
        Some(Frame::Produce { topic: "t".into(), partition: 0, payload: vec![0] })
    );
    flush.accept(Frame::ProduceAck { offset: 41 }.encode()).unwrap();
    assert_eq!(
        flush.next_request(),
        Some(Frame::Produce { topic: "t".into(), partition: 0, payload: vec![1] })
    );
    assert!(flush.accept(Frame::Ack.encode()).is_err());
    assert_eq!(flush.next_request(), None);
    assert_eq!(flush.into_offsets(), vec![41]);
}

#[test]
fn a_poll_asks_for_ten_records() {
    let mut consumer = ConsumerClient::new("g");
    consumer.subscribe("t", 2, 100);
    let mut poll = consumer.poll();
    let mut asked = Vec::new();
    while let Some(request) = consumer.poll_request(&poll) {
        assert_eq!(
            request,
            Frame::Fetch { topic: "t".into(), partition: 2, offset: consumer.current_offset() }
        );
        asked.push(consumer.current_offset());
        let raw = Frame::FetchData { offset: consumer.current_offset(), payload: vec![7] }.encode();
        assert!(admits_reply(&raw));
        consumer.poll_reply(&mut poll, raw).unwrap();
    }
    assert_eq!(asked, (100u64..110).collect::<Vec<_>>());
    let records = poll.into_records();
    assert_eq!(records.len(), 10);
    assert_eq!(records[9], Record { offset: 109, payload: vec![7] });
    assert_eq!(
        consumer.commit_offset(),
        Frame::CommitOffset { group: "g".into(), topic: "t".into(), partition: 2, offset: 110 }
    );
}

#[test]
fn a_consumer_is_told_what_went_wrong() {
    let mut consumer = ConsumerClient::new("g");
    let mut poll = consumer.poll_n(5);
    match consumer.poll_reply(&mut poll, Frame::Ack.encode()) {
        Err(ClientError::InvalidData(text)) => {
            assert_eq!(text, "unexpected response to Fetch: Ack")
        }
        other => panic!("got {:?}", other),
    }
    match consumer.poll_reply(&mut poll, vec![1, 0, 0, 0, 9]) {
        Err(ClientError::Other(text)) => assert_eq!(text, "unknown opcode: 0x09"),
        other => panic!("got {:?}", other),
    }
    assert!(consumer.poll_request(&poll).is_some());
    match consumer.commit_reply(Frame::Error { code: 1, message: "later".into() }.encode()) {
        Err(ClientError::Other(text)) => assert_eq!(text, "later"),
        other => panic!("got {:?}", other),
    }
    match consumer.commit_reply(Frame::ProduceAck { offset: 1 }.encode()) {
        Err(ClientError::InvalidData(text)) => {
            assert_eq!(text, "unexpected response to CommitOffset")
        }
        other => panic!("got {:?}", other),
    }
    assert_eq!(consumer.current_offset(), 0);
}

#[test]
fn there_is_no_offset_behind_the_last() {
    let last = Frame::FetchData { offset: u64::MAX, payload: Vec::new() }.encode();
    assert!(!admits_reply(&last));
    let one_before = Frame::FetchData { offset: u64::MAX - 1, payload: Vec::new() }.encode();
    assert!(admits_reply(&one_before));
    assert!(!admits_reply(&one_before[..15]));
    assert!(admits_reply(&[]));
}
