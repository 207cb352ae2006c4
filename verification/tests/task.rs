use docker_log_driver::config::{Config, LogLevel};
use docker_log_driver::log::{LogMessage, NormalizeError};
use docker_log_driver::protobuf::LogEntry;
use docker_log_driver::reader::ReaderError;
use docker_log_driver::task::{ReadOutcome, Task, TaskAction, TaskError, TaskEvent};

fn config() -> Config {
    Config { log_ingest_api: "http://localhost:8080".to_string(), log_level: LogLevel::Info }
}

struct ReadBuilder {
    data: Vec<u8>,
}

impl ReadBuilder {
    fn new() -> Self {
        ReadBuilder { data: Vec::new() }
    }

    fn add(mut self, entry: LogEntry) -> Self {
        let mut buf = entry.to_bytes();
        let entry_size = buf.len() as u32;
        let size_buf = entry_size.to_be_bytes();
        self.data.append(&mut size_buf.to_vec());
        self.data.append(&mut buf);
        self
    }

    fn raw(mut self, bytes: &[u8]) -> Self {
        self.data.extend_from_slice(bytes);
        self
    }

    fn build(self) -> Vec<u8> {
        self.data
    }
}

fn entry(line: &[u8], time_nano: i64) -> LogEntry {
    LogEntry {
        source: "test".to_string(),
        time_nano,
        line: line.to_vec(),
        partial: false,
        partial_log_metadata: None,
    }
}

/// Runs a processor as its caller does: it reads the stream in pieces of
/// `piece` bytes, hands over every message, of which every second one
/// fails, and stops before the read with number `stop_at`, if that is set.
fn process_file(
    data: &[u8],
    piece: usize,
    stop_at: Option<usize>,
) -> (Vec<LogMessage>, Result<(), TaskError>) {
    let mut task = Task::new(config());
    let mut messages = Vec::new();
    let mut chunks = data.chunks(piece);
    let mut reads = 0;
    let mut action = task.step(TaskEvent::Opened);
    loop {
        action = match action {
            TaskAction::Read => {
                if stop_at == Some(reads) {
                    task.step(TaskEvent::Stop)
                } else {
                    reads += 1;
                    match chunks.next() {
                        Some(chunk) => task.step(TaskEvent::Data(chunk.to_vec())),
                        None => task.step(TaskEvent::Eof),
                    }
                }
            }
            TaskAction::Ingest(message) => {
                messages.push(message);
                task.step(TaskEvent::Ingested(messages.len() % 2 == 0))
            }
            TaskAction::Finish(result) => {
                assert!(task.is_finished());
                return (messages, result);
            }
        }
    }
}

#[test]
fn test_process_file() {
    let test_key = "test_process_file".to_string();
    let data = ReadBuilder::new()
        .add(LogEntry {
            source: "test".to_string(),
            time_nano: 0,
            line: test_key.as_bytes().to_vec(),
            partial: false,
            partial_log_metadata: None,
        })
        .add(LogEntry {
            source: "test".to_string(),
            time_nano: 0,
            line: test_key.as_bytes().to_vec(),
            partial: false,
            partial_log_metadata: None,
        })
        .build();

    let (messages, result) = process_file(&data[..], data.len(), None);
    result.expect("Processing file should not result in error");

    assert_eq!(messages.len(), 2);
    assert_eq!(messages[0].message, test_key);
    assert_eq!(messages[1].message, test_key);
}

#[test]
fn messages_come_in_the_order_of_the_records_however_the_stream_is_cut() {
    let mut builder = ReadBuilder::new();
    for i in 0..20 {
        builder = builder.add(entry(format!("line {}", i).as_bytes(), i));
    }
    let data = builder.build();
    for piece in [1usize, 2, 3, 5, 7, 16, 64, 1000] {
        let (messages, result) = process_file(&data, piece, None);
        assert!(result.is_ok());
        assert_eq!(messages.len(), 20, "pieces of {}", piece);
        for (i, message) in messages.iter().enumerate() {
            assert_eq!(message.message, format!("line {}", i));
            assert_eq!(message.timestamp, i as i64);
        }
    }
}

#[test]
fn a_stream_that_ends_within_a_record_ends_in_success() {
    let whole = ReadBuilder::new().add(entry(b"one", 1)).add(entry(b"two", 2)).build();
    for cut in 0..whole.len() {
        let (messages, result) = process_file(&whole[..cut], 4, None);
        assert!(result.is_ok(), "cut at {}", cut);
        let first = ReadBuilder::new().add(entry(b"one", 1)).build().len();
        assert_eq!(messages.len(), if cut >= first { 1 } else { 0 }, "cut at {}", cut);
    }
}

#[test]
fn the_first_record_that_gives_no_message_ends_the_processor() {
    let data = ReadBuilder::new()
        .add(entry(b"good", 1))
        .add(entry(b"{\"message\":\"also good\"}", 2))
        .add(entry(b"[\"no object\"]", 3))
        .add(entry(b"never reached", 4))
        .build();
    for piece in [1usize, 9, 1000] {
        let (messages, result) = process_file(&data, piece, None);
        match result {
            Err(TaskError::Normalize(NormalizeError::UnexpectedFormat)) => {}
            other => panic!("{:?}", other),
        }
        assert_eq!(messages.len(), 2);
        assert_eq!(messages[0].message, "good");
        assert_eq!(messages[1].message, "also good");
    }
}

#[test]
fn bytes_that_are_no_record_end_the_processor() {
    let data = ReadBuilder::new()
        .add(entry(b"good", 1))
        .raw(&[0, 0, 0, 2, 0x0a, 0x09])
        .add(entry(b"never reached", 4))
        .build();
    let (messages, result) = process_file(&data, 5, None);
    match result {
        Err(TaskError::Reader(ReaderError::Protobuf(_))) => {}
        other => panic!("{:?}", other),
    }
    assert_eq!(messages.len(), 1);
}

#[test]
fn a_failed_ingest_does_not_end_the_processor() {
    let data = ReadBuilder::new().add(entry(b"a", 1)).add(entry(b"b", 2)).build();
    let mut task = Task::new(config());
    assert!(matches!(task.step(TaskEvent::Opened), TaskAction::Read));
    assert!(matches!(task.step(TaskEvent::Data(data)), TaskAction::Ingest(_)));
    match task.step(TaskEvent::Ingested(false)) {
        TaskAction::Ingest(message) => assert_eq!(message.message, "b"),
        other => panic!("{:?}", other),
    }
    assert!(matches!(task.step(TaskEvent::Ingested(false)), TaskAction::Read));
    assert!(!task.is_finished());
    assert!(matches!(task.step(TaskEvent::Eof), TaskAction::Finish(Ok(()))));
    assert!(task.is_finished());
}

#[test]
fn nothing_is_ingested_after_the_stop_signal() {
    let mut builder = ReadBuilder::new();
    for i in 0..6 {
        builder = builder.add(entry(format!("line {}", i).as_bytes(), i + 1));
    }
    let data = builder.build();
    let one = data.len() / 6;
    assert_eq!(one * 6, data.len());
    for stop_at in 0..8 {
        let (messages, result) = process_file(&data, one, Some(stop_at));
        assert!(result.is_ok());
        assert_eq!(messages.len(), stop_at.min(6), "stopped before read {}", stop_at);
    }
    // a stop between two messages that are both there already
    let mut task = Task::new(config());
    assert!(matches!(task.step(TaskEvent::Data(data.clone())), TaskAction::Ingest(_)));
    assert!(matches!(task.step(TaskEvent::Stop), TaskAction::Finish(Ok(()))));
    for _ in 0..3 {
        assert!(matches!(task.step(TaskEvent::Ingested(true)), TaskAction::Finish(Ok(()))));
        assert!(matches!(task.step(TaskEvent::Data(data.clone())), TaskAction::Finish(Ok(()))));
        assert!(matches!(task.step(TaskEvent::Opened), TaskAction::Finish(Ok(()))));
    }
    assert!(task.is_finished());
}

#[test]
fn failures_outside_the_processor_end_it() {
    let mut task = Task::new(config());
    match task.step(TaskEvent::OpenFailed("no such file".to_string())) {
        TaskAction::Finish(Err(TaskError::Open(text))) => assert_eq!(text, "no such file"),
        other => panic!("{:?}", other),
    }
    assert!(task.is_finished());

    let mut task = Task::new(config());
    assert!(matches!(task.step(TaskEvent::Opened), TaskAction::Read));
    match task.step(TaskEvent::ReadFailed("broken pipe".to_string())) {
        TaskAction::Finish(Err(TaskError::Reader(ReaderError::Io(text)))) => {
            assert_eq!(text, "broken pipe")
        }
        other => panic!("{:?}", other),
    }
    assert!(task.is_finished());
}

#[test]
fn a_processor_keeps_its_configuration_and_counts_its_bytes() {
    let mut task = Task::new(config());
    assert_eq!(task.config().log_ingest_api, "http://localhost:8080");
    assert_eq!(task.buffered(), 0);
    assert!(matches!(task.step(TaskEvent::Data(vec![0, 0, 0])), TaskAction::Read));
    assert_eq!(task.buffered(), 3);
    assert!(!task.is_finished());
}

#[test]
fn the_words_of_the_failures() {
    assert_eq!(TaskError::Open("denied".to_string()).message(), "denied");
    assert_eq!(
        TaskError::Reader(ReaderError::Io("broken pipe".to_string())).message(),
        "IO error: broken pipe"
    );
    assert_eq!(
        TaskError::Normalize(NormalizeError::InvalidLevel).message(),
        "Invalid level"
    );
    let data = ReadBuilder::new().raw(&[0, 0, 0, 1, 0x0a]).build();
    let (_, result) = process_file(&data, 16, None);
    assert_eq!(
        result.unwrap_err().message(),
        "Protobuf error: failed to decode Protobuf message"
    );
}

#[test]
fn the_end_of_the_stream_is_no_failure_of_reading() {
    assert!(matches!(TaskEvent::of_read(ReadOutcome::Bytes(Vec::new())), TaskEvent::Eof));
    match TaskEvent::of_read(ReadOutcome::Bytes(vec![1, 2])) {
        TaskEvent::Data(bytes) => assert_eq!(bytes, vec![1, 2]),
        other => panic!("{:?}", other),
    }
    let ended = ReadOutcome::Failed { unexpected_eof: true, description: "early eof".to_string() };
    assert!(matches!(TaskEvent::of_read(ended), TaskEvent::Eof));
    let failed = ReadOutcome::Failed { unexpected_eof: false, description: "reset".to_string() };
    match TaskEvent::of_read(failed) {
        TaskEvent::ReadFailed(text) => assert_eq!(text, "reset"),
        other => panic!("{:?}", other),
    }
}
