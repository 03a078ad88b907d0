use mindstack::{Log, LogCommand, ReadError};

fn record(ts: u64, command: LogCommand, text: &str) -> Log {
    Log::new(Some(ts), command, text.to_string())
}

fn frame_of(ts: u64, command: LogCommand, text: &str) -> Vec<u8> {
    record(ts, command, text).frame().unwrap()
}

#[test]
fn round_trip_add() {
    let log = record(5, LogCommand::Add, "hello world");
    let encoded = log.encode();
    let decoded = Log::decode(&encoded).unwrap();
    assert_eq!(decoded, log);
}

#[test]
fn round_trip_pop_unicode() {
    let log = record(u64::MAX, LogCommand::Pop, "h\u{e9}llo \u{2713}");
    let encoded = log.encode();
    let decoded = Log::decode(&encoded).unwrap();
    assert_eq!(decoded, log);
}

#[test]
fn round_trip_empty_text() {
    let log = record(0, LogCommand::Add, "");
    let decoded = Log::decode(&log.encode()).unwrap();
    assert_eq!(decoded, log);
}

#[test]
fn encode_exact_bytes() {
    let log = record(1, LogCommand::Add, "A");
    let expected: Vec<u8> = vec![
        1, 0, 0, 0, 0, 0, 0, 0, // timestamp, little-endian
        0, 0, 0, 0, // Add discriminant
        1, 0, 0, 0, 0, 0, 0, 0, // text byte length, little-endian
        0x41, // "A"
    ];
    assert_eq!(log.encode(), expected);
}

#[test]
fn encode_matches_bincode() {
    let add = record(5, LogCommand::Add, "hello");
    assert_eq!(add.encode(), bincode::serialize(&(5u64, 0u32, "hello")).unwrap());
    let pop = record(7, LogCommand::Pop, "bye");
    assert_eq!(pop.encode(), bincode::serialize(&(7u64, 1u32, "bye")).unwrap());
}

#[test]
fn frame_layout() {
    let log = record(3, LogCommand::Add, "task");
    let encoded = log.encode();
    let framed = log.frame().unwrap();
    assert_eq!(&framed[0..4], (encoded.len() as u32).to_be_bytes().as_slice());
    assert_eq!(&framed[4..], encoded.as_slice());
}

#[test]
fn load_logs_empty_file() {
    assert_eq!(Log::load_logs(&[]).unwrap(), Vec::<Log>::new());
}

#[test]
fn load_logs_two_frames() {
    let mut bytes = frame_of(1, LogCommand::Add, "first");
    bytes.extend_from_slice(&frame_of(2, LogCommand::Pop, "second"));
    let logs = Log::load_logs(&bytes).unwrap();
    assert_eq!(
        logs,
        vec![record(1, LogCommand::Add, "first"), record(2, LogCommand::Pop, "second")]
    );
}

#[test]
fn load_logs_trailing_partial_prefix() {
    let mut bytes = frame_of(1, LogCommand::Add, "only");
    bytes.extend_from_slice(&[0xFF, 0x00]);
    let logs = Log::load_logs(&bytes).unwrap();
    assert_eq!(logs, vec![record(1, LogCommand::Add, "only")]);
}

#[test]
fn load_logs_truncated_payload() {
    let mut bytes: Vec<u8> = vec![0, 0, 0, 10];
    bytes.extend_from_slice(&[1, 2, 3]);
    assert_eq!(Log::load_logs(&bytes), Err(ReadError::CorruptFrame));
}

#[test]
fn load_logs_record_too_short() {
    let mut bytes: Vec<u8> = vec![0, 0, 0, 5];
    bytes.extend_from_slice(&[0, 0, 0, 0, 0]);
    assert_eq!(Log::load_logs(&bytes), Err(ReadError::CorruptFrame));
}

#[test]
fn load_logs_unknown_discriminant() {
    let mut body = record(1, LogCommand::Add, "x").encode();
    body[8] = 7;
    let mut bytes = (body.len() as u32).to_be_bytes().to_vec();
    bytes.extend_from_slice(&body);
    assert_eq!(Log::load_logs(&bytes), Err(ReadError::CorruptFrame));
}

#[test]
fn load_logs_length_field_mismatch() {
    let mut body = record(1, LogCommand::Add, "x").encode();
    body[12] = 9;
    let mut bytes = (body.len() as u32).to_be_bytes().to_vec();
    bytes.extend_from_slice(&body);
    assert_eq!(Log::load_logs(&bytes), Err(ReadError::CorruptFrame));
}

#[test]
fn load_logs_invalid_utf8() {
    let mut body = record(1, LogCommand::Add, "x").encode();
    let last = body.len() - 1;
    body[last] = 0xFF;
    let mut bytes = (body.len() as u32).to_be_bytes().to_vec();
    bytes.extend_from_slice(&body);
    assert_eq!(Log::load_logs(&bytes), Err(ReadError::CorruptFrame));
}

#[test]
fn read_twice_same_records() {
    let mut bytes = frame_of(1, LogCommand::Add, "a");
    bytes.extend_from_slice(&frame_of(2, LogCommand::Add, "b"));
    let first = Log::load_logs(&bytes).unwrap();
    let second = Log::load_logs(&bytes).unwrap();
    assert_eq!(first, second);
}

#[test]
fn append_extends_read() {
    let mut bytes = frame_of(1, LogCommand::Add, "a");
    bytes.extend_from_slice(&frame_of(2, LogCommand::Add, "b"));
    let before = Log::load_logs(&bytes).unwrap();
    let extra = record(3, LogCommand::Pop, "b");
    bytes.extend_from_slice(&extra.frame().unwrap());
    let after = Log::load_logs(&bytes).unwrap();
    let mut expected = before;
    expected.push(extra);
    assert_eq!(after, expected);
}
