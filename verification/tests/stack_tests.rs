use mindstack::{load_items, load_raw, plan_pop, reconstruct, top_items, Item, Log, LogCommand,
    ReadError};

fn item(ts: u64, text: &str) -> Item {
    Item { timestamp: ts, data: text.to_string() }
}

fn push_frame(bytes: &mut Vec<u8>, ts: u64, command: LogCommand, text: &str) {
    let log = Log::new(Some(ts), command, text.to_string());
    bytes.extend_from_slice(&log.frame().unwrap());
}

#[test]
fn reconstruction_basic() {
    let mut bytes: Vec<u8> = Vec::new();
    push_frame(&mut bytes, 1, LogCommand::Add, "a");
    push_frame(&mut bytes, 2, LogCommand::Add, "b");
    push_frame(&mut bytes, 2, LogCommand::Pop, "b");
    let items = load_items(Some(&bytes)).unwrap();
    assert_eq!(items, vec![item(1, "a")]);
}

#[test]
fn duplicate_key_suppression() {
    let mut bytes: Vec<u8> = Vec::new();
    push_frame(&mut bytes, 1, LogCommand::Add, "x");
    push_frame(&mut bytes, 1, LogCommand::Add, "x");
    push_frame(&mut bytes, 1, LogCommand::Pop, "x");
    let items = load_items(Some(&bytes)).unwrap();
    assert_eq!(items, Vec::<Item>::new());
}

#[test]
fn newest_first_order() {
    let mut bytes: Vec<u8> = Vec::new();
    push_frame(&mut bytes, 1, LogCommand::Add, "a");
    push_frame(&mut bytes, 2, LogCommand::Add, "b");
    push_frame(&mut bytes, 3, LogCommand::Add, "c");
    let items = load_items(Some(&bytes)).unwrap();
    assert_eq!(items, vec![item(3, "c"), item(2, "b"), item(1, "a")]);
}

#[test]
fn tombstone_must_match_both_fields() {
    let mut bytes: Vec<u8> = Vec::new();
    push_frame(&mut bytes, 1, LogCommand::Add, "a");
    push_frame(&mut bytes, 2, LogCommand::Pop, "a");
    let items = load_items(Some(&bytes)).unwrap();
    assert_eq!(items, vec![item(1, "a")]);
}

#[test]
fn pop_on_empty_writes_nothing() {
    let bytes: Vec<u8> = Vec::new();
    let items = load_items(Some(&bytes)).unwrap();
    assert_eq!(items, Vec::<Item>::new());
    assert!(plan_pop(&items).is_none());
}

#[test]
fn pop_plans_tombstone_of_top() {
    let mut bytes: Vec<u8> = Vec::new();
    push_frame(&mut bytes, 1, LogCommand::Add, "a");
    push_frame(&mut bytes, 3, LogCommand::Add, "c");
    let items = load_items(Some(&bytes)).unwrap();
    let planned = plan_pop(&items).unwrap();
    assert_eq!(planned, Log::new(Some(3), LogCommand::Pop, "c".to_string()));
}

#[test]
fn pop_then_replay_removes_top() {
    let mut bytes: Vec<u8> = Vec::new();
    push_frame(&mut bytes, 1, LogCommand::Add, "a");
    push_frame(&mut bytes, 2, LogCommand::Add, "b");
    let items = load_items(Some(&bytes)).unwrap();
    let planned = plan_pop(&items).unwrap();
    bytes.extend_from_slice(&planned.frame().unwrap());
    let after = load_items(Some(&bytes)).unwrap();
    assert_eq!(after, vec![item(1, "a")]);
}

#[test]
fn top_count_zero_is_empty() {
    let mut bytes: Vec<u8> = Vec::new();
    push_frame(&mut bytes, 1, LogCommand::Add, "a");
    push_frame(&mut bytes, 2, LogCommand::Add, "b");
    let items = load_items(Some(&bytes)).unwrap();
    assert_eq!(top_items(&items, 0), Vec::<Item>::new());
}

#[test]
fn top_huge_count_is_whole_stack() {
    let mut bytes: Vec<u8> = Vec::new();
    push_frame(&mut bytes, 1, LogCommand::Add, "a");
    push_frame(&mut bytes, 2, LogCommand::Add, "b");
    push_frame(&mut bytes, 3, LogCommand::Add, "c");
    let items = load_items(Some(&bytes)).unwrap();
    assert_eq!(top_items(&items, u64::MAX), items);
}

#[test]
fn top_takes_newest() {
    let mut bytes: Vec<u8> = Vec::new();
    push_frame(&mut bytes, 1, LogCommand::Add, "a");
    push_frame(&mut bytes, 2, LogCommand::Add, "b");
    push_frame(&mut bytes, 3, LogCommand::Add, "c");
    let items = load_items(Some(&bytes)).unwrap();
    assert_eq!(top_items(&items, 2), vec![item(3, "c"), item(2, "b")]);
}

#[test]
fn missing_storage_reads_empty() {
    assert_eq!(load_items(None).unwrap(), Vec::<Item>::new());
}

#[test]
fn missing_storage_debug_is_error() {
    assert!(matches!(load_raw(None), Err(ReadError::StorageMissing)));
}

#[test]
fn debug_shows_raw_records_in_file_order() {
    let mut bytes: Vec<u8> = Vec::new();
    push_frame(&mut bytes, 1, LogCommand::Add, "a");
    push_frame(&mut bytes, 1, LogCommand::Pop, "a");
    let logs = load_raw(Some(&bytes)).unwrap();
    assert_eq!(
        logs,
        vec![
            Log::new(Some(1), LogCommand::Add, "a".to_string()),
            Log::new(Some(1), LogCommand::Pop, "a".to_string()),
        ]
    );
}

#[test]
fn corruption_surfaces_to_read_commands() {
    let bytes: Vec<u8> = vec![0, 0, 0, 9, 1, 2, 3];
    assert_eq!(load_items(Some(&bytes)), Err(ReadError::CorruptFrame));
    assert!(matches!(load_raw(Some(&bytes)), Err(ReadError::CorruptFrame)));
}

#[test]
fn reconstruct_keeps_unpopped_duplicates() {
    let logs = vec![
        Log::new(Some(4), LogCommand::Add, "d".to_string()),
        Log::new(Some(4), LogCommand::Add, "d".to_string()),
    ];
    let items = reconstruct(&logs);
    assert_eq!(items, vec![item(4, "d"), item(4, "d")]);
}

#[test]
fn log_new_keeps_given_fields() {
    let log = Log::new(Some(42), LogCommand::Add, "t".to_string());
    assert_eq!(log.timestamp, 42);
    assert!(matches!(log.command, LogCommand::Add));
    assert_eq!(log.data, "t");
}
