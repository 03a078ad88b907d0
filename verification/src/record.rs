use vstd::prelude::*;

verus! {

/// What a durable record did: pushed a task, or tombstoned one.
#[derive(Clone, Copy, Debug, PartialEq, Eq, Structural)]
pub enum LogCommand {
    Add,
    Pop,
}

/// Why a read of the stored log produced no records.
#[derive(Clone, Copy, Debug, PartialEq, Eq, Structural)]
pub enum ReadError {
    /// Nothing has ever been appended: there is no log yet.
    StorageMissing,
    /// A length prefix promised more bytes than the log holds, or a
    /// record's bytes do not follow the encoding.
    CorruptFrame,
}

/// Mathematical model of a record: the same fields, with the task text
/// as a sequence of characters.
#[verifier::ext_equal]
pub struct LogModel {
    pub timestamp: u64,
    pub command: LogCommand,
    pub data: Seq<char>,
}

/// Mathematical model of a live task: its creation time and text.
#[verifier::ext_equal]
pub struct ItemModel {
    pub timestamp: u64,
    pub data: Seq<char>,
}

/// The durable unit of change: one appended log record, immutable once
/// written. A Pop record reuses the popped item's timestamp and text
/// verbatim, so that the pair identifies the tombstoned item.
#[derive(Debug)]
pub struct Log {
    pub timestamp: u64,
    pub command: LogCommand,
    pub data: String,
}

impl View for Log {
    type V = LogModel;

    open spec fn view(&self) -> LogModel {
        LogModel { timestamp: self.timestamp, command: self.command, data: self.data@ }
    }
}

/// One task on the stack: its creation time and text. Two items are the
/// same task exactly when both fields match.
#[derive(Debug)]
pub struct Item {
    pub timestamp: u64,
    pub data: String,
}

impl View for Item {
    type V = ItemModel;

    open spec fn view(&self) -> ItemModel {
        ItemModel { timestamp: self.timestamp, data: self.data@ }
    }
}

impl Clone for Item {
    fn clone(&self) -> (other: Item)
        ensures
            other@ == self@,
    {
        Item { timestamp: self.timestamp, data: self.data.clone() }
    }
}

impl PartialEq for Item {
    fn eq(&self, other: &Item) -> (r: bool) {
        self.timestamp == other.timestamp && self.data == other.data
    }
}

impl vstd::std_specs::cmp::PartialEqSpecImpl for Item {
    open spec fn obeys_eq_spec() -> bool {
        true
    }

    open spec fn eq_spec(&self, other: &Item) -> bool {
        self@ == other@
    }
}

impl Clone for Log {
    fn clone(&self) -> (other: Log)
        ensures
            other@ == self@,
    {
        Log { timestamp: self.timestamp, command: self.command, data: self.data.clone() }
    }
}

impl PartialEq for Log {
    fn eq(&self, other: &Log) -> (r: bool) {
        self.timestamp == other.timestamp && self.command == other.command
            && self.data == other.data
    }
}

impl vstd::std_specs::cmp::PartialEqSpecImpl for Log {
    open spec fn obeys_eq_spec() -> bool {
        true
    }

    open spec fn eq_spec(&self, other: &Log) -> bool {
        self@ == other@
    }
}

/// The models of a vector of records, in the same order.
pub open spec fn logs_view(v: Seq<Log>) -> Seq<LogModel> {
    v.map_values(|l: Log| l@)
}

/// The models of a vector of items, in the same order.
pub open spec fn items_view(v: Seq<Item>) -> Seq<ItemModel> {
    v.map_values(|it: Item| it@)
}

/// Relies on std::time::SystemTime::now for the wall clock, read as whole
/// seconds since the Unix epoch (zero if the clock reads earlier than the
/// epoch). Nothing is promised of the value: it is whatever the clock says.
#[verifier::external_body]
fn now_secs() -> u64 {
    match std::time::SystemTime::now().duration_since(std::time::SystemTime::UNIX_EPOCH) {
        Ok(elapsed) => elapsed.as_secs(),
        Err(_) => 0,
    }
}

impl Log {
    /// A fresh record, stamped with the given moment, or with the current
    /// time when none is given.
    pub fn new(timestamp: Option<u64>, command: LogCommand, data: String) -> (log: Log)
        ensures
            timestamp matches Some(t) ==> log.timestamp == t,
            log.command == command,
            log.data == data,
    {
        let timestamp = match timestamp {
            Some(t) => t,
            None => now_secs(),
        };
        Log { timestamp, command, data }
    }
}

} // verus!
