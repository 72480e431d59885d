use vstd::prelude::*;

verus! {

/// The operator id used where no operator is meant.
pub const DUMMY_ID: u32 = 0;

/// What one record of an operator invocation holds.
pub struct EventRecord {
    pub name: Seq<char>,
    pub id: u32,
    pub start_ns: u64,
    pub end_ns: u64,
    pub is_stop: bool,
}

/// Event types that a record of one operator invocation can be made into.
pub trait LoggableEventSimple: Sized {
    /// The record that the event holds.
    spec fn record(&self) -> EventRecord;

    fn new(name: String, id: u32, start_ns: u64, end_ns: u64, is_stop: bool) -> (e: Self)
        ensures
            e.record() == (EventRecord { name: name@, id, start_ns, end_ns, is_stop }),
    ;
}

/// One operator invocation: which operator, from which cycle to which, and
/// whether the invocation closed a group.
#[derive(Debug)]
pub struct SimpleEvent {
    name: String,
    id: u32,
    start_ns: u64,
    end_ns: u64,
    is_stop: bool,
}

impl LoggableEventSimple for SimpleEvent {
    closed spec fn record(&self) -> EventRecord {
        EventRecord {
            name: self.name@,
            id: self.id,
            start_ns: self.start_ns,
            end_ns: self.end_ns,
            is_stop: self.is_stop,
        }
    }

    fn new(name: String, id: u32, start_ns: u64, end_ns: u64, is_stop: bool) -> (e: Self) {
        SimpleEvent { name, id, start_ns, end_ns, is_stop }
    }
}

impl SimpleEvent {
    /// The operator's name.
    pub fn name(&self) -> (s: &String)
        ensures
            s@ == self.record().name,
    {
        &self.name
    }

    /// The operator's id.
    pub fn id(&self) -> (v: u32)
        ensures
            v == self.record().id,
    {
        self.id
    }

    /// The cycle at which the invocation began.
    pub fn start_ns(&self) -> (v: u64)
        ensures
            v == self.record().start_ns,
    {
        self.start_ns
    }

    /// The cycle at which the invocation ended.
    pub fn end_ns(&self) -> (v: u64)
        ensures
            v == self.record().end_ns,
    {
        self.end_ns
    }

    /// Whether the invocation closed a group.
    pub fn is_stop(&self) -> (v: bool)
        ensures
            v == self.record().is_stop,
    {
        self.is_stop
    }
}

} // verus!
