use vstd::prelude::*;

use super::WorldEvent;
use crate::rules::constants::{MAX_EVENT_LOG_RECORDS, VERSION_INCREMENT, ZERO_VERSION};

verus! {

/// An event with its log position and the round it was observed in.
#[derive(Clone, Copy, Debug, PartialEq, Eq, Structural)]
pub struct EventRecord {
    pub id: u64,
    pub observed_round: i32,
    pub event: WorldEvent,
}

/// A bounded log of world events; ids grow by one per event and the oldest
/// records are dropped once the log is full.
#[derive(Clone, Debug)]
pub struct EventLog {
    records: Vec<EventRecord>,
    next_id: u64,
}

#[derive(Clone, Copy, Debug, PartialEq, Eq, Structural)]
pub enum ReaderId {
    Strategy,
    Mission,
    Tactics,
    Individual,
}

/// The id of the next record a reader has not yet acknowledged.
#[derive(Clone, Copy, Debug, PartialEq, Eq, Structural)]
pub struct EventCursor {
    next_id: u64,
}

impl Default for EventCursor {
    fn default() -> (r: Self)
        ensures
            r.spec_next_id() == ZERO_VERSION,
    {
        Self { next_id: ZERO_VERSION }
    }
}

impl EventCursor {
    pub closed spec fn spec_next_id(self) -> u64 {
        self.next_id
    }

    pub fn next_id(self) -> (r: u64)
        ensures
            r == self.spec_next_id(),
    {
        self.next_id
    }
}

/// Proof that a reader was handed the records from `start` up to `next`.
#[derive(Clone, Copy, Debug, PartialEq, Eq, Structural)]
pub struct DeliveryReceipt {
    reader: ReaderId,
    start: EventCursor,
    next: EventCursor,
}

impl DeliveryReceipt {
    pub closed spec fn spec_reader(self) -> ReaderId {
        self.reader
    }

    pub closed spec fn spec_start(self) -> EventCursor {
        self.start
    }

    pub closed spec fn spec_next(self) -> EventCursor {
        self.next
    }
}

/// The records a reader has not yet acknowledged.
#[derive(Clone, Debug)]
pub struct DeliveryBatch {
    reader: ReaderId,
    start: EventCursor,
    next: EventCursor,
    records: Vec<EventRecord>,
    truncated: bool,
}

impl DeliveryBatch {
    pub closed spec fn spec_records(self) -> Seq<EventRecord> {
        self.records@
    }

    pub closed spec fn spec_truncated(self) -> bool {
        self.truncated
    }

    pub closed spec fn spec_receipt(self) -> DeliveryReceipt {
        DeliveryReceipt { reader: self.reader, start: self.start, next: self.next }
    }

    pub fn records(&self) -> (r: &[EventRecord])
        ensures
            r@ == self.spec_records(),
    {
        self.records.as_slice()
    }

    pub fn truncated(&self) -> (r: bool)
        ensures
            r == self.spec_truncated(),
    {
        self.truncated
    }

    pub fn receipt(&self) -> (r: DeliveryReceipt)
        ensures
            r == self.spec_receipt(),
    {
        DeliveryReceipt { reader: self.reader, start: self.start, next: self.next }
    }
}

#[derive(Clone, Copy, Debug, PartialEq, Eq, Structural)]
pub enum AcknowledgeError {
    StaleReceipt,
}

/// Per-reader delivery cursors over the event log.
#[derive(Clone, Copy, Debug)]
pub struct EventInbox {
    strategy: EventCursor,
    mission: EventCursor,
    tactics: EventCursor,
    individual: EventCursor,
}

impl Default for EventInbox {
    fn default() -> (r: Self)
        ensures
            forall|reader: ReaderId| r.spec_cursor(reader).spec_next_id() == ZERO_VERSION,
    {
        let c = EventCursor::default();
        EventInbox { strategy: c, mission: c, tactics: c, individual: c }
    }
}

/// Records for `events`, numbered from `first_id`, observed in `round`.
pub open spec fn appended_records(first_id: int, round: i32, events: Seq<WorldEvent>) -> Seq<EventRecord> {
    Seq::new(events.len(), |i: int| EventRecord { id: (first_id + i) as u64, observed_round: round, event: events[i] })
}

/// The newest `MAX_EVENT_LOG_RECORDS` records of a sequence.
pub open spec fn spec_trim(s: Seq<EventRecord>) -> Seq<EventRecord> {
    if s.len() > MAX_EVENT_LOG_RECORDS {
        s.subrange(s.len() - MAX_EVENT_LOG_RECORDS, s.len() as int)
    } else {
        s
    }
}

impl Default for EventLog {
    fn default() -> (r: Self)
        ensures
            r.well_formed(),
            r.spec_records() == Seq::<EventRecord>::empty(),
            r.spec_next_id() == ZERO_VERSION,
    {
        EventLog { records: Vec::new(), next_id: ZERO_VERSION }
    }
}

impl EventLog {
    pub closed spec fn spec_records(self) -> Seq<EventRecord> {
        self.records@
    }

    pub closed spec fn spec_next_id(self) -> u64 {
        self.next_id
    }

    /// Ids are consecutive, end just below the next id, and the log is
    /// within its capacity.
    pub closed spec fn well_formed(self) -> bool {
        &&& self.records@.len() <= MAX_EVENT_LOG_RECORDS
        &&& self.records@.len() <= self.next_id
        &&& forall|i: int| 0 <= i < self.records@.len() ==>
            (#[trigger] self.records@[i]).id == self.next_id - self.records@.len() + i
    }

    /// Appends one record per event, all observed in `round`, then drops the
    /// oldest records beyond the capacity.
    pub fn append(&mut self, round: i32, events: &[WorldEvent])
        requires
            old(self).well_formed(),
            old(self).spec_next_id() + events@.len() <= u64::MAX,
        ensures
            final(self).well_formed(),
            final(self).spec_next_id() == old(self).spec_next_id() + events@.len(),
            final(self).spec_records() == spec_trim(
                old(self).spec_records() + appended_records(old(self).spec_next_id() as int, round, events@),
            ),
    {
        let ghost full = self.records@ + appended_records(self.next_id as int, round, events@);
        let ghost start = self.next_id;
        let mut i: usize = 0;
        while i < events.len()
            invariant
                i <= events@.len(),
                start + events@.len() <= u64::MAX,
                self.next_id == start + i,
                self.records@ == old(self).records@ + appended_records(start as int, round, events@.subrange(0, i as int)),
                full == old(self).records@ + appended_records(start as int, round, events@),
                old(self).well_formed(),
                old(self).next_id == start,
            decreases events@.len() - i,
        {
            let record = EventRecord { id: self.next_id, observed_round: round, event: events[i] };
            self.records.push(record);
            self.next_id = self.next_id + VERSION_INCREMENT;
            assert(appended_records(start as int, round, events@.subrange(0, i + 1))
                =~= appended_records(start as int, round, events@.subrange(0, i as int)).push(record));
            i = i + 1;
        }
        assert(events@.subrange(0, events@.len() as int) =~= events@);
        assert(self.records@ == full);
        if self.records.len() > MAX_EVENT_LOG_RECORDS {
            let excess = self.records.len() - MAX_EVENT_LOG_RECORDS;
            let tail = self.records.split_off(excess);
            self.records = tail;
        }
        assert(self.records@ =~= spec_trim(full));
        assert forall|i: int| 0 <= i < self.records@.len() implies
            (#[trigger] self.records@[i]).id == self.next_id - self.records@.len() + i by {
            let k = full.len() - self.records@.len() + i;
            assert(self.records@[i] == full[k]);
            if k < old(self).records@.len() {
                assert(full[k] == old(self).records@[k]);
            }
        }
    }

    /// The id the next appended record gets.
    pub fn next_record_id(&self) -> (r: u64)
        ensures
            r == self.spec_next_id(),
    {
        self.next_id
    }

    /// The retained records, oldest first.
    pub fn records(&self) -> (r: &[EventRecord])
        ensures
            r@ == self.spec_records(),
    {
        self.records.as_slice()
    }

    /// The retained records after the given id (all of them for `None`).
    pub fn after(&self, cursor: Option<u64>) -> (r: Vec<EventRecord>)
        ensures
            r@ == self.spec_records().filter(|rec: EventRecord| cursor matches Some(id) ==> rec.id > id),
    {
        let mut r: Vec<EventRecord> = Vec::new();
        let mut i: usize = 0;
        while i < self.records.len()
            invariant
                i <= self.records@.len(),
                r@ == self.records@.subrange(0, i as int).filter(|rec: EventRecord| cursor matches Some(id) ==> rec.id > id),
            decreases self.records@.len() - i,
        {
            let record = self.records[i];
            let keep = match cursor {
                Some(id) => record.id > id,
                None => true,
            };
            if keep {
                r.push(record);
            }
            proof {
                let f = |rec: EventRecord| cursor matches Some(id) ==> rec.id > id;
                assert(self.records@.subrange(0, i + 1) =~= self.records@.subrange(0, i as int).push(record));
                crate::collections::lemma_filter_push(self.records@.subrange(0, i as int), f, record);
            }
            i = i + 1;
        }
        assert(self.records@.subrange(0, self.records@.len() as int) =~= self.records@);
        r
    }
}

/// Two cursors are the same exactly when they stand at the same id.
pub proof fn lemma_cursor_equality(a: EventCursor, b: EventCursor)
    ensures
        a == b <==> a.spec_next_id() == b.spec_next_id(),
{
}

/// The log keeps its records in increasing id order, each id once.
pub proof fn law_log_ids_increase(log: EventLog)
    requires
        log.well_formed(),
    ensures
        forall|i: int, j: int| 0 <= i < j < log.spec_records().len()
            ==> (#[trigger] log.spec_records()[i]).id < (#[trigger] log.spec_records()[j]).id,
{
}

impl EventInbox {
    pub closed spec fn spec_cursor(self, reader: ReaderId) -> EventCursor {
        match reader {
            ReaderId::Strategy => self.strategy,
            ReaderId::Mission => self.mission,
            ReaderId::Tactics => self.tactics,
            ReaderId::Individual => self.individual,
        }
    }

    /// The reader's cursor; a reader that never acknowledged starts at zero.
    pub fn cursor(&self, reader: ReaderId) -> (r: EventCursor)
        ensures
            r == self.spec_cursor(reader),
    {
        match reader {
            ReaderId::Strategy => self.strategy,
            ReaderId::Mission => self.mission,
            ReaderId::Tactics => self.tactics,
            ReaderId::Individual => self.individual,
        }
    }

    /// The records at or after the reader's cursor, whether older unread
    /// records were already dropped, and a receipt for acknowledging them.
    pub fn poll(&self, reader: ReaderId, log: &EventLog) -> (r: DeliveryBatch)
        requires
            log.well_formed(),
        ensures
            r.spec_records() == log.spec_records().filter(|rec: EventRecord| rec.id >= self.spec_cursor(reader).spec_next_id()),
            r.spec_truncated() == (log.spec_records().len() > 0 && log.spec_records()[0].id > self.spec_cursor(reader).spec_next_id()),
            r.spec_receipt().spec_reader() == reader,
            r.spec_receipt().spec_start() == self.spec_cursor(reader),
            r.spec_receipt().spec_next().spec_next_id() == (if r.spec_records().len() > 0 {
                r.spec_records().last().id + 1
            } else {
                self.spec_cursor(reader).spec_next_id() as int
            }),
    {
        let start = self.cursor(reader);
        let truncated = log.records.len() > 0 && log.records[0].id > start.next_id;
        let mut records: Vec<EventRecord> = Vec::new();
        let mut i: usize = 0;
        while i < log.records.len()
            invariant
                log.well_formed(),
                i <= log.records@.len(),
                records@ == log.records@.subrange(0, i as int).filter(|rec: EventRecord| rec.id >= start.next_id),
                forall|j: int| 0 <= j < records@.len() ==> (#[trigger] records@[j]).id < log.next_id,
            decreases log.records@.len() - i,
        {
            let record = log.records[i];
            if record.id >= start.next_id {
                records.push(record);
            }
            proof {
                let f = |rec: EventRecord| rec.id >= start.next_id;
                assert(log.records@.subrange(0, i + 1) =~= log.records@.subrange(0, i as int).push(record));
                crate::collections::lemma_filter_push(log.records@.subrange(0, i as int), f, record);
            }
            i = i + 1;
        }
        assert(log.records@.subrange(0, log.records@.len() as int) =~= log.records@);
        let next = if records.len() > 0 {
            let last = records[records.len() - 1];
            EventCursor { next_id: last.id + VERSION_INCREMENT }
        } else {
            start
        };
        DeliveryBatch { reader, start, next, records, truncated }
    }

    /// Moves the reader's cursor past a delivery, unless the cursor moved
    /// since that delivery was polled.
    pub fn acknowledge(&mut self, receipt: DeliveryReceipt) -> (r: Result<(), AcknowledgeError>)
        ensures
            r is Err <==> old(self).spec_cursor(receipt.spec_reader()) != receipt.spec_start(),
            r is Err ==> *final(self) == *old(self),
            r is Ok ==> final(self).spec_cursor(receipt.spec_reader()) == receipt.spec_next(),
            forall|other: ReaderId| other != receipt.spec_reader() ==> final(self).spec_cursor(other) == old(self).spec_cursor(other),
    {
        if self.cursor(receipt.reader) != receipt.start {
            return Err(AcknowledgeError::StaleReceipt);
        }
        match receipt.reader {
            ReaderId::Strategy => self.strategy = receipt.next,
            ReaderId::Mission => self.mission = receipt.next,
            ReaderId::Tactics => self.tactics = receipt.next,
            ReaderId::Individual => self.individual = receipt.next,
        }
        Ok(())
    }
}

} // verus!
