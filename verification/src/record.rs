//! The records that the scan keeps, and the progress that they stand for.
//!
//! Progress is never stored on its own. It is read off the records: as many
//! events were found as there are records, and the scan goes on at the block
//! after that of the last record.
use vstd::prelude::*;
use crate::events::{Address, PairEvent};

verus! {

/// The block at which a scan starts when nothing was recorded yet.
pub const GENESIS_BLOCK: u64 = 0;

/// One recorded pair-creation event.
#[derive(Clone, Copy, Debug, PartialEq, Eq)]
pub struct Record {
    /// Rank of the event among all events ever emitted, counted from zero.
    pub id: u64,
    /// The block that holds the event.
    pub block: u64,
    /// The pair that was created.
    pub address: Address,
    pub token0: Address,
    pub token1: Address,
}

/// Where a scan stands: how many events were found, and the first block that
/// was not scanned yet.
#[derive(Clone, Copy, Debug, PartialEq, Eq)]
pub struct ProgressState {
    pub found_count: u64,
    pub next_block: u64,
}

/// The progress that a sequence of records stands for, with `genesis` as the
/// first block of a scan that has recorded nothing.
pub open spec fn progress_of(records: Seq<Record>, genesis: u64) -> ProgressState {
    ProgressState {
        found_count: records.len() as u64,
        next_block: if records.len() == 0 {
            genesis
        } else {
            (records.last().block + 1) as u64
        },
    }
}

/// The record of an event found in block `block`: its id is the event's
/// emission order less one.
pub open spec fn record_of(block: u64, event: PairEvent) -> Record {
    Record {
        id: (event.emission_order - 1) as u64,
        block,
        address: event.pair,
        token0: event.token0,
        token1: event.token1,
    }
}

/// The records of the events found in one block, in the order of the events.
pub open spec fn records_of(block: u64, events: Seq<PairEvent>) -> Seq<Record> {
    Seq::new(events.len(), |i: int| record_of(block, events[i]))
}

/// Makes the record of an event found in block `block`.
pub fn make_record(block: u64, event: &PairEvent) -> (record: Record)
    requires
        event.emission_order >= 1,
    ensures
        record == record_of(block, *event),
{
    Record {
        id: event.emission_order - 1,
        block,
        address: event.pair,
        token0: event.token0,
        token1: event.token1,
    }
}

/// Makes the records of the events found in block `block`, in their order.
pub fn make_records(block: u64, events: &Vec<PairEvent>) -> (records: Vec<Record>)
    requires
        forall|i: int| 0 <= i < events@.len() ==> (#[trigger] events@[i]).emission_order >= 1,
    ensures
        records@ == records_of(block, events@),
{
    let mut records: Vec<Record> = Vec::new();
    let mut i: usize = 0;
    while i < events.len()
        invariant
            i <= events.len(),
            forall|j: int| 0 <= j < events@.len() ==> (#[trigger] events@[j]).emission_order >= 1,
            records@ == records_of(block, events@.take(i as int)),
        decreases events.len() - i,
    {
        records.push(make_record(block, &events[i]));
        proof {
            assert(records@ =~= records_of(block, events@.take(i + 1)));
        }
        i = i + 1;
    }
    proof {
        assert(events@.take(i as int) =~= events@);
    }
    records
}

/// A store of records held in memory.
///
/// Records are appended at the end and nowhere else. An appended record is
/// durable only once `flush` was called; `recover` gives up what was not.
pub struct RecordStore {
    pub records: Vec<Record>,
    pub durable: usize,
}

impl RecordStore {
    /// The durable records never outnumber the appended ones.
    pub open spec fn wf(&self) -> bool {
        self.durable <= self.records@.len()
    }

    /// All records that were appended, in order.
    pub open spec fn appended(&self) -> Seq<Record> {
        self.records@
    }

    /// The records that a recovery would find.
    pub open spec fn flushed(&self) -> Seq<Record> {
        self.records@.take(self.durable as int)
    }

    /// A store without records.
    pub fn new() -> (store: RecordStore)
        ensures
            store.wf(),
            store.appended() == Seq::<Record>::empty(),
            store.flushed() == Seq::<Record>::empty(),
    {
        let store = RecordStore { records: Vec::new(), durable: 0 };
        proof {
            assert(store.flushed() =~= Seq::<Record>::empty());
        }
        store
    }

    /// Adds one record at the end. It is not durable yet.
    pub fn append(&mut self, record: Record)
        requires
            old(self).wf(),
        ensures
            final(self).wf(),
            final(self).appended() == old(self).appended().push(record),
            final(self).flushed() == old(self).flushed(),
    {
        self.records.push(record);
        proof {
            assert(final(self).flushed() =~= old(self).flushed());
        }
    }

    /// Adds the records at the end, in their order. They are not durable yet.
    pub fn append_all(&mut self, records: &Vec<Record>)
        requires
            old(self).wf(),
        ensures
            final(self).wf(),
            final(self).appended() == old(self).appended() + records@,
            final(self).flushed() == old(self).flushed(),
    {
        let mut i: usize = 0;
        while i < records.len()
            invariant
                i <= records.len(),
                self.wf(),
                self.appended() == old(self).appended() + records@.take(i as int),
                self.flushed() == old(self).flushed(),
            decreases records.len() - i,
        {
            self.append(records[i]);
            proof {
                assert(self.appended() =~= old(self).appended() + records@.take(i + 1));
            }
            i = i + 1;
        }
        proof {
            assert(records@.take(i as int) =~= records@);
        }
    }

    /// Makes every appended record durable.
    pub fn flush(&mut self)
        requires
            old(self).wf(),
        ensures
            final(self).wf(),
            final(self).appended() == old(self).appended(),
            final(self).flushed() == old(self).appended(),
    {
        self.durable = self.records.len();
        proof {
            assert(final(self).flushed() =~= old(self).appended());
        }
    }

    /// Drops what was not flushed and reads the progress off what is left.
    pub fn recover(&mut self, genesis: u64) -> (progress: ProgressState)
        requires
            old(self).wf(),
            old(self).flushed().len() > 0 ==> old(self).flushed().last().block < u64::MAX,
        ensures
            final(self).wf(),
            final(self).appended() == old(self).flushed(),
            final(self).flushed() == old(self).flushed(),
            progress == progress_of(old(self).flushed(), genesis),
    {
        self.records.truncate(self.durable);
        proof {
            assert(final(self).flushed() =~= old(self).flushed());
        }
        let count: usize = self.records.len();
        if count == 0 {
            ProgressState { found_count: 0, next_block: genesis }
        } else {
            ProgressState { found_count: count as u64, next_block: self.records[count - 1].block + 1 }
        }
    }
}

/// Recovery round trip: after `records` were appended to an empty store and
/// flushed, recovery finds as many records as were written and goes on at the
/// block after that of the last one.
pub proof fn lemma_recover_after_append(records: Seq<Record>, genesis: u64)
    requires
        records.len() > 0,
        records.len() <= u64::MAX,
        records.last().block < u64::MAX,
    ensures
        progress_of(records, genesis).found_count == records.len(),
        progress_of(records, genesis).next_block == records.last().block + 1,
{
}

} // verus!
