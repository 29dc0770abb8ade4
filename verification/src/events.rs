//! The pair-creation events of a chain, and counting them by block range.
//!
//! Everything the scan learns about the chain it learns through three
//! questions: how many events exist in total, how many lie in a closed range
//! of blocks, and which events lie in one block. This module states what the
//! truthful answers are over a sequence of events, and answers the questions
//! for an event log held in memory.
use vstd::prelude::*;

verus! {

/// A 20-byte account identifier.
#[derive(Clone, Copy, Debug, PartialEq, Eq, Hash)]
pub struct Address {
    pub bytes: [u8; 20],
}

/// One pair-creation event as the chain reports it for a given block.
#[derive(Clone, Copy, Debug, PartialEq, Eq)]
pub struct PairEvent {
    /// Rank of the event among all events ever emitted, counted from one.
    pub emission_order: u64,
    /// The pair that was created.
    pub pair: Address,
    pub token0: Address,
    pub token1: Address,
}

/// A pair-creation event together with the block that holds it.
#[derive(Clone, Copy, Debug, PartialEq, Eq)]
pub struct ChainEvent {
    pub block: u64,
    pub event: PairEvent,
}

/// Number of events of `events` whose block lies in the closed range `[lo, hi]`.
pub open spec fn count_in_range(events: Seq<ChainEvent>, lo: int, hi: int) -> nat
    decreases events.len(),
{
    if events.len() == 0 {
        0
    } else {
        let rest = count_in_range(events.drop_last(), lo, hi);
        if lo <= events.last().block <= hi {
            rest + 1
        } else {
            rest
        }
    }
}

/// The events of `events` that lie in block `block`, in their order in `events`.
pub open spec fn events_at(events: Seq<ChainEvent>, block: int) -> Seq<PairEvent>
    decreases events.len(),
{
    if events.len() == 0 {
        Seq::empty()
    } else {
        let rest = events_at(events.drop_last(), block);
        if events.last().block == block {
            rest.push(events.last().event)
        } else {
            rest
        }
    }
}

/// `b` is the first block of `[lo, hi]` that holds an event.
pub open spec fn is_first_event_block(events: Seq<ChainEvent>, lo: int, hi: int, b: int) -> bool {
    &&& lo <= b <= hi
    &&& count_in_range(events, b, b) > 0
    &&& count_in_range(events, lo, b - 1) == 0
}

/// A range never holds more events than there are.
pub proof fn lemma_count_bounded(events: Seq<ChainEvent>, lo: int, hi: int)
    ensures
        count_in_range(events, lo, hi) <= events.len(),
    decreases events.len(),
{
    if events.len() > 0 {
        lemma_count_bounded(events.drop_last(), lo, hi);
    }
}

/// A range that is empty of blocks holds no event.
pub proof fn lemma_count_empty_range(events: Seq<ChainEvent>, lo: int, hi: int)
    requires
        hi < lo,
    ensures
        count_in_range(events, lo, hi) == 0,
    decreases events.len(),
{
    if events.len() > 0 {
        lemma_count_empty_range(events.drop_last(), lo, hi);
    }
}

/// Counting is additive over adjacent ranges: the events of `[lo, hi]` are
/// those of `[lo, mid]` and those of `[mid + 1, hi]`.
pub proof fn lemma_count_split(events: Seq<ChainEvent>, lo: int, mid: int, hi: int)
    requires
        lo <= mid + 1,
        mid <= hi,
    ensures
        count_in_range(events, lo, hi) == count_in_range(events, lo, mid) + count_in_range(
            events,
            mid + 1,
            hi,
        ),
    decreases events.len(),
{
    if events.len() > 0 {
        lemma_count_split(events.drop_last(), lo, mid, hi);
    }
}

/// For a fixed first block, the count never shrinks as the last block grows.
pub proof fn lemma_count_monotonic(events: Seq<ChainEvent>, lo: int, hi1: int, hi2: int)
    requires
        hi1 < hi2,
    ensures
        count_in_range(events, lo, hi1) <= count_in_range(events, lo, hi2),
    decreases events.len(),
{
    if events.len() > 0 {
        lemma_count_monotonic(events.drop_last(), lo, hi1, hi2);
    }
}

/// A range holds no event exactly when no event's block lies in it.
pub proof fn lemma_count_zero_iff(events: Seq<ChainEvent>, lo: int, hi: int)
    ensures
        count_in_range(events, lo, hi) == 0 <==> forall|i: int|
            0 <= i < events.len() ==> !(lo <= (#[trigger] events[i]).block <= hi),
    decreases events.len(),
{
    if events.len() > 0 {
        let front = events.drop_last();
        lemma_count_zero_iff(front, lo, hi);
        if count_in_range(events, lo, hi) == 0 {
            assert forall|i: int| 0 <= i < events.len() implies !(lo <= (
            #[trigger] events[i]).block <= hi) by {
                if i < front.len() {
                    assert(front[i] == events[i]);
                }
            }
        } else if !(lo <= events.last().block <= hi) {
            let i = choose|i: int| 0 <= i < front.len() && lo <= (#[trigger] front[i]).block <= hi;
            assert(events[i] == front[i]);
        }
    }
}

/// The events of one block are as many as the count of the range that holds
/// only that block.
pub proof fn lemma_events_at_len(events: Seq<ChainEvent>, block: int)
    ensures
        events_at(events, block).len() == count_in_range(events, block, block),
    decreases events.len(),
{
    if events.len() > 0 {
        lemma_events_at_len(events.drop_last(), block);
    }
}

/// A range holds at least as many events as any range inside it.
pub proof fn lemma_count_subrange(events: Seq<ChainEvent>, lo: int, hi: int, lo2: int, hi2: int)
    requires
        lo <= lo2,
        hi2 <= hi,
    ensures
        count_in_range(events, lo2, hi2) <= count_in_range(events, lo, hi),
    decreases events.len(),
{
    if events.len() > 0 {
        lemma_count_subrange(events.drop_last(), lo, hi, lo2, hi2);
    }
}

/// A range that holds an event has a first block with an event.
pub proof fn lemma_first_event_block_exists(events: Seq<ChainEvent>, lo: int, hi: int) -> (b: int)
    requires
        count_in_range(events, lo, hi) > 0,
    ensures
        is_first_event_block(events, lo, hi, b),
    decreases hi - lo,
{
    if hi < lo {
        lemma_count_empty_range(events, lo, hi);
        lo
    } else if count_in_range(events, lo, lo) > 0 {
        lemma_count_empty_range(events, lo, lo - 1);
        lo
    } else {
        lemma_count_split(events, lo, lo, hi);
        let b = lemma_first_event_block_exists(events, lo + 1, hi);
        lemma_count_split(events, lo, lo, b - 1);
        b
    }
}

/// At most one block of a range is its first block with an event.
pub proof fn lemma_first_event_block_unique(
    events: Seq<ChainEvent>,
    lo: int,
    hi: int,
    a: int,
    b: int,
)
    requires
        is_first_event_block(events, lo, hi, a),
        is_first_event_block(events, lo, hi, b),
    ensures
        a == b,
{
    if a < b {
        lemma_count_split(events, lo, a - 1, b - 1);
        lemma_count_split(events, a, a, b - 1);
    } else if b < a {
        lemma_count_split(events, lo, b - 1, a - 1);
        lemma_count_split(events, b, b, a - 1);
    }
}

/// An event log held in memory, which answers the three questions that the
/// scan asks of a chain.
pub struct EventLog {
    pub events: Vec<ChainEvent>,
}

impl View for EventLog {
    type V = Seq<ChainEvent>;

    open spec fn view(&self) -> Seq<ChainEvent> {
        self.events@
    }
}

impl EventLog {
    /// A log of the given events.
    pub fn new(events: Vec<ChainEvent>) -> (log: EventLog)
        ensures
            log@ == events@,
    {
        EventLog { events }
    }

    /// Number of events in the log.
    pub fn total_count(&self) -> (n: u64)
        ensures
            n == self@.len(),
    {
        self.events.len() as u64
    }

    /// Number of events whose block lies in `[lo, hi]`.
    pub fn count_in_range(&self, lo: u64, hi: u64) -> (n: u64)
        ensures
            n == count_in_range(self@, lo as int, hi as int),
    {
        let mut n: u64 = 0;
        let mut i: usize = 0;
        while i < self.events.len()
            invariant
                i <= self.events.len(),
                n == count_in_range(self@.subrange(0, i as int), lo as int, hi as int),
                n <= i,
            decreases self.events.len() - i,
        {
            proof {
                assert(self@.subrange(0, i + 1).drop_last() =~= self@.subrange(0, i as int));
            }
            if lo <= self.events[i].block && self.events[i].block <= hi {
                n = n + 1;
            }
            i = i + 1;
        }
        proof {
            assert(self@.subrange(0, i as int) =~= self@);
        }
        n
    }

    /// The events of block `block`, in the order of the log.
    pub fn events_at_block(&self, block: u64) -> (found: Vec<PairEvent>)
        ensures
            found@ == events_at(self@, block as int),
    {
        let mut found: Vec<PairEvent> = Vec::new();
        let mut i: usize = 0;
        while i < self.events.len()
            invariant
                i <= self.events.len(),
                found@ == events_at(self@.subrange(0, i as int), block as int),
            decreases self.events.len() - i,
        {
            proof {
                assert(self@.subrange(0, i + 1).drop_last() =~= self@.subrange(0, i as int));
            }
            if self.events[i].block == block {
                found.push(self.events[i].event);
            }
            i = i + 1;
        }
        proof {
            assert(self@.subrange(0, i as int) =~= self@);
        }
        found
    }
}

} // verus!
