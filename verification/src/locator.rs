//! Bisection for the first block of a range that holds an event.
//!
//! The search never looks at a block itself. It only asks how many events a
//! closed range of blocks holds, and halves the candidate range with each
//! answer. It is written as a machine that names the next range to count and
//! takes the answer, so that whoever owns the connection to the chain can run
//! it; `locate_in_log` runs it against a log held in memory.
use vstd::arithmetic::power2::{lemma2_to64, lemma_pow2_unfold, pow2};
use vstd::prelude::*;
use crate::events::{
    count_in_range, is_first_event_block, lemma_count_subrange, lemma_first_event_block_exists,
    ChainEvent, EventLog,
};

verus! {

/// A closed range of blocks, `lo` and `hi` included.
#[derive(Clone, Copy, Debug, PartialEq, Eq)]
pub struct BlockRange {
    pub lo: u64,
    pub hi: u64,
}

/// A search in progress: the first block with an event lies in `[lo, hi]`.
///
/// While the range spans more than two blocks the search narrows it. Once it
/// spans one or two blocks, `confirming` is set and one last count of the
/// block `lo` alone tells the two candidates apart.
#[derive(Clone, Copy, Debug, PartialEq, Eq)]
pub struct Locator {
    pub lo: u64,
    pub hi: u64,
    pub confirming: bool,
}

/// What a search does after an answer: count another range, or stop.
#[derive(Clone, Copy, Debug, PartialEq, Eq)]
pub enum Search {
    /// The search goes on; `probe` names the range to count next.
    Probing(Locator),
    /// The search is over and this is the block.
    Found(u64),
}

impl Locator {
    /// The state is one that `start` and `advance` produce.
    pub open spec fn wf(self) -> bool {
        &&& self.lo <= self.hi < u64::MAX
        &&& self.confirming <==> self.hi - self.lo <= 1
    }

    /// The block in the middle of the candidate range, rounded down.
    pub open spec fn mid(self) -> int {
        (self.lo + self.hi) / 2
    }

    /// The search over `[lo, hi]` before any answer.
    pub open spec fn started(lo: u64, hi: u64) -> Locator {
        Locator { lo, hi, confirming: hi - lo <= 1 }
    }

    /// The range whose count the search waits for: the lower half of the
    /// candidate range while narrowing, the block `lo` alone at the end.
    pub open spec fn pending(self) -> BlockRange {
        if self.confirming {
            BlockRange { lo: self.lo, hi: self.lo }
        } else {
            BlockRange { lo: self.lo, hi: self.mid() as u64 }
        }
    }

    /// The search after the answer `count` to its pending range.
    ///
    /// While narrowing, an empty lower half moves `lo` up to the middle, and
    /// anything else moves `hi` down to it. At the end, the block is `lo` if
    /// `lo` holds an event and the block after it if not.
    pub open spec fn advanced(self, count: int) -> Search {
        if self.confirming {
            if count == 0 {
                Search::Found((self.lo + 1) as u64)
            } else {
                Search::Found(self.lo)
            }
        } else {
            let mid = self.mid() as u64;
            if count == 0 {
                Search::Probing(Locator::started(mid, self.hi))
            } else {
                Search::Probing(Locator::started(self.lo, mid))
            }
        }
    }

    /// `block` is the first block with an event of the candidate range that
    /// is left.
    pub open spec fn tracks(self, events: Seq<ChainEvent>, block: int) -> bool {
        is_first_event_block(events, self.lo as int, self.hi as int, block)
    }

    /// A measure that shrinks with every answer: the distance from `lo` to
    /// `hi`, and one more while the search is narrowing.
    pub open spec fn width(self) -> int {
        self.hi - self.lo + if self.confirming {
            0int
        } else {
            1int
        }
    }

    /// The block with which the search ends when every answer it gets is the
    /// true count over `events`.
    pub open spec fn outcome(self, events: Seq<ChainEvent>) -> int
        decreases self.width(),
        when self.wf()
    {
        let range = self.pending();
        match self.advanced(count_in_range(events, range.lo as int, range.hi as int) as int) {
            Search::Probing(next) => next.outcome(events),
            Search::Found(block) => block as int,
        }
    }

    /// Number of answers that the search takes before it ends when every
    /// answer it gets is the true count over `events`.
    pub open spec fn questions(self, events: Seq<ChainEvent>) -> nat
        decreases self.width(),
        when self.wf()
    {
        let range = self.pending();
        match self.advanced(count_in_range(events, range.lo as int, range.hi as int) as int) {
            Search::Probing(next) => 1 + next.questions(events),
            Search::Found(block) => 1,
        }
    }

    /// Starts a search over `[lo, hi]`.
    pub fn start(lo: u64, hi: u64) -> (locator: Locator)
        requires
            lo <= hi < u64::MAX,
        ensures
            locator == Locator::started(lo, hi),
            locator.wf(),
    {
        Locator { lo, hi, confirming: hi - lo <= 1 }
    }

    /// The range to count next.
    pub fn probe(&self) -> (range: BlockRange)
        requires
            self.wf(),
        ensures
            range == self.pending(),
            self.lo == range.lo <= range.hi <= self.hi,
    {
        if self.confirming {
            BlockRange { lo: self.lo, hi: self.lo }
        } else {
            BlockRange { lo: self.lo, hi: self.lo + (self.hi - self.lo) / 2 }
        }
    }

    /// Takes the count of the pending range and moves the search on.
    pub fn advance(self, count: u64) -> (next: Search)
        requires
            self.wf(),
        ensures
            next == self.advanced(count as int),
            match next {
                Search::Probing(locator) => {
                    &&& locator.wf()
                    &&& self.lo <= locator.lo <= locator.hi <= self.hi
                    &&& locator.hi - locator.lo <= (self.hi - self.lo + 1) / 2
                    &&& locator.width() < self.width()
                },
                Search::Found(block) => self.lo <= block <= self.lo + 1,
            },
    {
        if self.confirming {
            if count == 0 {
                Search::Found(self.lo + 1)
            } else {
                Search::Found(self.lo)
            }
        } else {
            let mid: u64 = self.lo + (self.hi - self.lo) / 2;
            if count == 0 {
                Search::Probing(Locator { lo: mid, hi: self.hi, confirming: self.hi - mid <= 1 })
            } else {
                Search::Probing(Locator { lo: self.lo, hi: mid, confirming: mid - self.lo <= 1 })
            }
        }
    }
}

/// A search that tracks `block` and is given the true count of its pending
/// range either goes on tracking `block` or stops with `block`.
pub proof fn lemma_advance_tracks(locator: Locator, events: Seq<ChainEvent>, block: int)
    requires
        locator.wf(),
        locator.tracks(events, block),
    ensures
        ({
            let range = locator.pending();
            let count = count_in_range(events, range.lo as int, range.hi as int);
            match locator.advanced(count as int) {
                Search::Probing(next) => {
                    &&& next.wf()
                    &&& next.tracks(events, block)
                    &&& next.width() < locator.width()
                },
                Search::Found(found) => found == block,
            }
        }),
{
    let lo = locator.lo as int;
    let hi = locator.hi as int;
    let mid = locator.mid();
    if locator.confirming {
        if count_in_range(events, lo, lo) != 0 && block > lo {
            lemma_count_subrange(events, lo, block - 1, lo, lo);
        }
    } else {
        if count_in_range(events, lo, mid) == 0 {
            if block <= mid {
                lemma_count_subrange(events, lo, mid, block, block);
            }
            lemma_count_subrange(events, lo, block - 1, mid, block - 1);
        } else if block > mid {
            lemma_count_subrange(events, lo, block - 1, lo, mid);
        }
    }
}

/// A search that tracks `block` and gets true answers ends with `block`.
pub proof fn lemma_outcome_tracks(locator: Locator, events: Seq<ChainEvent>, block: int)
    requires
        locator.wf(),
        locator.tracks(events, block),
    ensures
        locator.outcome(events) == block,
    decreases locator.width(),
{
    lemma_advance_tracks(locator, events, block);
    let range = locator.pending();
    let count = count_in_range(events, range.lo as int, range.hi as int);
    match locator.advanced(count as int) {
        Search::Probing(next) => {
            lemma_outcome_tracks(next, events, block);
        },
        Search::Found(found) => {},
    }
}

/// Correctness of the search: over a range `[lo, hi]` that holds an event, a
/// search with true answers ends with a block `b` of the range such that
/// `[lo, b]` holds an event and, unless `b` is `lo`, `[lo, b - 1]` holds none.
pub proof fn lemma_outcome_is_first_event_block(events: Seq<ChainEvent>, lo: u64, hi: u64)
    requires
        lo <= hi < u64::MAX,
        count_in_range(events, lo as int, hi as int) > 0,
    ensures
        ({
            let b = Locator::started(lo, hi).outcome(events);
            &&& is_first_event_block(events, lo as int, hi as int, b)
            &&& count_in_range(events, lo as int, b) > 0
            &&& b == lo || count_in_range(events, lo as int, b - 1) == 0
        }),
{
    let first = lemma_first_event_block_exists(events, lo as int, hi as int);
    lemma_outcome_tracks(Locator::started(lo, hi), events, first);
    lemma_count_subrange(events, lo as int, first, first, first);
}

/// The search asks logarithmically often: once over a range of one or two
/// blocks, and over a wider range `q` times, where two to the power of
/// `q - 2` is less than the distance from the first block to the last.
pub proof fn lemma_questions_logarithmic(locator: Locator, events: Seq<ChainEvent>)
    requires
        locator.wf(),
    ensures
        locator.hi - locator.lo <= 1 ==> locator.questions(events) == 1,
        locator.hi - locator.lo >= 2 ==> {
            &&& locator.questions(events) >= 2
            &&& pow2((locator.questions(events) - 2) as nat) < locator.hi - locator.lo
        },
    decreases locator.width(),
{
    let range = locator.pending();
    match locator.advanced(count_in_range(events, range.lo as int, range.hi as int) as int) {
        Search::Probing(next) => {
            lemma_questions_logarithmic(next, events);
            if next.hi - next.lo <= 1 {
                lemma2_to64();
            } else {
                lemma_pow2_unfold((locator.questions(events) - 2) as nat);
            }
        },
        Search::Found(block) => {},
    }
}

/// Over a range of one block that holds an event, the search asks one
/// question and ends with that block.
pub proof fn lemma_single_block_outcome(events: Seq<ChainEvent>, block: u64)
    requires
        block < u64::MAX,
        count_in_range(events, block as int, block as int) > 0,
    ensures
        Locator::started(block, block).confirming,
        Locator::started(block, block).pending() == (BlockRange { lo: block, hi: block }),
        Locator::started(block, block).advanced(
            count_in_range(events, block as int, block as int) as int,
        ) == Search::Found(block),
{
}

/// Runs a search over `[lo, hi]` against a log held in memory.
///
/// The range must hold an event. The result is the first block of the range
/// that holds one, which is also the outcome of a search with true answers.
pub fn locate_in_log(log: &EventLog, lo: u64, hi: u64) -> (block: u64)
    requires
        lo <= hi < u64::MAX,
        count_in_range(log@, lo as int, hi as int) > 0,
    ensures
        is_first_event_block(log@, lo as int, hi as int, block as int),
        count_in_range(log@, lo as int, block as int) > 0,
        block == lo || count_in_range(log@, lo as int, block - 1) == 0,
        block == Locator::started(lo, hi).outcome(log@),
{
    let mut locator = Locator::start(lo, hi);
    proof {
        lemma_outcome_is_first_event_block(log@, lo, hi);
    }
    loop
        invariant
            lo <= hi < u64::MAX,
            locator.wf(),
            locator.outcome(log@) == Locator::started(lo, hi).outcome(log@),
            is_first_event_block(log@, lo as int, hi as int, locator.outcome(log@)),
            count_in_range(log@, lo as int, locator.outcome(log@)) > 0,
            locator.outcome(log@) == lo || count_in_range(
                log@,
                lo as int,
                locator.outcome(log@) - 1,
            ) == 0,
        decreases locator.width(),
    {
        let range = locator.probe();
        let count = log.count_in_range(range.lo, range.hi);
        match locator.advance(count) {
            Search::Probing(next) => {
                locator = next;
            },
            Search::Found(block) => {
                return block;
            },
        }
    }
}

} // verus!
