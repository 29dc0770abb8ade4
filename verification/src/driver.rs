//! The extraction driver: which question to ask the chain next, and what to
//! record, given every answer so far.
//!
//! The driver owns no connection and no file. It hands out one `Action` at a
//! time and takes the `Event` that reports how the action went. Whoever runs
//! it performs the actions in order. An action that fails ends the run; a new
//! driver, started from what the store then holds, picks the scan up again.
//!
//! A run goes window by window. The driver asks how many events the window
//! `[next_block, next_block + STEP]` holds. An empty window moves the scan to
//! the window's last block. Otherwise the driver searches the first block of
//! the window that holds an event, fetches the events of that block, has
//! their records appended, and goes on behind that block until it has
//! accounted for as many events as the window was said to hold. Then it has
//! the store flushed and opens the next window.
use vstd::prelude::*;
use crate::events::PairEvent;
use crate::locator::{BlockRange, Locator, Search};
use crate::record::{make_records, records_of, ProgressState, Record};

verus! {

/// Number of blocks by which the last block of a window lies behind its first.
pub const STEP: u64 = 1000;

/// The largest block at which a window can start.
pub const LAST_WINDOW_START: u64 = u64::MAX - STEP - 2;

/// What went wrong when an action was performed.
#[derive(Clone, Copy, Debug, PartialEq, Eq)]
pub enum Fault {
    /// The chain did not answer.
    Source,
    /// The store could not be written.
    Store,
}

/// What the driver waits for.
#[derive(Clone, Copy, Debug, PartialEq, Eq)]
pub enum Phase {
    /// The total number of events.
    Total,
    /// The number of events in the window that ends at `window_end`.
    Window { window_end: u64 },
    /// The answer to a question of the search for the next block with an
    /// event. `remaining` events of the window are not accounted for yet.
    Probe { window_end: u64, remaining: u64, locator: Locator },
    /// The events of `block`.
    Fetch { window_end: u64, remaining: u64, block: u64 },
    /// The word that the records of a block were appended.
    Append { window_end: u64, remaining: u64 },
    /// The word that the store was flushed.
    Flush,
    /// Nothing: the run is complete.
    Done,
    /// Nothing: the run has failed.
    Failed { fault: Fault },
}

/// The state of a run.
#[derive(Clone, Copy, Debug, PartialEq, Eq)]
pub struct Driver {
    /// Number of events recorded so far, earlier runs included.
    pub found_count: u64,
    /// The first block that was not scanned yet.
    pub next_block: u64,
    /// Number of events to find, as the chain reported it at the start.
    pub target_count: u64,
    pub phase: Phase,
}

/// What the driver wants done next.
#[derive(Debug, PartialEq, Eq)]
pub enum Action {
    /// Ask for the total number of events ever emitted.
    QueryTotal,
    /// Ask for the number of events in a range of blocks.
    CountRange { range: BlockRange },
    /// Ask for the events of one block.
    FetchEvents { block: u64 },
    /// Append these records to the store, in this order.
    Append { records: Vec<Record> },
    /// Flush the store.
    Flush,
    /// Stop: every event was recorded.
    Finish,
    /// Stop: the run has failed.
    Abort { fault: Fault },
}

/// What came of the action that the driver asked for last.
#[derive(Debug, PartialEq, Eq)]
pub enum Event {
    /// The total number of events ever emitted.
    Total { count: u64 },
    /// The number of events in the range asked for.
    Count { count: u64 },
    /// The events of the block asked for, in emission order.
    Events { events: Vec<PairEvent> },
    /// The records were appended.
    Appended,
    /// The store was flushed.
    Flushed,
    /// The action failed.
    Failed { fault: Fault },
}

/// An action with its records as a sequence.
pub enum Command {
    QueryTotal,
    CountRange { range: BlockRange },
    FetchEvents { block: u64 },
    Append { records: Seq<Record> },
    Flush,
    Finish,
    Abort { fault: Fault },
}

/// An event with its events as a sequence.
pub enum Reply {
    Total { count: u64 },
    Count { count: u64 },
    Events { events: Seq<PairEvent> },
    Appended,
    Flushed,
    Failed { fault: Fault },
}

impl View for Action {
    type V = Command;

    open spec fn view(&self) -> Command {
        match *self {
            Action::QueryTotal => Command::QueryTotal,
            Action::CountRange { range } => Command::CountRange { range },
            Action::FetchEvents { block } => Command::FetchEvents { block },
            Action::Append { records } => Command::Append { records: records@ },
            Action::Flush => Command::Flush,
            Action::Finish => Command::Finish,
            Action::Abort { fault } => Command::Abort { fault },
        }
    }
}

impl View for Event {
    type V = Reply;

    open spec fn view(&self) -> Reply {
        match *self {
            Event::Total { count } => Reply::Total { count },
            Event::Count { count } => Reply::Count { count },
            Event::Events { events } => Reply::Events { events: events@ },
            Event::Appended => Reply::Appended,
            Event::Flushed => Reply::Flushed,
            Event::Failed { fault } => Reply::Failed { fault },
        }
    }
}

/// Number of events of a window that are left to account for after a block
/// with `fetched` events was recorded. A block without events counts as one,
/// so that every round uses up at least one.
pub open spec fn remaining_after(remaining: u64, fetched: nat) -> u64 {
    if fetched == 0 {
        (remaining - 1) as u64
    } else if fetched >= remaining {
        0
    } else {
        (remaining - fetched) as u64
    }
}

/// Whether every event has an emission order of at least one.
pub fn all_ranked(events: &Vec<PairEvent>) -> (ok: bool)
    ensures
        ok == forall|i: int| 0 <= i < events@.len() ==> (#[trigger] events@[i]).emission_order >= 1,
{
    let mut i: usize = 0;
    while i < events.len()
        invariant
            i <= events.len(),
            forall|j: int| 0 <= j < i ==> (#[trigger] events@[j]).emission_order >= 1,
        decreases events.len() - i,
    {
        if events[i].emission_order < 1 {
            return false;
        }
        i = i + 1;
    }
    true
}

/// The reply to a question for the number of events in a range, from the
/// events that the chain returned for the range.
pub fn count_reply(events: &Vec<PairEvent>) -> (event: Event)
    ensures
        event@ == (Reply::Count { count: events@.len() as u64 }),
{
    Event::Count { count: events.len() as u64 }
}

impl Driver {
    /// The state is one that `resume` and `step` produce.
    pub open spec fn wf(self) -> bool {
        match self.phase {
            Phase::Total => true,
            Phase::Window { window_end } => {
                &&& self.found_count < self.target_count
                &&& window_end == self.next_block + STEP
                &&& window_end <= u64::MAX - 2
            },
            Phase::Probe { window_end, remaining, locator } => {
                &&& remaining > 0
                &&& window_end <= u64::MAX - 2
                &&& locator.wf()
                &&& self.next_block <= locator.lo
                &&& locator.hi <= window_end
            },
            Phase::Fetch { window_end, remaining, block } => {
                &&& remaining > 0
                &&& window_end <= u64::MAX - 2
                &&& self.next_block <= block <= window_end + 1
            },
            Phase::Append { window_end, remaining } => window_end <= u64::MAX - 2,
            Phase::Flush => true,
            Phase::Done => self.found_count >= self.target_count,
            Phase::Failed { .. } => true,
        }
    }

    /// The run is complete.
    pub open spec fn is_done(self) -> bool {
        self.phase is Done
    }

    /// The run is over: it is complete, or it has failed.
    pub open spec fn is_over(self) -> bool {
        self.phase is Done || self.phase is Failed
    }

    /// The progress that the run has made.
    pub open spec fn progress(self) -> ProgressState {
        ProgressState { found_count: self.found_count, next_block: self.next_block }
    }

    /// The driver at the start of a run that picks up at `progress`.
    pub open spec fn resumed(progress: ProgressState) -> Driver {
        Driver {
            found_count: progress.found_count,
            next_block: progress.next_block,
            target_count: 0,
            phase: Phase::Total,
        }
    }

    /// The reply is of the kind that the driver waits for, or it reports a
    /// failure while the run is not over.
    pub open spec fn accepts(self, reply: Reply) -> bool {
        match (self.phase, reply) {
            (Phase::Done, _) => false,
            (Phase::Failed { .. }, _) => false,
            (_, Reply::Failed { .. }) => true,
            (Phase::Total, Reply::Total { .. }) => true,
            (Phase::Window { .. }, Reply::Count { .. }) => true,
            (Phase::Probe { .. }, Reply::Count { .. }) => true,
            (Phase::Fetch { .. }, Reply::Events { .. }) => true,
            (Phase::Append { .. }, Reply::Appended) => true,
            (Phase::Flush, Reply::Flushed) => true,
            _ => false,
        }
    }

    /// The numbers that the reply leads to fit in 64 bits: a window that
    /// would be opened starts at or before `LAST_WINDOW_START`, the events
    /// of a block do not take the number of found events beyond `u64::MAX`,
    /// and every event has an emission order of at least one.
    pub open spec fn fits(self, reply: Reply) -> bool {
        match (self.phase, reply) {
            (Phase::Total, Reply::Total { count }) => {
                self.found_count < count ==> self.next_block <= LAST_WINDOW_START
            },
            (Phase::Window { window_end }, Reply::Count { count }) => {
                count == 0 ==> window_end <= LAST_WINDOW_START
            },
            (Phase::Fetch { .. }, Reply::Events { events }) => {
                &&& self.found_count + events.len() <= u64::MAX
                &&& forall|i: int|
                    0 <= i < events.len() ==> (#[trigger] events[i]).emission_order >= 1
            },
            (Phase::Flush, Reply::Flushed) => {
                self.found_count < self.target_count ==> self.next_block <= LAST_WINDOW_START
            },
            _ => true,
        }
    }

    /// Opens the window at `next_block`, or ends the run if every event was
    /// found.
    pub open spec fn window_opened(self) -> (Driver, Command) {
        if self.found_count < self.target_count {
            let window_end = (self.next_block + STEP) as u64;
            (
                Driver { phase: Phase::Window { window_end }, ..self },
                Command::CountRange { range: BlockRange { lo: self.next_block, hi: window_end } },
            )
        } else {
            (Driver { phase: Phase::Done, ..self }, Command::Finish)
        }
    }

    /// Starts the search for the next block with an event in what is left of
    /// the window, or has the store flushed if the window is used up.
    pub open spec fn round_started(self, window_end: u64, remaining: u64) -> (Driver, Command) {
        if remaining == 0 || self.next_block > window_end {
            (Driver { phase: Phase::Flush, ..self }, Command::Flush)
        } else {
            let locator = Locator::started(self.next_block, window_end);
            (
                Driver { phase: Phase::Probe { window_end, remaining, locator }, ..self },
                Command::CountRange { range: locator.pending() },
            )
        }
    }

    /// The driver after `reply`, and what it wants done next. A failure
    /// ends the run, whatever the driver was waiting for.
    pub open spec fn stepped(self, reply: Reply) -> (Driver, Command) {
        match (self.phase, reply) {
            (Phase::Done, _) => (self, Command::Finish),
            (Phase::Failed { fault }, _) => (self, Command::Abort { fault }),
            (_, Reply::Failed { fault }) => (
                Driver { phase: Phase::Failed { fault }, ..self },
                Command::Abort { fault },
            ),
            (Phase::Total, Reply::Total { count }) => {
                Driver { target_count: count, ..self }.window_opened()
            },
            (Phase::Window { window_end }, Reply::Count { count }) => {
                if count == 0 {
                    Driver { next_block: window_end, ..self }.window_opened()
                } else {
                    self.round_started(window_end, count)
                }
            },
            (Phase::Probe { window_end, remaining, locator }, Reply::Count { count }) => {
                match locator.advanced(count as int) {
                    Search::Probing(next) => (
                        Driver {
                            phase: Phase::Probe { window_end, remaining, locator: next },
                            ..self
                        },
                        Command::CountRange { range: next.pending() },
                    ),
                    Search::Found(block) => (
                        Driver { phase: Phase::Fetch { window_end, remaining, block }, ..self },
                        Command::FetchEvents { block },
                    ),
                }
            },
            (Phase::Fetch { window_end, remaining, block }, Reply::Events { events }) => {
                let left = remaining_after(remaining, events.len());
                let moved = Driver {
                    found_count: (self.found_count + events.len()) as u64,
                    next_block: (block + 1) as u64,
                    ..self
                };
                if events.len() == 0 {
                    moved.round_started(window_end, left)
                } else {
                    (
                        Driver { phase: Phase::Append { window_end, remaining: left }, ..moved },
                        Command::Append { records: records_of(block, events) },
                    )
                }
            },
            (Phase::Append { window_end, remaining }, Reply::Appended) => {
                self.round_started(window_end, remaining)
            },
            (Phase::Flush, Reply::Flushed) => self.window_opened(),
            _ => (self, Command::Finish),
        }
    }

    /// Starts a run at `progress`. The first thing to do is to ask for the
    /// total number of events.
    pub fn resume(progress: ProgressState) -> (start: (Driver, Action))
        ensures
            start.0 == Driver::resumed(progress),
            start.0.wf(),
            start.1@ == Command::QueryTotal,
    {
        (
            Driver {
                found_count: progress.found_count,
                next_block: progress.next_block,
                target_count: 0,
                phase: Phase::Total,
            },
            Action::QueryTotal,
        )
    }

    /// Whether the run is complete.
    pub fn done(&self) -> (done: bool)
        ensures
            done == self.is_done(),
    {
        match self.phase {
            Phase::Done => true,
            _ => false,
        }
    }

    /// Whether the run is over: complete or failed.
    pub fn over(&self) -> (over: bool)
        ensures
            over == self.is_over(),
    {
        match self.phase {
            Phase::Done => true,
            Phase::Failed { .. } => true,
            _ => false,
        }
    }

    /// Whether `step` can take `event`: it is of the kind that the driver
    /// waits for, and the numbers that it leads to fit.
    pub fn can_take(&self, event: &Event) -> (ok: bool)
        ensures
            ok == (self.accepts(event@) && self.fits(event@)),
    {
        match (self.phase, event) {
            (Phase::Done, _) => false,
            (Phase::Failed { .. }, _) => false,
            (_, Event::Failed { .. }) => true,
            (Phase::Total, Event::Total { count }) => {
                self.found_count >= *count || self.next_block <= LAST_WINDOW_START
            },
            (Phase::Window { window_end }, Event::Count { count }) => {
                *count != 0 || window_end <= LAST_WINDOW_START
            },
            (Phase::Probe { .. }, Event::Count { .. }) => true,
            (Phase::Fetch { .. }, Event::Events { events }) => {
                events.len() as u64 <= u64::MAX - self.found_count && all_ranked(events)
            },
            (Phase::Append { .. }, Event::Appended) => true,
            (Phase::Flush, Event::Flushed) => {
                self.found_count >= self.target_count || self.next_block <= LAST_WINDOW_START
            },
            _ => false,
        }
    }

    fn open_window(self) -> (next: (Driver, Action))
        requires
            self.found_count < self.target_count ==> self.next_block <= LAST_WINDOW_START,
        ensures
            (next.0, next.1@) == self.window_opened(),
            next.0.wf(),
    {
        if self.found_count < self.target_count {
            let window_end: u64 = self.next_block + STEP;
            (
                Driver { phase: Phase::Window { window_end }, ..self },
                Action::CountRange { range: BlockRange { lo: self.next_block, hi: window_end } },
            )
        } else {
            (Driver { phase: Phase::Done, ..self }, Action::Finish)
        }
    }

    fn start_round(self, window_end: u64, remaining: u64) -> (next: (Driver, Action))
        requires
            window_end <= u64::MAX - 2,
        ensures
            (next.0, next.1@) == self.round_started(window_end, remaining),
            next.0.wf(),
    {
        if remaining == 0 || self.next_block > window_end {
            (Driver { phase: Phase::Flush, ..self }, Action::Flush)
        } else {
            let locator = Locator::start(self.next_block, window_end);
            let range = locator.probe();
            (
                Driver { phase: Phase::Probe { window_end, remaining, locator }, ..self },
                Action::CountRange { range },
            )
        }
    }

    /// Takes what came of the last action and says what to do next.
    pub fn step(&mut self, event: Event) -> (action: Action)
        requires
            old(self).wf(),
            old(self).accepts(event@),
            old(self).fits(event@),
        ensures
            (*final(self), action@) == old(self).stepped(event@),
            final(self).wf(),
    {
        let current: Driver = *self;
        let (next, action) = match (current.phase, event) {
            (Phase::Done, _) => (current, Action::Finish),
            (Phase::Failed { fault }, _) => (current, Action::Abort { fault }),
            (_, Event::Failed { fault }) => (
                Driver { phase: Phase::Failed { fault }, ..current },
                Action::Abort { fault },
            ),
            (Phase::Total, Event::Total { count }) => {
                Driver { target_count: count, ..current }.open_window()
            },
            (Phase::Window { window_end }, Event::Count { count }) => {
                if count == 0 {
                    Driver { next_block: window_end, ..current }.open_window()
                } else {
                    current.start_round(window_end, count)
                }
            },
            (Phase::Probe { window_end, remaining, locator }, Event::Count { count }) => {
                match locator.advance(count) {
                    Search::Probing(next) => {
                        let range = next.probe();
                        (
                            Driver {
                                phase: Phase::Probe { window_end, remaining, locator: next },
                                ..current
                            },
                            Action::CountRange { range },
                        )
                    },
                    Search::Found(block) => (
                        Driver { phase: Phase::Fetch { window_end, remaining, block }, ..current },
                        Action::FetchEvents { block },
                    ),
                }
            },
            (Phase::Fetch { window_end, remaining, block }, Event::Events { events }) => {
                let fetched: u64 = events.len() as u64;
                let left: u64 = if fetched == 0 {
                    remaining - 1
                } else if fetched >= remaining {
                    0
                } else {
                    remaining - fetched
                };
                let moved = Driver {
                    found_count: current.found_count + fetched,
                    next_block: block + 1,
                    ..current
                };
                if fetched == 0 {
                    moved.start_round(window_end, left)
                } else {
                    let records = make_records(block, &events);
                    (
                        Driver { phase: Phase::Append { window_end, remaining: left }, ..moved },
                        Action::Append { records },
                    )
                }
            },
            (Phase::Append { window_end, remaining }, Event::Appended) => {
                current.start_round(window_end, remaining)
            },
            (Phase::Flush, Event::Flushed) => current.open_window(),
            _ => (current, Action::Finish),
        };
        *self = next;
        action
    }
}

/// A failure ends the run at once: whatever the driver was waiting for, it
/// asks for nothing more, and what the run has found and scanned stays as it
/// was.
pub proof fn lemma_failure_ends_run(driver: Driver, fault: Fault)
    requires
        !driver.is_over(),
    ensures
        driver.accepts(Reply::Failed { fault }),
        driver.fits(Reply::Failed { fault }),
        driver.stepped(Reply::Failed { fault }).1 == (Command::Abort { fault }),
        driver.stepped(Reply::Failed { fault }).0 == (Driver {
            phase: Phase::Failed { fault },
            ..driver
        }),
{
}

} // verus!
