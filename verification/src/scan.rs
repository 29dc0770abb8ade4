//! What a run of the driver records when every answer it gets is true.
//!
//! The chain is a sequence of events. A run that starts at some block and is
//! told the truth appends, block by block, the records of the events that
//! follow. This module states that, proves that every step of the driver
//! keeps it, and runs the driver against a log and a store held in memory.
use vstd::prelude::*;
use crate::driver::{Action, Command, Driver, Event, Phase, Reply, LAST_WINDOW_START};
use crate::events::{
    count_in_range, events_at, is_first_event_block, lemma_count_bounded,
    lemma_count_empty_range, lemma_count_split, lemma_count_subrange, lemma_count_zero_iff,
    lemma_events_at_len, lemma_first_event_block_exists, ChainEvent, EventLog,
};
use crate::locator::{lemma_advance_tracks, lemma_outcome_tracks, BlockRange, Locator, Search};
use crate::record::{progress_of, records_of, ProgressState, Record, RecordStore};

verus! {

/// The records of the events in the blocks `lo` to `hi`, block by block and
/// within a block in the order of `events`.
pub open spec fn scanned(events: Seq<ChainEvent>, lo: int, hi: int) -> Seq<Record>
    decreases hi - lo + 1,
{
    if hi < lo {
        Seq::empty()
    } else {
        scanned(events, lo, hi - 1) + records_of(hi as u64, events_at(events, hi))
    }
}

/// The true answer of the chain `events` to a question, and the word that
/// the store did what it was asked to. Nothing fails.
pub open spec fn true_reply(events: Seq<ChainEvent>, command: Command) -> Reply {
    match command {
        Command::QueryTotal => Reply::Total { count: events.len() as u64 },
        Command::CountRange { range } => Reply::Count {
            count: count_in_range(events, range.lo as int, range.hi as int) as u64,
        },
        Command::FetchEvents { block } => Reply::Events { events: events_at(events, block as int) },
        Command::Append { .. } => Reply::Appended,
        Command::Flush => Reply::Flushed,
        Command::Finish => Reply::Flushed,
        Command::Abort { .. } => Reply::Flushed,
    }
}

/// The records that a command asks to append.
pub open spec fn records_to_append(command: Command) -> Seq<Record> {
    match command {
        Command::Append { records } => records,
        _ => Seq::empty(),
    }
}

/// A chain that a run can scan to its end within 64-bit numbers: a window can
/// start at the block of every event, every event has an emission order of at
/// least one, and counting the events on top of those found before the run
/// stays below `u64::MAX`.
pub open spec fn scannable(events: Seq<ChainEvent>, start: ProgressState) -> bool {
    &&& start.found_count + events.len() <= u64::MAX
    &&& forall|i: int|
        0 <= i < events.len() ==> {
            &&& (#[trigger] events[i]).block <= LAST_WINDOW_START
            &&& events[i].event.emission_order >= 1
        }
}

/// Enough events lie at or behind `next_block` for a scan that has found
/// `found_count` events to find as many as the chain holds.
pub open spec fn enough_ahead(events: Seq<ChainEvent>, found_count: u64, next_block: u64) -> bool {
    found_count + count_in_range(events, next_block as int, LAST_WINDOW_START as int)
        >= events.len()
}

/// What holds of the numbers of a run that started at `start` once `stored`
/// was handed to the store: `stored` holds the records of the blocks from
/// the start of the run up to `next_block`, `found_count` counts them on top
/// of what was found before, and enough events lie ahead.
pub open spec fn run_base(
    driver: Driver,
    events: Seq<ChainEvent>,
    start: ProgressState,
    stored: Seq<Record>,
) -> bool {
    &&& start.next_block <= driver.next_block
    &&& stored == scanned(events, start.next_block as int, driver.next_block - 1)
    &&& driver.found_count == start.found_count + count_in_range(
        events,
        start.next_block as int,
        driver.next_block - 1,
    )
    &&& enough_ahead(events, driver.found_count, driver.next_block)
}

/// What holds between the steps of a run that started at `start`, has had
/// `appended` appended since, and now wants `command` done.
///
/// The records appended, with those about to be, are the records of the
/// blocks from the start of the run up to `next_block`. In a window that
/// holds events, `remaining` is the number of events between `next_block`
/// and the window's end, and the search is on its way to the first block
/// with one.
pub open spec fn run_inv(
    driver: Driver,
    command: Command,
    events: Seq<ChainEvent>,
    start: ProgressState,
    appended: Seq<Record>,
) -> bool {
    let next = driver.next_block as int;
    &&& driver.wf()
    &&& run_base(driver, events, start, appended + records_to_append(command))
    &&& !(driver.phase is Total) ==> driver.target_count == events.len()
    &&& match driver.phase {
        Phase::Total => command == Command::QueryTotal,
        Phase::Window { window_end } => command == (Command::CountRange {
            range: BlockRange { lo: driver.next_block, hi: window_end },
        }),
        Phase::Probe { window_end, remaining, locator } => {
            &&& command == Command::CountRange { range: locator.pending() }
            &&& remaining == count_in_range(events, next, window_end as int)
            &&& locator.tracks(events, locator.outcome(events))
            &&& is_first_event_block(events, next, window_end as int, locator.outcome(events))
        },
        Phase::Fetch { window_end, remaining, block } => {
            &&& command == Command::FetchEvents { block }
            &&& remaining == count_in_range(events, next, window_end as int)
            &&& is_first_event_block(events, next, window_end as int, block as int)
        },
        Phase::Append { window_end, remaining } => {
            &&& command is Append
            &&& remaining == count_in_range(events, next, window_end as int)
        },
        Phase::Flush => command == Command::Flush,
        Phase::Done => command == Command::Finish,
        Phase::Failed { .. } => false,
    }
}

/// A position in the order of the phases within one block of progress.
pub open spec fn phase_rank(phase: Phase) -> int {
    match phase {
        Phase::Total => 6,
        Phase::Append { .. } => 5,
        Phase::Flush => 4,
        Phase::Window { .. } => 3,
        Phase::Probe { .. } => 2,
        Phase::Fetch { .. } => 1,
        Phase::Done => 0,
        Phase::Failed { .. } => 0,
    }
}

/// The width of the search, where one is under way.
pub open spec fn search_width(phase: Phase) -> int {
    match phase {
        Phase::Probe { locator, .. } => locator.width(),
        _ => 0,
    }
}

/// `after` is nearer to the end of the run than `before`: it stands at a
/// later block, or at the same block in a later phase, or in the same phase
/// with a narrower search.
pub open spec fn nearer_to_end(before: Driver, after: Driver) -> bool {
    ||| after.next_block > before.next_block
    ||| (after.next_block == before.next_block && phase_rank(after.phase) < phase_rank(
        before.phase,
    ))
    ||| (after.next_block == before.next_block && phase_rank(after.phase) == phase_rank(
        before.phase,
    ) && 0 <= search_width(after.phase) < search_width(before.phase))
}

/// As many records come of a range of blocks as the range holds events.
pub proof fn lemma_scanned_len(events: Seq<ChainEvent>, lo: int, hi: int)
    requires
        lo <= hi + 1,
    ensures
        scanned(events, lo, hi).len() == count_in_range(events, lo, hi),
    decreases hi - lo + 1,
{
    if hi < lo {
        lemma_count_empty_range(events, lo, hi);
    } else {
        lemma_scanned_len(events, lo, hi - 1);
        lemma_events_at_len(events, hi);
        lemma_count_split(events, lo, hi - 1, hi);
    }
}

/// Blocks without events add no records.
pub proof fn lemma_scanned_skips_empty(events: Seq<ChainEvent>, lo: int, mid: int, hi: int)
    requires
        lo <= mid + 1,
        mid <= hi,
        count_in_range(events, mid + 1, hi) == 0,
    ensures
        scanned(events, lo, hi) == scanned(events, lo, mid),
    decreases hi - mid,
{
    if mid < hi {
        lemma_count_subrange(events, mid + 1, hi, mid + 1, hi - 1);
        lemma_count_subrange(events, mid + 1, hi, hi, hi);
        lemma_scanned_skips_empty(events, lo, mid, hi - 1);
        lemma_events_at_len(events, hi);
        assert(records_of(hi as u64, events_at(events, hi)) =~= Seq::<Record>::empty());
        assert(scanned(events, lo, hi) =~= scanned(events, lo, hi - 1));
    }
}

/// Where an event of a block stands in the chain: the `i`-th event of
/// `block` is the event at the position returned, which lies in `block` and
/// has `i` events of `block` before it.
pub proof fn lemma_event_origin(events: Seq<ChainEvent>, block: int, i: int) -> (k: int)
    requires
        0 <= i < events_at(events, block).len(),
    ensures
        0 <= k < events.len(),
        events[k].block == block,
        events[k].event == events_at(events, block)[i],
        events_at(events.take(k), block).len() == i,
    decreases events.len(),
{
    let front = events.drop_last();
    if i == events_at(front, block).len() {
        assert(events.take(events.len() - 1) =~= front);
        events.len() - 1
    } else {
        let k = lemma_event_origin(front, block, i);
        assert(events.take(k) =~= front.take(k));
        k
    }
}

/// A block that holds an event of a scannable chain is one at which a window
/// can start.
pub proof fn lemma_event_block_bounded(events: Seq<ChainEvent>, start: ProgressState, block: int)
    requires
        scannable(events, start),
        count_in_range(events, block, block) > 0,
    ensures
        block <= LAST_WINDOW_START,
{
    lemma_count_zero_iff(events, block, block);
}

/// While events are missing, one lies at or behind `next_block`, so a window
/// can start there.
pub proof fn lemma_window_can_open(events: Seq<ChainEvent>, found_count: u64, next_block: u64)
    requires
        enough_ahead(events, found_count, next_block),
        found_count < events.len(),
    ensures
        next_block <= LAST_WINDOW_START,
{
    if next_block > LAST_WINDOW_START {
        lemma_count_empty_range(events, next_block as int, LAST_WINDOW_START as int);
    }
}

/// Opening a window, or ending the run, keeps what holds of a run.
pub proof fn lemma_window_opened_keeps_run(
    driver: Driver,
    events: Seq<ChainEvent>,
    start: ProgressState,
    stored: Seq<Record>,
)
    requires
        scannable(events, start),
        run_base(driver, events, start, stored),
        driver.target_count == events.len(),
    ensures
        driver.found_count < driver.target_count ==> driver.next_block <= LAST_WINDOW_START,
        run_inv(driver.window_opened().0, driver.window_opened().1, events, start, stored),
{
    if driver.found_count < driver.target_count {
        lemma_window_can_open(events, driver.found_count, driver.next_block);
    }
    assert(stored + Seq::<Record>::empty() =~= stored);
}

/// Starting a round in what is left of a window, or flushing after the
/// window, keeps what holds of a run.
pub proof fn lemma_round_started_keeps_run(
    driver: Driver,
    events: Seq<ChainEvent>,
    start: ProgressState,
    stored: Seq<Record>,
    window_end: u64,
    remaining: u64,
)
    requires
        scannable(events, start),
        run_base(driver, events, start, stored),
        driver.target_count == events.len(),
        window_end <= u64::MAX - 2,
        remaining == count_in_range(events, driver.next_block as int, window_end as int),
    ensures
        run_inv(
            driver.round_started(window_end, remaining).0,
            driver.round_started(window_end, remaining).1,
            events,
            start,
            stored,
        ),
{
    assert(stored + Seq::<Record>::empty() =~= stored);
    if !(remaining == 0 || driver.next_block > window_end) {
        let first = lemma_first_event_block_exists(
            events,
            driver.next_block as int,
            window_end as int,
        );
        let locator = Locator::started(driver.next_block, window_end);
        lemma_outcome_tracks(locator, events, first);
    }
}

/// One step of a run that is told the truth: the driver can take the true
/// reply, what holds of a run holds again afterwards, and the run is nearer
/// to its end.
pub proof fn lemma_step_keeps_run(
    driver: Driver,
    command: Command,
    events: Seq<ChainEvent>,
    start: ProgressState,
    appended: Seq<Record>,
)
    requires
        scannable(events, start),
        run_inv(driver, command, events, start, appended),
        !(driver.phase is Done),
    ensures
        ({
            let reply = true_reply(events, command);
            let next = driver.stepped(reply);
            &&& driver.accepts(reply)
            &&& driver.fits(reply)
            &&& run_inv(next.0, next.1, events, start, appended + records_to_append(command))
            &&& nearer_to_end(driver, next.0)
        }),
{
    let reply = true_reply(events, command);
    let stored = appended + records_to_append(command);
    let lo = start.next_block as int;
    let next = driver.next_block as int;
    match driver.phase {
        Phase::Total => {
            let known = Driver { target_count: events.len() as u64, ..driver };
            lemma_window_opened_keeps_run(known, events, start, stored);
        },
        Phase::Window { window_end } => {
            let count = count_in_range(events, next, window_end as int);
            lemma_count_bounded(events, next, window_end as int);
            if count == 0 {
                let moved = Driver { next_block: window_end, ..driver };
                lemma_window_can_open(events, driver.found_count, driver.next_block);
                lemma_count_subrange(events, next, window_end as int, next, window_end - 1);
                lemma_scanned_skips_empty(events, lo, next - 1, window_end - 1);
                lemma_count_split(events, lo, next - 1, window_end - 1);
                if window_end > LAST_WINDOW_START {
                    lemma_count_subrange(
                        events,
                        next,
                        window_end as int,
                        next,
                        LAST_WINDOW_START as int,
                    );
                } else {
                    lemma_count_split(events, next, window_end - 1, LAST_WINDOW_START as int);
                }
                lemma_window_opened_keeps_run(moved, events, start, stored);
            } else {
                lemma_round_started_keeps_run(driver, events, start, stored, window_end, count as u64);
            }
        },
        Phase::Probe { window_end, remaining, locator } => {
            let block = locator.outcome(events);
            let range = locator.pending();
            lemma_count_bounded(events, range.lo as int, range.hi as int);
            lemma_advance_tracks(locator, events, block);
            match locator.advanced(count_in_range(events, range.lo as int, range.hi as int) as int) {
                Search::Probing(narrowed) => {
                    lemma_outcome_tracks(narrowed, events, block);
                },
                Search::Found(found) => {},
            }
            assert(stored + Seq::<Record>::empty() =~= stored);
        },
        Phase::Fetch { window_end, remaining, block } => {
            let fetched = events_at(events, block as int);
            let moved = Driver {
                found_count: (driver.found_count + fetched.len()) as u64,
                next_block: (block + 1) as u64,
                ..driver
            };
            let left = crate::driver::remaining_after(remaining, fetched.len());
            lemma_events_at_len(events, block as int);
            lemma_event_block_bounded(events, start, block as int);
            lemma_count_bounded(events, lo, block as int);
            assert forall|i: int| 0 <= i < fetched.len() implies (#[trigger] fetched[i]).emission_order
                >= 1 by {
                let k = lemma_event_origin(events, block as int, i);
            }
            // the blocks between the old position and the block found hold nothing
            lemma_scanned_skips_empty(events, lo, next - 1, block - 1);
            lemma_count_split(events, lo, next - 1, block - 1);
            lemma_count_split(events, lo, block - 1, block as int);
            // what is ahead of the new position
            lemma_count_split(events, next, block - 1, LAST_WINDOW_START as int);
            lemma_count_split(events, block as int, block as int, LAST_WINDOW_START as int);
            // what is left of the window
            lemma_count_split(events, next, block - 1, window_end as int);
            if block < window_end {
                lemma_count_split(events, block as int, block as int, window_end as int);
            } else {
                lemma_count_empty_range(events, block + 1, window_end as int);
            }
            let after = stored + records_of(block, fetched);
            assert(after =~= scanned(events, lo, block as int));
            assert(after + Seq::<Record>::empty() =~= after);
            assert(stored =~= appended);
        },
        Phase::Append { window_end, remaining } => {
            lemma_round_started_keeps_run(driver, events, start, stored, window_end, remaining);
        },
        Phase::Flush => {
            lemma_window_opened_keeps_run(driver, events, start, stored);
        },
        Phase::Done => {},
        Phase::Failed { .. } => {},
    }
}

/// No two events of the chain have the same emission order, and every
/// emission order is at least one.
pub open spec fn distinct_orders(events: Seq<ChainEvent>) -> bool {
    &&& forall|i: int| 0 <= i < events.len() ==> (#[trigger] events[i]).event.emission_order >= 1
    &&& forall|i: int, j: int|
        0 <= i < j < events.len() ==> (#[trigger] events[i]).event.emission_order != (
        #[trigger] events[j]).event.emission_order
}

/// No two records have the same id.
pub open spec fn distinct_ids(records: Seq<Record>) -> bool {
    forall|i: int, j: int|
        0 <= i < j < records.len() ==> (#[trigger] records[i]).id != (#[trigger] records[j]).id
}

/// Where a record of a range of blocks comes from: the record at position
/// `p` is that of the event at the position returned, which lies in a block
/// of the range. Records of earlier blocks come first, and within a block
/// the records come in the order of the chain, so that the positions returned
/// for two records differ, and a later record lies in no earlier block.
pub proof fn lemma_record_origin(events: Seq<ChainEvent>, lo: int, hi: int, p: int) -> (k: int)
    requires
        0 <= lo,
        hi <= u64::MAX,
        0 <= p < scanned(events, lo, hi).len(),
    ensures
        0 <= k < events.len(),
        lo <= events[k].block <= hi,
        scanned(events, lo, hi)[p] == crate::record::record_of(events[k].block, events[k].event),
        p == count_in_range(events, lo, events[k].block - 1) + events_at(
            events.take(k),
            events[k].block as int,
        ).len(),
        p < count_in_range(events, lo, events[k].block as int),
    decreases hi - lo + 1,
{
    let front = scanned(events, lo, hi - 1);
    lemma_scanned_len(events, lo, hi - 1);
    if p < front.len() {
        lemma_record_origin(events, lo, hi - 1, p)
    } else {
        let i = p - front.len();
        let k = lemma_event_origin(events, hi, i);
        lemma_events_at_len(events, hi);
        lemma_count_split(events, lo, hi - 1, hi);
        k
    }
}

/// Two records of one range of blocks come from two events of the chain, and
/// the later record lies in no earlier block.
pub proof fn lemma_records_apart(events: Seq<ChainEvent>, lo: int, hi: int, p: int, q: int)
    requires
        0 <= lo,
        hi <= u64::MAX,
        distinct_orders(events),
        0 <= p < q < scanned(events, lo, hi).len(),
    ensures
        scanned(events, lo, hi)[p].id != scanned(events, lo, hi)[q].id,
        scanned(events, lo, hi)[p].block <= scanned(events, lo, hi)[q].block,
        lo <= scanned(events, lo, hi)[p].block,
        scanned(events, lo, hi)[q].block <= hi,
{
    let kp = lemma_record_origin(events, lo, hi, p);
    let kq = lemma_record_origin(events, lo, hi, q);
    let bp = events[kp].block as int;
    let bq = events[kq].block as int;
    if bp > bq {
        lemma_count_subrange(events, lo, bp - 1, lo, bq);
    }
}

/// The records of a range of blocks have ids of their own.
pub proof fn lemma_scanned_distinct_ids(events: Seq<ChainEvent>, lo: int, hi: int)
    requires
        0 <= lo,
        hi <= u64::MAX,
        distinct_orders(events),
    ensures
        distinct_ids(scanned(events, lo, hi)),
{
    let records = scanned(events, lo, hi);
    assert forall|i: int, j: int| 0 <= i < j < records.len() implies (#[trigger] records[i]).id != (
    #[trigger] records[j]).id by {
        lemma_records_apart(events, lo, hi, i, j);
    }
}

/// The chain is whole and in emission order: the event at position `i` has
/// the emission order `i + 1`, and a later event lies in no earlier block.
pub open spec fn whole_chain(events: Seq<ChainEvent>) -> bool {
    &&& forall|i: int|
        0 <= i < events.len() ==> (#[trigger] events[i]).event.emission_order == i + 1
    &&& forall|i: int, j: int|
        0 <= i < j < events.len() ==> (#[trigger] events[i]).block <= (#[trigger] events[j]).block
}

/// Events that all lie in a range are counted one by one.
pub proof fn lemma_count_all_inside(events: Seq<ChainEvent>, lo: int, hi: int)
    requires
        forall|i: int| 0 <= i < events.len() ==> lo <= (#[trigger] events[i]).block <= hi,
    ensures
        count_in_range(events, lo, hi) == events.len(),
    decreases events.len(),
{
    if events.len() > 0 {
        let front = events.drop_last();
        assert forall|i: int| 0 <= i < front.len() implies lo <= (#[trigger] front[i]).block
            <= hi by {
            assert(front[i] == events[i]);
        }
        lemma_count_all_inside(front, lo, hi);
    }
}

/// Events behind the first `k` that all lie above a range add nothing to its
/// count.
pub proof fn lemma_count_of_prefix(events: Seq<ChainEvent>, k: int, lo: int, hi: int)
    requires
        0 <= k <= events.len(),
        forall|i: int| k <= i < events.len() ==> hi < (#[trigger] events[i]).block,
    ensures
        count_in_range(events, lo, hi) == count_in_range(events.take(k), lo, hi),
    decreases events.len() - k,
{
    if k == events.len() {
        assert(events.take(k) =~= events);
    } else {
        let front = events.drop_last();
        assert forall|i: int| k <= i < front.len() implies hi < (#[trigger] front[i]).block by {
            assert(front[i] == events[i]);
        }
        lemma_count_of_prefix(front, k, lo, hi);
        assert(front.take(k) =~= events.take(k));
        assert(hi < events[events.len() - 1].block);
    }
}

/// Ordered ids without gaps: of a chain that is whole and in emission order,
/// the record at position `p` of the records of the blocks `lo` to `hi` has
/// the id `p` plus the number of events that lie before block `lo`. So the
/// ids go up one by one, and the blocks never go down.
pub proof fn lemma_scanned_ids_are_ranks(events: Seq<ChainEvent>, lo: int, hi: int, p: int)
    requires
        whole_chain(events),
        events.len() <= u64::MAX,
        0 <= lo,
        hi <= u64::MAX,
        0 <= p < scanned(events, lo, hi).len(),
    ensures
        scanned(events, lo, hi)[p].id == count_in_range(events, 0, lo - 1) + p,
        p > 0 ==> scanned(events, lo, hi)[p - 1].block <= scanned(events, lo, hi)[p].block,
{
    let k = lemma_record_origin(events, lo, hi, p);
    lemma_origin_is_rank(events, lo, k);
    if p > 0 {
        let j = lemma_record_origin(events, lo, hi, p - 1);
        lemma_origin_is_rank(events, lo, j);
    }
}

/// In a chain that is whole and in emission order, the position of an event
/// is the number of events in earlier blocks plus the number of events of
/// its own block before it.
pub proof fn lemma_origin_is_rank(events: Seq<ChainEvent>, lo: int, k: int)
    requires
        whole_chain(events),
        0 <= k < events.len(),
        0 <= lo <= events[k].block,
    ensures
        k == count_in_range(events, 0, lo - 1) + count_in_range(events, lo, events[k].block - 1)
            + events_at(events.take(k), events[k].block as int).len(),
{
    let block = events[k].block as int;
    let before = events.take(k);
    lemma_count_split(events, 0, lo - 1, block - 1);
    lemma_count_of_prefix(events, k, 0, block - 1);
    lemma_count_all_inside(before, 0, block);
    lemma_count_split(before, 0, block - 1, block);
    lemma_events_at_len(before, block);
}

/// No record twice: a first run from `genesis` records the blocks up to
/// `first_end`, of which the first `kept` records are durable; a second run
/// recovers from those and records the blocks from where it resumes up to
/// `second_end`. Against a chain that has not changed, no two of the records
/// that the store then holds have the same id.
pub proof fn lemma_two_runs_no_duplicate_ids(
    events: Seq<ChainEvent>,
    genesis: u64,
    first_end: int,
    kept: int,
    second_end: int,
)
    requires
        distinct_orders(events),
        first_end < u64::MAX,
        second_end <= u64::MAX,
        0 <= kept <= scanned(events, genesis as int, first_end).len(),
    ensures
        ({
            let first = scanned(events, genesis as int, first_end).take(kept);
            let resume = progress_of(first, genesis);
            distinct_ids(first + scanned(events, resume.next_block as int, second_end))
        }),
{
    let whole = scanned(events, genesis as int, first_end);
    let first = whole.take(kept);
    let resume = progress_of(first, genesis);
    let second = scanned(events, resume.next_block as int, second_end);
    let both = first + second;
    if kept > 0 {
        let kl = lemma_record_origin(events, genesis as int, first_end, kept - 1);
    }
    assert forall|i: int, j: int| 0 <= i < j < both.len() implies (#[trigger] both[i]).id != (
    #[trigger] both[j]).id by {
        if j < kept {
            lemma_records_apart(events, genesis as int, first_end, i, j);
        } else if i >= kept {
            lemma_records_apart(events, resume.next_block as int, second_end, i - kept, j - kept);
        } else {
            let last = kept - 1;
            if i < last {
                lemma_records_apart(events, genesis as int, first_end, i, last);
            }
            let ki = lemma_record_origin(events, genesis as int, first_end, i);
            let kj = lemma_record_origin(events, resume.next_block as int, second_end, j - kept);
            assert(events[ki].block < events[kj].block);
        }
    }
}

/// Whether `run_on_log` can make a run from `start` against `log`: the chain
/// is scannable, and enough events lie ahead for the run to end.
pub fn can_scan(log: &EventLog, start: ProgressState) -> (ok: bool)
    ensures
        ok == (scannable(log@, start) && enough_ahead(
            log@,
            start.found_count,
            start.next_block,
        )),
{
    let total: u64 = log.total_count();
    if total > u64::MAX - start.found_count {
        return false;
    }
    let mut i: usize = 0;
    while i < log.events.len()
        invariant
            i <= log.events.len(),
            forall|j: int|
                0 <= j < i ==> {
                    &&& (#[trigger] log@[j]).block <= LAST_WINDOW_START
                    &&& log@[j].event.emission_order >= 1
                },
        decreases log.events.len() - i,
    {
        if log.events[i].block > LAST_WINDOW_START || log.events[i].event.emission_order < 1 {
            return false;
        }
        i = i + 1;
    }
    let ahead: u64 = log.count_in_range(start.next_block, LAST_WINDOW_START);
    proof {
        lemma_count_bounded(log@, start.next_block as int, LAST_WINDOW_START as int);
    }
    start.found_count + ahead >= total
}

/// Runs the driver to its end against a log and a store held in memory.
///
/// The run recovers its start from what the store holds durably, asks the
/// log whatever the driver wants to know, and appends and flushes as the
/// driver says. It ends when the driver has found as many events as the log
/// holds. The store then durably holds what it held before, followed by the
/// records of the blocks from the start of the run to the block before the
/// one returned as the next.
pub fn run_on_log(log: &EventLog, store: &mut RecordStore, genesis: u64) -> (progress:
    ProgressState)
    requires
        old(store).wf(),
        old(store).flushed().len() > 0 ==> old(store).flushed().last().block < u64::MAX,
        scannable(log@, progress_of(old(store).flushed(), genesis)),
        enough_ahead(
            log@,
            progress_of(old(store).flushed(), genesis).found_count,
            progress_of(old(store).flushed(), genesis).next_block,
        ),
    ensures
        final(store).wf(),
        final(store).flushed() == final(store).appended(),
        ({
            let start = progress_of(old(store).flushed(), genesis);
            &&& start.next_block <= progress.next_block
            &&& final(store).appended() == old(store).flushed() + scanned(
                log@,
                start.next_block as int,
                progress.next_block - 1,
            )
            &&& progress.found_count == start.found_count + count_in_range(
                log@,
                start.next_block as int,
                progress.next_block - 1,
            )
            &&& progress.found_count >= log@.len()
        }),
{
    let start = store.recover(genesis);
    let ghost base = store.appended();
    let ghost mut appended = Seq::<Record>::empty();
    let (mut driver, mut action) = Driver::resume(start);
    proof {
        lemma_count_empty_range(log@, start.next_block as int, start.next_block - 1);
        assert(appended + records_to_append(action@) =~= scanned(
            log@,
            start.next_block as int,
            start.next_block - 1,
        ));
        assert(base + appended =~= base);
    }
    while !driver.done()
        invariant
            store.wf(),
            scannable(log@, start),
            run_inv(driver, action@, log@, start, appended),
            store.appended() == base + appended,
            (driver.phase is Total || driver.phase is Window || driver.phase is Done)
                ==> store.flushed() == store.appended(),
        decreases u64::MAX - driver.next_block, phase_rank(driver.phase), search_width(driver.phase),
    {
        let ghost command = action@;
        let ghost before = driver;
        let event = match action {
            Action::QueryTotal => Event::Total { count: log.total_count() },
            Action::CountRange { range } => Event::Count {
                count: log.count_in_range(range.lo, range.hi),
            },
            Action::FetchEvents { block } => Event::Events { events: log.events_at_block(block) },
            Action::Append { records } => {
                store.append_all(&records);
                Event::Appended
            },
            Action::Flush => {
                store.flush();
                Event::Flushed
            },
            Action::Finish => Event::Flushed,
            Action::Abort { .. } => Event::Flushed,
        };
        proof {
            lemma_step_keeps_run(driver, command, log@, start, appended);
            assert(base + (appended + records_to_append(command)) =~= base + appended
                + records_to_append(command));
            appended = appended + records_to_append(command);
        }
        action = driver.step(event);
    }
    proof {
        assert(appended + records_to_append(action@) =~= appended);
    }
    ProgressState { found_count: driver.found_count, next_block: driver.next_block }
}

} // verus!
