use pair_discovery::events::{Address, ChainEvent, EventLog, PairEvent};
use pair_discovery::locator::{locate_in_log, BlockRange, Locator, Search};

fn address(tag: u8) -> Address {
    Address { bytes: [tag; 20] }
}

fn event_at(block: u64, emission_order: u64) -> ChainEvent {
    ChainEvent {
        block,
        event: PairEvent {
            emission_order,
            pair: address(emission_order as u8),
            token0: address(0xa0),
            token1: address(0xb0),
        },
    }
}

fn log_of(blocks: &[u64]) -> EventLog {
    let mut events = Vec::new();
    for (i, block) in blocks.iter().enumerate() {
        events.push(event_at(*block, i as u64 + 1));
    }
    EventLog::new(events)
}

/// Runs a search by hand and returns the block found and the ranges asked for.
fn search(log: &EventLog, lo: u64, hi: u64) -> (u64, Vec<BlockRange>) {
    let mut asked = Vec::new();
    let mut locator = Locator::start(lo, hi);
    loop {
        let range = locator.probe();
        asked.push(range);
        match locator.advance(log.count_in_range(range.lo, range.hi)) {
            Search::Probing(next) => locator = next,
            Search::Found(block) => return (block, asked),
        }
    }
}

#[test]
fn total_count_is_number_of_events() {
    assert_eq!(log_of(&[]).total_count(), 0);
    assert_eq!(log_of(&[100, 250, 250, 400]).total_count(), 4);
}

#[test]
fn count_in_range_includes_both_ends() {
    let log = log_of(&[100, 250, 250, 400]);
    assert_eq!(log.count_in_range(0, 1000), 4);
    assert_eq!(log.count_in_range(100, 400), 4);
    assert_eq!(log.count_in_range(101, 399), 2);
    assert_eq!(log.count_in_range(0, 99), 0);
    assert_eq!(log.count_in_range(401, 1000), 0);
    assert_eq!(log.count_in_range(250, 400), 3);
}

#[test]
fn count_in_range_of_one_block() {
    let log = log_of(&[100, 250, 250, 400]);
    assert_eq!(log.count_in_range(250, 250), 2);
    assert_eq!(log.count_in_range(100, 100), 1);
    assert_eq!(log.count_in_range(251, 251), 0);
}

#[test]
fn count_in_range_of_reversed_bounds_is_zero() {
    let log = log_of(&[100, 250, 250, 400]);
    assert_eq!(log.count_in_range(400, 100), 0);
}

#[test]
fn count_never_shrinks_as_the_range_grows() {
    let log = log_of(&[3, 3, 7, 12, 12, 12, 20]);
    for lo in 0..25u64 {
        let mut previous = 0;
        for hi in lo..25u64 {
            let count = log.count_in_range(lo, hi);
            assert!(previous <= count, "lo {} hi {}", lo, hi);
            previous = count;
        }
    }
}

#[test]
fn events_at_block_keeps_the_order_of_the_log() {
    let log = log_of(&[100, 250, 250, 400]);
    let found = log.events_at_block(250);
    assert_eq!(found.len(), 2);
    assert_eq!(found[0].emission_order, 2);
    assert_eq!(found[1].emission_order, 3);
    assert_eq!(found[0].pair, address(2));
    assert!(log.events_at_block(251).is_empty());
}

#[test]
fn locator_on_one_block_asks_once() {
    let log = log_of(&[7]);
    let locator = Locator::start(7, 7);
    assert!(locator.confirming);
    assert_eq!(locator.probe(), BlockRange { lo: 7, hi: 7 });
    assert_eq!(locator.advance(1), Search::Found(7));
    let (block, asked) = search(&log, 7, 7);
    assert_eq!(block, 7);
    assert_eq!(asked, vec![BlockRange { lo: 7, hi: 7 }]);
    assert_eq!(locate_in_log(&log, 7, 7), 7);
}

#[test]
fn locator_on_two_blocks_tells_them_apart() {
    assert_eq!(search(&log_of(&[10]), 10, 11).0, 10);
    assert_eq!(search(&log_of(&[11]), 10, 11).0, 11);
    assert_eq!(search(&log_of(&[10, 11]), 10, 11).0, 10);
    assert_eq!(search(&log_of(&[11]), 10, 11).1, vec![BlockRange { lo: 10, hi: 10 }]);
}

#[test]
fn locator_first_probe_is_lower_half() {
    let locator = Locator::start(0, 1000);
    assert!(!locator.confirming);
    assert_eq!(locator.probe(), BlockRange { lo: 0, hi: 500 });
    assert_eq!(
        locator.advance(0),
        Search::Probing(Locator { lo: 500, hi: 1000, confirming: false })
    );
    assert_eq!(
        locator.advance(3),
        Search::Probing(Locator { lo: 0, hi: 500, confirming: false })
    );
}

#[test]
fn locator_confirms_block_after_lo_when_lo_is_empty() {
    let locator = Locator { lo: 41, hi: 42, confirming: true };
    assert_eq!(locator.probe(), BlockRange { lo: 41, hi: 41 });
    assert_eq!(locator.advance(0), Search::Found(42));
    assert_eq!(locator.advance(2), Search::Found(41));
}

#[test]
fn locator_finds_first_block_in_every_small_range() {
    for hi in 0..12u64 {
        for lo in 0..=hi {
            for first in lo..=hi {
                for second in first..=hi {
                    let log = log_of(&[first, second, second]);
                    let (block, _) = search(&log, lo, hi);
                    assert_eq!(block, first, "lo {} hi {} events {} {}", lo, hi, first, second);
                    assert_eq!(locate_in_log(&log, lo, hi), first);
                    assert!(log.count_in_range(lo, block) > 0);
                    assert!(block == lo || log.count_in_range(lo, block - 1) == 0);
                }
            }
        }
    }
}

#[test]
fn locator_ignores_events_outside_the_range() {
    let log = log_of(&[2, 50, 777, 5000]);
    assert_eq!(locate_in_log(&log, 3, 1003), 50);
    assert_eq!(locate_in_log(&log, 51, 1051), 777);
    assert_eq!(locate_in_log(&log, 778, 5000), 5000);
}

#[test]
fn locator_asks_logarithmically_many_questions() {
    let log = log_of(&[999_983]);
    let (block, asked) = search(&log, 0, 1_000_000);
    assert_eq!(block, 999_983);
    assert!(asked.len() <= 22, "{} questions", asked.len());
}

#[test]
fn locator_near_the_largest_block() {
    let hi = u64::MAX - 1;
    let log = log_of(&[hi]);
    assert_eq!(locate_in_log(&log, hi - 1000, hi), hi);
    assert_eq!(locate_in_log(&log, 0, hi), hi);
}
