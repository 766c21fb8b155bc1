use counting_networks::counters::{BitonicCountingNetwork, Counter, CountingBucket};
use counting_networks::networks::common::NetworkError;

fn send_only<T: Send>(_: T) {}

fn sync_only<T: Sync>(_: T) {}

#[test]
fn counters_create_counter() {
    const WIDTH: usize = 16;
    let counter = BitonicCountingNetwork::new(WIDTH).unwrap();

    assert_eq!(counter.width(), WIDTH);
}

#[test]
fn counters_is_send() {
    send_only(BitonicCountingNetwork::new(4).unwrap());
}

#[test]
fn counters_is_sync() {
    sync_only(BitonicCountingNetwork::new(4).unwrap());
}

#[test]
fn counter_create_counter() {
    const WIDTH: usize = 16;
    let counter = BitonicCountingNetwork::new(WIDTH).unwrap();

    assert_eq!(counter.width(), WIDTH);
}

#[test]
fn counter_is_send() {
    send_only(BitonicCountingNetwork::new(4).unwrap());
}

#[test]
fn counter_is_sync() {
    sync_only(BitonicCountingNetwork::new(4).unwrap());
}

#[test]
fn sequential_counter() {
    let counter = BitonicCountingNetwork::new(8).unwrap();
    let mut values = Vec::new();
    for _ in 0..24 {
        values.push(counter.next(3));
    }
    assert_eq!(values, (0..24).collect::<Vec<usize>>());
}

#[test]
fn width_one_counts_up() {
    let counter = BitonicCountingNetwork::new(1).unwrap();
    assert_eq!(counter.next(5), 0);
    assert_eq!(counter.next(5), 1);
    assert_eq!(counter.next(5), 2);
    assert_eq!(counter.next(5), 3);
}

#[test]
fn first_value_is_zero() {
    let counter = BitonicCountingNetwork::new(8).unwrap();
    assert_eq!(counter.next(0), 0);
}

#[test]
fn counter_refuses_bad_widths() {
    assert_eq!(BitonicCountingNetwork::new(0).err(), Some(NetworkError::NoOutputs));
    assert_eq!(BitonicCountingNetwork::new(3).err(), Some(NetworkError::UnsupportedWidth));
    assert_eq!(BitonicCountingNetwork::new(12).err(), Some(NetworkError::UnsupportedWidth));
    assert!(BitonicCountingNetwork::new(32).is_ok());
}

#[test]
fn bucket_hands_out_and_moves_on() {
    let bucket = CountingBucket::new(3);
    assert_eq!(bucket.get(), 3);
    bucket.inc(8);
    assert_eq!(bucket.get(), 11);
    assert_eq!(bucket.fetch_then_add(8), 11);
    assert_eq!(bucket.get(), 19);
}

#[test]
fn one_caller_counts_on_every_width() {
    for width in [1usize, 2, 4, 8, 16, 32] {
        for token in [0u64, 1, 5, 31, 1 << 40] {
            let counter = BitonicCountingNetwork::new(width).unwrap();
            for n in 0..(4 * width + 3) {
                assert_eq!(counter.next(token), n);
            }
        }
    }
}

#[test]
fn loom_test_counter_no_duplicates() {
    const COUNT_COUNT: usize = 4;
    for thread_count in [1usize, 2, 3, 5, 7, 8, 13] {
        let counter = BitonicCountingNetwork::new(thread_count.next_power_of_two()).unwrap();
        // one token for each caller, as different threads have
        let tokens: Vec<u64> = (0..thread_count)
            .map(|caller| (caller as u64).wrapping_mul(0x9E3779B97F4A7C15) >> 7)
            .collect();
        let mut values: Vec<Vec<usize>> = vec![Vec::new(); thread_count];
        // the callers take their turns in an order that changes from round
        // to round
        for round in 0..COUNT_COUNT {
            for step in 0..thread_count {
                let caller = (step * (round + 1) + round) % thread_count;
                if values[caller].len() < COUNT_COUNT {
                    let value = counter.next(tokens[caller]);
                    values[caller].push(value);
                }
            }
        }
        for caller in 0..thread_count {
            while values[caller].len() < COUNT_COUNT {
                let value = counter.next(tokens[caller]);
                values[caller].push(value);
            }
        }
        let mut results: Vec<usize> = Vec::new();
        for of_caller in values {
            results.extend(of_caller);
        }
        results.sort();
        assert_eq!(
            results,
            (0..(thread_count * COUNT_COUNT)).collect::<Vec<_>>()
        );
    }
}

#[test]
fn counters_concurrent_counting() {
    const WIDTH: usize = 8;
    const NUM_THREADS: usize = 8;
    const NUM_COUNTS: usize = 4;

    // the callers come one after the other, each with its own token
    let counter = BitonicCountingNetwork::new(WIDTH).unwrap();
    let mut results: Vec<usize> = Vec::new();
    for count in 0..NUM_COUNTS {
        for caller in 0..NUM_THREADS {
            let token = ((caller * 31 + count * 7) % NUM_THREADS) as u64;
            results.push(counter.next(token));
        }
    }
    assert_eq!(results, (0..(NUM_THREADS * NUM_COUNTS)).collect::<Vec<_>>());
    results.sort();
    assert_eq!(results, (0..(NUM_THREADS * NUM_COUNTS)).collect::<Vec<_>>());
}

#[test]
fn counter_concurrent_counting() {
    const WIDTH: usize = 8;
    const NUM_THREADS: usize = 8;
    const NUM_COUNTS: usize = 4;

    // each caller makes all its calls before the next one comes
    let counter = BitonicCountingNetwork::new(WIDTH).unwrap();
    let mut results: Vec<usize> = Vec::new();
    for caller in 0..NUM_THREADS {
        for _ in 0..NUM_COUNTS {
            results.push(counter.next(caller as u64 * 1_000_003));
        }
    }
    results.sort();
    assert_eq!(results, (0..(NUM_THREADS * NUM_COUNTS)).collect::<Vec<_>>());
}

#[test]
fn wide_counter_with_two_callers() {
    let counter = BitonicCountingNetwork::new(16).unwrap();
    let mut results: Vec<usize> = Vec::new();
    for call in 0..200usize {
        // two callers on different wires, in uneven turns
        let token = if call % 3 == 0 { 5 } else { 12 };
        results.push(counter.next(token));
    }
    results.sort();
    assert_eq!(results, (0..200).collect::<Vec<_>>());
}

#[test]
fn the_counter_at_rest_in_the_hands_of_the_caller() {
    let counter = BitonicCountingNetwork::new(4).unwrap();
    let mut toggles = counter.toggles_at_rest();
    let mut handed_out = counter.handed_out_at_rest();
    assert_eq!(toggles, vec![false; 10]);
    assert_eq!(handed_out, vec![0; 4]);
    assert_eq!(counter.next_with(2, &mut toggles, &mut handed_out), 0);
    assert_eq!(handed_out, vec![1, 0, 0, 0]);
    assert_eq!(counter.next_with(1, &mut toggles, &mut handed_out), 1);
    assert_eq!(counter.next_with(1, &mut toggles, &mut handed_out), 2);
    assert_eq!(counter.next_with(3, &mut toggles, &mut handed_out), 3);
    assert_eq!(counter.next_with(0, &mut toggles, &mut handed_out), 4);
    assert_eq!(handed_out, vec![2, 1, 1, 1]);
    // a bucket hands out its number and the width for each value before:
    // with all bits clear a token reaches bucket 0
    let mut toggles = counter.toggles_at_rest();
    let mut handed_out = vec![5, 0, 9, 2];
    assert_eq!(counter.next_with(3, &mut toggles, &mut handed_out), 20);
    assert_eq!(handed_out, vec![6, 0, 9, 2]);
    // with all bits set it reaches bucket 3
    let mut toggles = vec![true; 10];
    assert_eq!(counter.next_with(0, &mut toggles, &mut handed_out), 3 + 2 * 4);
    assert_eq!(handed_out, vec![6, 0, 9, 3]);
    // the counter itself has not moved
    assert_eq!(counter.next(0), 0);
}

#[test]
fn the_counter_goes_as_its_state_says() {
    for width in [1usize, 2, 4, 8, 16, 32] {
        let counter = BitonicCountingNetwork::new(width).unwrap();
        let mut toggles = counter.toggles_at_rest();
        let mut handed_out = counter.handed_out_at_rest();
        let mut token: u64 = 99;
        for n in 0..(9 * width) {
            token = token.wrapping_mul(6364136223846793005).wrapping_add(1442695040888963407);
            let caller = token >> 33;
            let expected = counter.next_with(caller, &mut toggles, &mut handed_out);
            assert_eq!(expected, n);
            assert_eq!(counter.next(caller), expected);
        }
    }
}
