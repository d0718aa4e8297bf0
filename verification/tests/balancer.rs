//! Decisions of the load balancer, and warm-up queries.

use fraud_api::balancer::{after_failure, AfterFailure, RoundRobin, CONNECT_ATTEMPTS};
use fraud_api::warmup::Warmup;

#[test]
fn clients_go_round() {
    let mut rr = RoundRobin::new();
    let got: Vec<usize> = (0..7).map(|_| rr.pick(3)).collect();
    assert_eq!(got, vec![0, 1, 2, 0, 1, 2, 0]);
}

#[test]
fn each_target_gets_one_in_a_row() {
    for start in [0usize, 1, 5, 1_000_003] {
        let mut rr = RoundRobin { next: start };
        let mut seen: Vec<usize> = (0..5).map(|_| rr.pick(5)).collect();
        seen.sort();
        assert_eq!(seen, vec![0, 1, 2, 3, 4]);
    }
}

#[test]
fn the_count_starts_again() {
    let mut rr = RoundRobin { next: usize::MAX };
    assert_eq!(rr.pick(2), usize::MAX % 2);
    assert_eq!(rr.next, 0);
    assert_eq!(rr.pick(2), 0);
}

#[test]
fn connecting_is_tried_for_half_a_minute() {
    let mut waited = 0;
    let mut attempt = 0;
    while let AfterFailure::Retry { millis } = after_failure(attempt) {
        waited += millis;
        attempt += 1;
    }
    assert_eq!(attempt + 1, CONNECT_ATTEMPTS);
    assert_eq!(attempt + 1, 120);
    assert_eq!(waited, 119 * 250);
    assert_eq!(after_failure(u32::MAX), AfterFailure::GiveUp);
}

#[test]
fn warmup_queries_match_the_machine() {
    let mut warm = Warmup::new();
    let mut state = 0x12345678u32;
    for _ in 0..200 {
        let want: [f32; 14] = std::array::from_fn(|i| {
            state = state.wrapping_mul(1_664_525).wrapping_add(1_013_904_223);
            let x = (state ^ (state >> 16)) as f32 / u32::MAX as f32;
            if i == 5 || i == 6 {
                -1.0
            } else {
                x
            }
        });
        let got = warm.next_query().map(|x| f32::from_bits(x.bits));
        assert_eq!(got, want);
        assert!(got.iter().all(|&x| x == -1.0 || (0.0..=1.0).contains(&x)));
    }
    assert_eq!(warm.state, state);
}
