use distinct_count::uniques::{is_accepted, EstimatorError, Fraction, UniquesInAStream};
use rand::rngs::StdRng;
use rand::SeedableRng;

fn tenth() -> Fraction {
    Fraction::new(1, 10)
}

fn fresh(seed: u64) -> UniquesInAStream {
    UniquesInAStream::new(0, tenth(), tenth(), StdRng::seed_from_u64(seed)).unwrap()
}

fn threshold(eps: f64, delta: f64, n: u64) -> usize {
    let n = if n == 0 { 1.0 } else { n as f64 };
    ((12.0 / (eps * eps)) * ((8.0 * n) / delta).ln()).ceil() as usize
}

#[test]
fn new_starts_empty_at_rate_one() {
    let est = UniquesInAStream::new(17, Fraction::new(1, 4), Fraction::new(1, 3), StdRng::seed_from_u64(1))
        .unwrap();
    assert_eq!(est.p(), 0);
    assert_eq!(est.stream_size(), 17);
    assert_eq!(est.eps(), Fraction::new(1, 4));
    assert_eq!(est.delta(), Fraction::new(1, 3));
    assert_eq!(est.to_result(), 0);
}

#[test]
fn new_refuses_nonpositive_epsilon() {
    let bad = [Fraction::new(0, 1), Fraction::new(-1, 10), Fraction::new(i64::MIN, 1), Fraction::new(1, 0)];
    for eps in bad {
        let made = UniquesInAStream::new(0, eps, tenth(), StdRng::seed_from_u64(1));
        assert!(matches!(made, Err(EstimatorError::Configuration)));
    }
}

#[test]
fn new_refuses_delta_outside_open_unit() {
    let bad = [
        Fraction::new(0, 1),
        Fraction::new(1, 1),
        Fraction::new(3, 2),
        Fraction::new(-1, 2),
        Fraction::new(1, 0),
    ];
    for delta in bad {
        let made = UniquesInAStream::new(0, tenth(), delta, StdRng::seed_from_u64(1));
        assert!(matches!(made, Err(EstimatorError::Configuration)));
    }
}

#[test]
fn new_accepts_any_positive_epsilon() {
    assert!(UniquesInAStream::new(0, Fraction::new(5, 2), tenth(), StdRng::seed_from_u64(1)).is_ok());
    assert!(UniquesInAStream::new(0, Fraction::new(1, u64::MAX), tenth(), StdRng::seed_from_u64(1)).is_ok());
}

#[test]
fn fraction_predicates() {
    assert!(Fraction::new(1, 10).positive());
    assert!(Fraction::new(7, 2).positive());
    assert!(!Fraction::new(0, 2).positive());
    assert!(!Fraction::new(-3, 2).positive());
    assert!(!Fraction::new(3, 0).positive());
    assert!(Fraction::new(1, 10).within_open_unit());
    assert!(!Fraction::new(10, 10).within_open_unit());
    assert!(!Fraction::new(11, 10).within_open_unit());
    assert!(!Fraction::new(0, 10).within_open_unit());
    assert!(Fraction::new(i64::MAX, u64::MAX).within_open_unit());
}

#[test]
fn draws_accepted_at_each_rate() {
    // rate 1: every draw
    assert!(is_accepted(0, 0));
    assert!(is_accepted(u64::MAX, 0));
    // rate 1/2: draws up to 2^52 / 2^53, the upper 53 bits of 2^63
    assert!(is_accepted(1 << 63, 1));
    assert!(is_accepted((1 << 63) + 2047, 1));
    assert!(!is_accepted((1 << 63) + 2048, 1));
    assert!(!is_accepted(u64::MAX, 1));
    // rate 1/2^53: draws up to 1 / 2^53
    assert!(is_accepted(2048, 53));
    assert!(is_accepted(4095, 53));
    assert!(!is_accepted(4096, 53));
    // below that only the draw zero
    assert!(is_accepted(2047, 54));
    assert!(!is_accepted(2048, 54));
    assert!(is_accepted(0, u64::MAX));
    assert!(!is_accepted(2048, u64::MAX));
}

#[test]
fn alternating_stream_has_two_distinct_elements() {
    for seed in 0..20 {
        let mut est = fresh(seed);
        for v in 0..100u32 {
            let elem = (1 + (-1 as i32).pow(v)) as u64;
            let t = threshold(0.1, 0.1, est.stream_size() + 1);
            assert_eq!(est.update(&elem, t), Ok(()));
        }
        assert_eq!(est.p(), 0);
        assert_eq!(est.stream_size(), 100);
        assert_eq!(est.to_result(), 2);
    }
}

#[test]
fn rate_one_counts_exactly() {
    let mut est = fresh(3);
    for v in 0..1000u64 {
        assert_eq!(est.update(&(v % 250), 100_000), Ok(()));
    }
    assert_eq!(est.to_result(), 250);
}

fn million_distinct(seed: u64) {
    let mut est = fresh(seed);
    let mut rate = est.p();
    for v in 0..1_000_000u64 {
        let t = threshold(0.1, 0.1, est.stream_size() + 1);
        assert_eq!(est.update(&v, t), Ok(()));
        // the rate never rises and moves by one halving at a time
        assert!(est.p() == rate || est.p() == rate + 1);
        rate = est.p();
        // the sample stays below the threshold
        assert!(((est.to_result() >> est.p()) as usize) < t);
    }
    assert!(est.p() >= 1);
    assert_eq!(est.stream_size(), 1_000_000);
    let got = est.to_result();
    assert!(900_000 <= got && got <= 1_100_000, "estimate {}", got);
}

#[test]
fn million_distinct_elements() {
    million_distinct(11);
}

#[test]
fn million_distinct_elements_other_seed() {
    million_distinct(12);
}

#[test]
fn million_distinct_elements_third_seed() {
    million_distinct(13);
}

#[test]
fn estimate_is_sample_size_over_rate() {
    let mut est = fresh(5);
    let none: Vec<bool> = Vec::new();
    for v in 0..4u64 {
        assert_eq!(est.update_with(&v, 5, 0, &none), Ok(()));
    }
    assert_eq!(est.to_result(), 4);
    // the fifth element brings the sample to the threshold: two heads of five
    let coins = vec![true, false, true, false, false, true, true];
    assert_eq!(est.update_with(&4, 5, 0, &coins), Ok(()));
    assert_eq!(est.p(), 1);
    assert_eq!(est.stream_size(), 5);
    assert_eq!(est.to_result(), 2 * 2);
    // two more elements, then a thinning of four on three heads
    assert_eq!(est.update_with(&10, 4, 0, &none), Ok(()));
    assert_eq!(est.to_result(), 3 * 2);
    assert_eq!(est.update_with(&11, 4, 0, &vec![true, true, false, true]), Ok(()));
    assert_eq!(est.p(), 2);
    assert_eq!(est.to_result(), 3 * 4);
}

#[test]
fn thinning_on_tails_empties_the_sample() {
    let mut est = fresh(5);
    let none: Vec<bool> = Vec::new();
    for v in 0..9u64 {
        assert_eq!(est.update_with(&v, 10, 0, &none), Ok(()));
    }
    assert_eq!(est.update_with(&9, 10, 0, &vec![false; 10]), Ok(()));
    assert_eq!(est.p(), 1);
    assert_eq!(est.to_result(), 0);
}

#[test]
fn thinning_drops_on_fair_coins() {
    // one element against the threshold one: the coin decides
    let mut kept = 0;
    let mut dropped = 0;
    for seed in 0..64 {
        let mut est = fresh(seed);
        match est.update(&9, 1) {
            Ok(()) => {
                assert_eq!(est.to_result(), 0);
                dropped += 1;
            }
            Err(e) => {
                assert_eq!(e, EstimatorError::InvariantViolation);
                assert_eq!(est.to_result(), 2);
                kept += 1;
            }
        }
        assert_eq!(est.p(), 1);
    }
    assert!(kept > 0 && dropped > 0);
}

#[test]
fn thinning_that_drops_nothing_is_reported() {
    let mut est = fresh(8);
    let none: Vec<bool> = Vec::new();
    for v in 0..2u64 {
        assert_eq!(est.update_with(&v, 3, 0, &none), Ok(()));
    }
    assert_eq!(
        est.update_with(&2, 3, 0, &vec![true, true, true]),
        Err(EstimatorError::InvariantViolation)
    );
    assert_eq!(est.p(), 1);
    assert_eq!(est.stream_size(), 3);
    assert_eq!(est.to_result(), 6);
}

#[test]
fn empty_sample_against_threshold_zero_is_reported() {
    let mut est = fresh(8);
    let none: Vec<bool> = Vec::new();
    assert_eq!(est.update_with(&1, 1, 0, &vec![false]), Ok(()));
    assert_eq!(est.p(), 1);
    // the element is refused, the sample is empty, and so is the threshold
    assert_eq!(est.update_with(&1, 0, u64::MAX, &none), Err(EstimatorError::InvariantViolation));
    assert_eq!(est.p(), 2);
    assert_eq!(est.stream_size(), 2);
    assert_eq!(est.to_result(), 0);
}

#[test]
fn repeated_element_is_trialled_again() {
    let mut est = fresh(21);
    let none: Vec<bool> = Vec::new();
    assert_eq!(est.update_with(&7, 100, u64::MAX, &none), Ok(()));
    assert_eq!(est.to_result(), 1);
    // a thinning halves the rate
    assert_eq!(est.update_with(&8, 2, 0, &vec![true, false]), Ok(()));
    assert_eq!(est.p(), 1);
    assert_eq!(est.to_result(), 2);
    // resubmitted with an accepted draw the element is in the sample
    assert_eq!(est.update_with(&7, 100, 0, &none), Ok(()));
    assert_eq!(est.update_with(&8, 100, u64::MAX, &none), Ok(()));
    assert_eq!(est.to_result(), 2);
    // resubmitted with a draw that the first rate accepted and this one refuses, it is gone
    assert_eq!(est.update_with(&7, 100, u64::MAX, &none), Ok(()));
    assert_eq!(est.to_result(), 0);
}

#[test]
fn estimate_saturates() {
    let mut est = fresh(2);
    let none: Vec<bool> = Vec::new();
    assert_eq!(est.update_with(&1, 1, 0, &vec![false]), Ok(()));
    assert_eq!(est.p(), 1);
    for _ in 0..62 {
        assert_eq!(
            est.update_with(&1, 0, u64::MAX, &none),
            Err(EstimatorError::InvariantViolation)
        );
    }
    assert_eq!(est.p(), 63);
    assert_eq!(est.update_with(&1, 5, 0, &none), Ok(()));
    assert_eq!(est.to_result(), 1 << 63);
    assert_eq!(est.update_with(&2, 5, 0, &none), Ok(()));
    assert_eq!(est.to_result(), u64::MAX);
    assert_eq!(est.update_with(&2, 5, u64::MAX, &none), Ok(()));
    assert_eq!(est.update_with(&1, 0, u64::MAX, &none), Err(EstimatorError::InvariantViolation));
    assert_eq!(est.p(), 64);
    assert_eq!(est.to_result(), 0);
    assert_eq!(est.update_with(&1, 5, 0, &none), Ok(()));
    assert_eq!(est.to_result(), u64::MAX);
}

#[test]
fn query_changes_nothing() {
    let mut est = fresh(4);
    for v in 0..500u64 {
        let t = threshold(0.5, 0.5, est.stream_size() + 1);
        let _ = est.update(&v, t);
    }
    let first = est.to_result();
    assert_eq!(est.to_result(), first);
    assert_eq!(est.to_result(), first);
    assert_eq!(est.stream_size(), 500);
}

#[test]
fn count_starts_at_the_hint() {
    let mut est = UniquesInAStream::new(40, tenth(), tenth(), StdRng::seed_from_u64(6)).unwrap();
    assert_eq!(est.update(&1, 1000), Ok(()));
    assert_eq!(est.update(&1, 1000), Ok(()));
    assert_eq!(est.stream_size(), 42);
    assert_eq!(est.to_result(), 1);
}
