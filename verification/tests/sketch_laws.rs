use kmer_counter::metrics::{compare_sketches, jaccard, JaccardEstimate};
use kmer_counter::sketch::{precision_for_error_ppm, sketch_for_error_ppm, Sketch, SketchError};

fn item(tag: &str, i: u32) -> Vec<u8> {
    format!("{}-{}", tag, i).into_bytes()
}

fn sketch_of_items(p: usize, tag: &str, lo: u32, hi: u32) -> Sketch {
    let mut s = Sketch::new(p);
    for i in lo..hi {
        s.add(item(tag, i).as_slice());
    }
    s
}

fn union_of(a: &Sketch, b: &Sketch) -> Sketch {
    let mut u = a.duplicate();
    u.union(b).expect("same precision");
    u
}

#[test]
fn union_commutative_registers() {
    let a = sketch_of_items(8, "x", 0, 50);
    let b = sketch_of_items(8, "x", 30, 100);
    let ab = union_of(&a, &b);
    let ba = union_of(&b, &a);
    assert_eq!(ab.registers, ba.registers);
}

#[test]
fn union_associative_registers() {
    let a = sketch_of_items(8, "x", 0, 50);
    let b = sketch_of_items(8, "x", 30, 100);
    let c = sketch_of_items(8, "x", 80, 130);
    let left = union_of(&a, &union_of(&b, &c));
    let right = union_of(&union_of(&a, &b), &c);
    assert_eq!(left.registers, right.registers);
}

#[test]
fn union_idempotent() {
    let a = sketch_of_items(8, "x", 0, 75);
    let aa = union_of(&a, &a);
    assert_eq!(aa.registers, a.registers);
    assert_eq!(aa.precision, a.precision);
}

#[test]
fn estimate_monotone_as_items_are_added() {
    let mut s = Sketch::new(8);
    let mut last = s.estimate();
    for i in 0..50u32 {
        s.add(item("mono", i).as_slice());
        let now = s.estimate();
        assert!(now >= last, "estimate fell from {} to {}", last, now);
        last = now;
    }
}

#[test]
fn accuracy_thousand_distinct_items() {
    let p = precision_for_error_ppm(4080).expect("supported error rate");
    assert_eq!(p, 16);
    let mut s = Sketch::new(p);
    for i in 0..1000u32 {
        s.add(item("acc", i).as_slice());
    }
    let est = s.estimate() as i64;
    println!("estimate for 1000 distinct items: {}", est);
    // target error 0.408%; allow three times that for a single trial
    assert!((est - 1000).abs() <= 12, "estimate {} too far from 1000", est);
}

#[test]
fn jaccard_of_disjoint_inputs_near_zero() {
    let a = sketch_of_items(16, "left", 0, 500);
    let b = sketch_of_items(16, "right", 0, 500);
    let rep = compare_sketches(&a, &b).expect("same precision");
    let sum = rep.card1 + rep.card2;
    let diff = if rep.combined_card > sum { rep.combined_card - sum } else { sum - rep.combined_card };
    assert!(diff * 20 <= sum, "combined {} vs parts {}", rep.combined_card, sum);
    match rep.jaccard {
        JaccardEstimate::Ratio { numerator, denominator } => {
            let j = numerator as f64 / denominator as f64;
            assert!(j.abs() <= 0.05, "jaccard {} not near zero", j);
        }
        JaccardEstimate::Undefined => panic!("defined jaccard expected"),
    }
}

#[test]
fn jaccard_of_identical_inputs_is_one() {
    let a = sketch_of_items(16, "same", 0, 500);
    let b = sketch_of_items(16, "same", 0, 500);
    let rep = compare_sketches(&a, &b).expect("same precision");
    assert_eq!(rep.card1, rep.card2);
    assert_eq!(rep.combined_card, rep.card1);
    match rep.jaccard {
        JaccardEstimate::Ratio { numerator, denominator } => {
            assert_eq!(numerator, denominator as i128);
            assert_eq!(numerator as f64 / denominator as f64, 1.0);
        }
        JaccardEstimate::Undefined => panic!("defined jaccard expected"),
    }
}

#[test]
fn jaccard_of_empty_inputs_is_undefined_sentinel() {
    let a = Sketch::new(16);
    let b = Sketch::new(16);
    let rep = compare_sketches(&a, &b).expect("same precision");
    assert_eq!(rep.card1, 0);
    assert_eq!(rep.card2, 0);
    assert_eq!(rep.combined_card, 0);
    assert_eq!(rep.jaccard, JaccardEstimate::Undefined);
    assert_eq!(jaccard(0, 0, 0), JaccardEstimate::Undefined);
}

#[test]
fn empty_sketch_estimates_zero() {
    for p in [4usize, 8, 16] {
        let s = Sketch::new(p);
        assert_eq!(s.estimate(), 0);
    }
}

#[test]
fn single_item_estimates_one() {
    let mut s = Sketch::new(16);
    s.add(b"ACGT");
    assert_eq!(s.estimate(), 1);
}

#[test]
fn union_of_mismatched_precision_is_error() {
    let mut a = sketch_of_items(4, "m", 0, 10);
    let before = a.registers.clone();
    let b = Sketch::new(5);
    assert_eq!(a.union(&b), Err(SketchError::PrecisionMismatch));
    assert_eq!(a.registers, before);
    assert!(matches!(compare_sketches(&a, &b), Err(SketchError::PrecisionMismatch)));
}

#[test]
fn precision_from_error_rate() {
    assert_eq!(precision_for_error_ppm(4080), Some(16));
    assert_eq!(precision_for_error_ppm(999999), Some(4));
    assert_eq!(precision_for_error_ppm(254), Some(24));
    assert_eq!(precision_for_error_ppm(253), None);
    let s = sketch_for_error_ppm(4080).expect("supported error rate");
    assert_eq!(s.precision, 16);
    assert_eq!(s.registers.len(), 65536);
    assert_eq!(s.estimate(), 0);
    assert!(sketch_for_error_ppm(253).is_none());
}

#[test]
fn duplicate_preserves_registers() {
    let a = sketch_of_items(8, "dup", 0, 40);
    let d = a.duplicate();
    assert_eq!(d.precision, a.precision);
    assert_eq!(d.registers, a.registers);
    assert_eq!(d.estimate(), a.estimate());
}

#[test]
fn raw_regime_exact_value() {
    // all 16 registers at rank 1: no zeros, small raw estimate, no correction:
    // floor(0.673 * 16^2 * 2^61 / (16 * 2^60)) == floor(21.536) == 21
    let s = Sketch { precision: 4, registers: vec![1u8; 16] };
    assert_eq!(s.estimate(), 21);
}

#[test]
fn large_range_correction_applies() {
    // high ranks everywhere: the raw estimate passes 2^64 / 30 and the
    // large-range correction -2^64 * ln(1 - E / 2^64) takes over
    let mut registers = vec![58u8; 16];
    registers[0] = 53;
    let s = Sketch { precision: 4, registers };
    let est = s.estimate();
    println!("large-range corrected estimate: {}", est);
    assert!(est > 1_000_000_000_000_000_000, "estimate {} too small", est);
    assert!(est < 1_150_000_000_000_000_000, "estimate {} too large", est);
}

#[test]
fn estimate_saturates_near_hash_space_exhaustion() {
    // every register at the largest rank: the corrected estimate exceeds
    // the representable range and saturates
    let s = Sketch { precision: 4, registers: vec![61u8; 16] };
    assert_eq!(s.estimate(), u64::MAX);
}
