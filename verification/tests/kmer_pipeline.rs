use kmer_counter::kmer::kmers;
use kmer_counter::metrics::{compare_sketches, JaccardEstimate};
use kmer_counter::pipeline::BatchAccumulator;
use kmer_counter::pool::partition;
use kmer_counter::sketch::{precision_for_error_ppm, Sketch};

fn seqs(n: u32) -> Vec<Vec<u8>> {
    let mut v = Vec::new();
    for i in 0..n {
        v.push(format!("ACGT{}TTGACCA{}", i, i * 7 + 3).into_bytes());
    }
    v
}

fn sequential_sketch(p: usize, sequences: &[Vec<u8>], k: usize) -> Sketch {
    let mut s = Sketch::new(p);
    for q in sequences {
        s.add_sequence(q.as_slice(), k);
    }
    s
}

#[test]
fn kmer_windows_left_to_right() {
    let ks = kmers(b"ACGTACGTAC", 4);
    let expected: Vec<&[u8]> = vec![
        b"ACGT", b"CGTA", b"GTAC", b"TACG", b"ACGT", b"CGTA", b"GTAC",
    ];
    assert_eq!(ks.len(), expected.len());
    for (got, want) in ks.iter().zip(expected.iter()) {
        assert_eq!(got.as_slice(), *want);
    }
}

#[test]
fn oversized_k_yields_no_kmers_and_leaves_sketch_unchanged() {
    assert!(kmers(b"ACGT", 5).is_empty());
    assert!(kmers(b"", 1).is_empty());
    let mut s = Sketch::new(8);
    s.add(b"something");
    let before = s.registers.clone();
    s.add_sequence(b"ACGT", 5);
    assert_eq!(s.registers, before);
    assert_eq!(kmers(b"ACGT", 4).len(), 1);
}

#[test]
fn merge_invariance_over_batching_and_workers() {
    let input = seqs(120);
    let k = 5;
    let reference = sequential_sketch(8, &input, k);

    // one batch, one worker
    let mut one = Sketch::new(8);
    one.absorb_batch(input.clone(), k, 1);
    assert_eq!(one.registers, reference.registers);

    // three uneven batches, many workers
    let mut three = Sketch::new(8);
    three.absorb_batch(input[..17].to_vec(), k, 7);
    three.absorb_batch(input[17..90].to_vec(), k, 3);
    three.absorb_batch(input[90..].to_vec(), k, 16);
    assert_eq!(three.registers, reference.registers);

    // every sequence its own batch
    let mut single = Sketch::new(8);
    for q in &input {
        single.absorb_batch(vec![q.clone()], k, 2);
    }
    assert_eq!(single.registers, reference.registers);
}

#[test]
fn parallel_worker_pool_matches_sequential_build() {
    let input = seqs(200);
    let reference = sequential_sketch(10, &input, 6);
    let mut parallel = Sketch::new(10);
    parallel.absorb_batch(input, 6, 8);
    assert_eq!(parallel.registers, reference.registers);
    assert!(parallel.estimate() > 0);
}

#[test]
fn partition_near_equal_contiguous() {
    let input = seqs(10);
    let parts = partition(input.clone(), 3);
    let sizes: Vec<usize> = parts.iter().map(|p| p.len()).collect();
    assert_eq!(sizes, vec![4, 3, 3]);
    let rejoined: Vec<Vec<u8>> = parts.into_iter().flatten().collect();
    assert_eq!(rejoined, input);
}

#[test]
fn partition_never_makes_empty_parts() {
    let input = seqs(4);
    let parts = partition(input.clone(), 20);
    assert_eq!(parts.len(), 4);
    for part in &parts {
        assert_eq!(part.len(), 1);
    }
    let none = partition(Vec::new(), 5);
    assert!(none.is_empty());
}

#[test]
fn empty_batch_changes_nothing() {
    let mut s = Sketch::new(8);
    s.add_sequence(b"ACGTACGT", 3);
    let before = s.registers.clone();
    s.absorb_batch(Vec::new(), 3, 4);
    assert_eq!(s.registers, before);
}

#[test]
fn batch_accumulator_emits_exactly_at_capacity() {
    let mut acc = BatchAccumulator::new(3);
    assert!(acc.push(b"a".to_vec()).is_none());
    assert!(acc.push(b"b".to_vec()).is_none());
    let batch = acc.push(b"c".to_vec()).expect("batch at capacity");
    assert_eq!(batch, vec![b"a".to_vec(), b"b".to_vec(), b"c".to_vec()]);
    assert!(acc.flush().is_none());
    assert!(acc.push(b"d".to_vec()).is_none());
    assert_eq!(acc.flush(), Some(vec![b"d".to_vec()]));
    assert!(acc.flush().is_none());
}

#[test]
fn end_to_end_identical_single_record_files() {
    let p = precision_for_error_ppm(4080).expect("supported error rate");
    let k = 4;
    let record = b"ACGTACGTAC".to_vec();

    let mut per_file = Vec::new();
    for _ in 0..2 {
        let mut acc = BatchAccumulator::new(40000);
        let mut sketch = Sketch::new(p);
        if let Some(batch) = acc.push(record.clone()) {
            sketch.absorb_batch(batch, k, 4);
        }
        if let Some(batch) = acc.flush() {
            sketch.absorb_batch(batch, k, 4);
        }
        per_file.push(sketch);
    }

    let rep = compare_sketches(&per_file[0], &per_file[1]).expect("same precision");
    assert_eq!(rep.card1, rep.card2);
    assert_eq!(rep.combined_card, rep.card1);
    // 4 distinct 4-mers in ACGTACGTAC, up to estimator rounding
    assert!(rep.card1 >= 3 && rep.card1 <= 5, "unexpected count {}", rep.card1);
    match rep.jaccard {
        JaccardEstimate::Ratio { numerator, denominator } => {
            assert_eq!(numerator as f64 / denominator as f64, 1.0);
        }
        JaccardEstimate::Undefined => panic!("defined jaccard expected"),
    }
}
