use rustracer::imagetracer::sample_plan;
use rustracer::random::Pcg;

#[test]
fn test_sample_plan_matches_driver_stream() {
    let (init_state, init_seq) = (1234u64, 5678u64);
    let (width, height, aa) = (3u32, 2u32, 2u32);
    let plan = sample_plan(init_state, init_seq, width, height, aa);
    assert_eq!(plan.len(), (width * height) as usize);

    let mut driver = Pcg::new(init_state, init_seq);
    for entry in &plan {
        assert_eq!(entry.jitter.len(), (aa * aa) as usize);
        for pair in &entry.jitter {
            let u = driver.random();
            let v = driver.random();
            assert_eq!(*pair, (u, v));
        }
        assert_eq!(entry.seq, driver.random() as u64);
    }
}

#[test]
fn test_sample_plan_no_antialiasing() {
    let plan = sample_plan(42, 54, 2, 2, 0);
    assert_eq!(plan.len(), 4);
    let mut driver = Pcg::new(42, 54);
    for entry in &plan {
        assert!(entry.jitter.is_empty());
        assert_eq!(entry.seq, driver.random() as u64);
    }
}

#[test]
fn test_sample_plan_deterministic() {
    let a = sample_plan(7, 9, 4, 4, 3);
    let b = sample_plan(7, 9, 4, 4, 3);
    assert_eq!(a.len(), b.len());
    for (x, y) in a.iter().zip(b.iter()) {
        assert_eq!(x.jitter, y.jitter);
        assert_eq!(x.seq, y.seq);
    }
}

#[test]
fn test_sample_plan_streams_are_disjoint_seeds() {
    let plan = sample_plan(0, 0, 4, 2, 1);
    let mut seqs: Vec<u64> = plan.iter().map(|e| e.seq).collect();
    seqs.sort();
    seqs.dedup();
    assert_eq!(seqs.len(), 8);
}
