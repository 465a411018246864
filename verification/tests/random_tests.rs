use rustracer::random::Pcg;

#[test]
fn test_random() {
    let mut pcg = Pcg::default();
    assert_eq!(pcg.state(), 1753877967969059832);
    assert_eq!(pcg.inc(), 109);
    for expected in [
        2707161783u32,
        2068313097,
        3122475824,
        2211639955,
        3215226955,
        3421331566,
    ] {
        assert_eq!(pcg.random(), expected);
    }
}

#[test]
fn test_random_float() {
    let mut pcg = Pcg::new(38, 62);

    for expected in [
        0.09002101213904587,
        0.3903793735407245,
        0.664116223730174,
        0.42459877776554755,
        0.30006475823467244,
        0.15857429922525174,
    ] {
        let drawn = pcg.random() as f32 / u32::MAX as f32;
        assert_eq!(drawn, expected);
    }
}

#[test]
fn test_random_deterministic() {
    let mut a = Pcg::new(987654321, 123456789);
    let mut b = Pcg::new(987654321, 123456789);
    for _ in 0..100 {
        assert_eq!(a.random(), b.random());
    }
    assert_eq!(a.state(), b.state());
    assert_eq!(a.inc(), b.inc());
}

#[test]
fn test_distinct_streams_differ() {
    let mut a = Pcg::new(42, 54);
    let mut b = Pcg::new(42, 55);
    let first_a: Vec<u32> = (0..6).map(|_| a.random()).collect();
    let first_b: Vec<u32> = (0..6).map(|_| b.random()).collect();
    assert_ne!(first_a, first_b);
}
