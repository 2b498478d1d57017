use thermobug::gate::FlushGate;

#[test]
fn no_claim_inside_the_interval() {
    let mut g = FlushGate::new(60, 0);
    assert!(!g.should_flush_and_claim(30));
    assert!(!g.should_flush_and_claim(60));
    // exactly one interval elapsed is not yet "more than"
    assert!(!g.should_flush_and_claim(60));
}

#[test]
fn claims_exactly_once_per_window() {
    let mut g = FlushGate::new(60, 0);
    // several checks race into the same elapsed window: the first claims,
    // the rest see the fresh timestamp and stand down
    assert!(g.should_flush_and_claim(61));
    assert!(!g.should_flush_and_claim(61));
    assert!(!g.should_flush_and_claim(80));
    assert!(!g.should_flush_and_claim(121));
    // after the interval elapses again, exactly one more claim
    assert!(g.should_flush_and_claim(122));
    assert!(!g.should_flush_and_claim(123));
}

#[test]
fn time_standing_still_never_claims() {
    let mut g = FlushGate::new(0, 100);
    assert!(!g.should_flush_and_claim(100));
    // a clock reading from before the last claim does not claim either
    assert!(!g.should_flush_and_claim(50));
    assert!(g.should_flush_and_claim(101));
}
