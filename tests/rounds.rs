use babble::RoundBest;

#[test]
fn keeps_the_input_until_a_round_does_better() {
    let mut r = RoundBest::new(10);
    assert_eq!(r.best_cost(), 10);
    assert_eq!(r.best_round(), 0);
    assert!(!r.observe(12));
    assert_eq!(r.best_cost(), 10);
    assert_eq!(r.best_round(), 0);
    assert!(r.observe(7));
    assert_eq!(r.best_cost(), 7);
    assert_eq!(r.best_round(), 2);
    assert!(!r.observe(9));
    assert_eq!(r.best_cost(), 7);
    assert!(r.observe(7));
    assert_eq!(r.best_round(), 4);
}
