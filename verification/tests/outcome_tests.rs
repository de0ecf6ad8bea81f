use ttt_limited::GameAnalysis;

#[test]
fn outcome_kind_predicates() {
    assert!(GameAnalysis::Winning(3).is_winning());
    assert!(!GameAnalysis::Winning(3).is_losing());
    assert!(GameAnalysis::Losing(2).is_losing());
    assert!(GameAnalysis::Neutral.is_neutral());
    assert!(!GameAnalysis::Neutral.is_winning());
}

#[test]
fn unresolved_outcome_is_the_default() {
    assert_eq!(GameAnalysis::default(), GameAnalysis::Neutral);
}

#[test]
fn order_chain_from_best_to_worst() {
    // Winning(0) > Winning(1) > ... > Neutral > ... > Losing(1) > Losing(0)
    let w0 = GameAnalysis::Winning(0);
    let w1 = GameAnalysis::Winning(1);
    let w9 = GameAnalysis::Winning(9);
    let n = GameAnalysis::Neutral;
    let l9 = GameAnalysis::Losing(9);
    let l1 = GameAnalysis::Losing(1);
    let l0 = GameAnalysis::Losing(0);
    assert!(w0.is_better_than(&w1));
    assert!(w1.is_better_than(&w9));
    assert!(w9.is_better_than(&n));
    assert!(n.is_better_than(&l9));
    assert!(l9.is_better_than(&l1));
    assert!(l1.is_better_than(&l0));
}

#[test]
fn order_is_strict_and_total() {
    let samples = [
        GameAnalysis::Winning(0),
        GameAnalysis::Winning(2),
        GameAnalysis::Neutral,
        GameAnalysis::Losing(2),
        GameAnalysis::Losing(0),
    ];
    for a in samples.iter() {
        for b in samples.iter() {
            let ab = a.is_better_than(b);
            let ba = b.is_better_than(a);
            if a == b {
                assert!(!ab && !ba);
            } else {
                assert!(ab != ba);
            }
        }
    }
}

#[test]
fn extremes_of_the_order() {
    assert_eq!(GameAnalysis::max(), GameAnalysis::Losing(0));
    assert_eq!(GameAnalysis::min(), GameAnalysis::Winning(0));
    for o in [
        GameAnalysis::Winning(0),
        GameAnalysis::Neutral,
        GameAnalysis::Losing(5),
    ] {
        assert!(!GameAnalysis::max().is_better_than(&o));
        assert!(!o.is_better_than(&GameAnalysis::min()));
    }
}
