use bus_prototype::anneal::AnnealCosts;

#[test]
fn better_candidate_is_always_accepted() {
    let mut costs = AnnealCosts::new(100);
    assert!(!costs.needs_draw(90));
    assert_eq!(costs.consider(90, false), (true, true));
    assert_eq!((costs.current_cost, costs.best_cost), (90, 90));
}

#[test]
fn equal_candidate_is_accepted_without_improving() {
    let mut costs = AnnealCosts::new(100);
    assert!(!costs.needs_draw(100));
    assert_eq!(costs.consider(100, false), (true, false));
    assert_eq!((costs.current_cost, costs.best_cost), (100, 100));
}

#[test]
fn worse_candidate_follows_the_draw() {
    let mut costs = AnnealCosts::new(100);
    assert!(costs.needs_draw(110));
    assert_eq!(costs.consider(110, false), (false, false));
    assert_eq!((costs.current_cost, costs.best_cost), (100, 100));
    assert_eq!(costs.consider(110, true), (true, false));
    assert_eq!((costs.current_cost, costs.best_cost), (110, 100));
    // better than the incumbent but not than the best: accepted, best kept
    assert_eq!(costs.consider(105, false), (true, false));
    assert_eq!((costs.current_cost, costs.best_cost), (105, 100));
    assert_eq!(costs.consider(95, false), (true, true));
    assert_eq!((costs.current_cost, costs.best_cost), (95, 95));
}
