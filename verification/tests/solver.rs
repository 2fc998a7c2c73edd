use lib::assignment::Assignment;
use lib::primal_dual::PrimalDual;
use lib::primal_dual::SCALE;

/// epsilon = 0.01 in fixed point.
fn eps() -> u64 {
    SCALE / 100
}

/// The exact paid-for test, as the solver states it: consumption within
/// U(agent) * budget with all denominators cleared.
fn paid_within(c: u128, b: u128, alpha: u128, bn: u128, bd: u128) -> bool {
    let f = (SCALE as u128 - alpha) * (4 * bd - bn);
    c * f <= b * (f + SCALE as u128 * bn)
}

fn items_of(record: &Assignment, agent: usize) -> Vec<usize> {
    record.assignment[agent].clone()
}

#[test]
fn scenario_single_agent_single_item() {
    let mut solver = PrimalDual::new(1, 1, eps());
    solver.set_budget(0, 10);
    solver.set_bid(0, 0, 10);
    assert!(solver.solve().is_ok());
    let record = solver.make_valid_assignment();
    assert_eq!(record.total_consumption, 10);
    assert_eq!(items_of(&record, 0), vec![0]);
    assert_eq!(record.budgets, vec![10]);
}

#[test]
fn scenario_two_independent_items() {
    let mut solver = PrimalDual::new(2, 2, eps());
    solver.set_budget(0, 100);
    solver.set_budget(1, 100);
    solver.set_bid(0, 0, 50);
    solver.set_bid(1, 1, 60);
    assert!(solver.solve().is_ok());
    // no contention: both agents are paid from the start, so no discount
    // ever deepens
    assert_eq!(solver.alpha, vec![0, 0]);
    assert_eq!(solver.num_update, vec![0, 0]);
    let record = solver.make_valid_assignment();
    assert_eq!(record.total_consumption, 110);
    assert_eq!(items_of(&record, 0), vec![0]);
    assert_eq!(items_of(&record, 1), vec![1]);
}

#[test]
fn scenario_contested_item_clear_winner() {
    let mut solver = PrimalDual::new(2, 1, eps());
    solver.set_budget(0, 100);
    solver.set_budget(1, 200);
    solver.set_bid(0, 0, 90);
    solver.set_bid(1, 0, 10);
    // the larger bid wins the seed (90 > 10)
    assert_eq!(solver.max_agent[0], Some(0));
    assert!(solver.solve().is_ok());
    let record = solver.make_valid_assignment();
    // the larger bid seeds and keeps the item
    assert_eq!(items_of(&record, 0), vec![0]);
    assert_eq!(items_of(&record, 1), Vec::<usize>::new());
    assert_eq!(record.total_consumption, 90);
    // no budget violation for either agent
    assert!(90 <= 100);
}

#[test]
fn scenario_malformed_bid_rejected() {
    let mut clean = PrimalDual::new(2, 2, eps());
    let mut dirty = PrimalDual::new(2, 2, eps());
    for solver in [&mut clean, &mut dirty] {
        solver.set_budget(0, 100);
        solver.set_budget(1, 200);
        solver.set_bid(0, 0, 50);
        solver.set_bid(1, 1, 60);
    }
    let beta_before = (dirty.beta_num, dirty.beta_den);
    // over budget: rejected
    dirty.set_bid(0, 1, 101);
    // zero: rejected
    dirty.set_bid(1, 0, 0);
    assert_eq!((dirty.beta_num, dirty.beta_den), beta_before);
    assert_eq!(dirty.data, clean.data);
    assert!(clean.solve().is_ok());
    assert!(dirty.solve().is_ok());
    let clean_record = clean.make_valid_assignment();
    let dirty_record = dirty.make_valid_assignment();
    assert_eq!(clean_record.total_consumption, dirty_record.total_consumption);
    assert_eq!(clean_record.budgets, dirty_record.budgets);
    assert_eq!(clean_record.assignment, dirty_record.assignment);
}

#[test]
fn accepted_bids_respect_budget() {
    let mut solver = PrimalDual::new(2, 3, eps());
    solver.set_budget(0, 100);
    solver.set_budget(1, 5);
    solver.set_bid(0, 0, 100); // accepted, equals budget
    solver.set_bid(0, 1, 0); // rejected
    solver.set_bid(1, 0, 6); // rejected, over budget
    solver.set_bid(1, 2, 5); // accepted
    assert_eq!(solver.data[0][0], 100);
    assert_eq!(solver.data[0][1], 0);
    assert_eq!(solver.data[1][0], 0);
    assert_eq!(solver.data[1][2], 5);
}

#[test]
fn beta_is_running_maximum_ratio() {
    let mut solver = PrimalDual::new(3, 3, eps());
    solver.set_budget(0, 100);
    solver.set_budget(1, 200);
    solver.set_budget(2, 50);
    assert_eq!((solver.beta_num, solver.beta_den), (0, 1));
    solver.set_bid(0, 0, 50); // ratio 1/2
    assert_eq!((solver.beta_num, solver.beta_den), (50, 100));
    solver.set_bid(1, 1, 100); // ratio 1/2: tie, first writer kept
    assert_eq!((solver.beta_num, solver.beta_den), (50, 100));
    solver.set_bid(2, 2, 40); // ratio 4/5: new maximum
    assert_eq!((solver.beta_num, solver.beta_den), (40, 50));
    solver.set_bid(1, 0, 20); // ratio 1/10: beta unchanged
    assert_eq!((solver.beta_num, solver.beta_den), (40, 50));
    // rejected bid leaves beta unchanged
    solver.set_bid(2, 0, 60);
    assert_eq!((solver.beta_num, solver.beta_den), (40, 50));
}

#[test]
fn alpha_monotone_and_counter_coupled() {
    // contested instance that forces discount updates
    let mut solver = PrimalDual::new(2, 3, eps());
    solver.set_budget(0, 100);
    solver.set_budget(1, 200);
    solver.set_bid(0, 0, 50);
    solver.set_bid(0, 1, 60);
    solver.set_bid(0, 2, 60);
    solver.set_bid(1, 0, 90);
    solver.set_bid(1, 1, 10);
    solver.set_bid(1, 2, 20);
    let alpha_before = solver.alpha.clone();
    let updates_before = solver.num_update.clone();
    assert!(solver.solve().is_ok());
    for a in 0..2 {
        assert!(solver.alpha[a] >= alpha_before[a]);
        assert!(solver.num_update[a] >= updates_before[a]);
        assert_eq!(
            solver.num_update[a] == updates_before[a],
            solver.alpha[a] == alpha_before[a]
        );
    }
    // the overloaded agent 0 (held value 120 > budget 100) must have deepened
    // its discount at least once
    assert!(solver.num_update[0] > 0);
    assert!(solver.alpha[0] >= eps());
}

#[test]
fn solve_reaches_approximate_feasibility() {
    let mut solver = PrimalDual::new(2, 3, eps());
    solver.set_budget(0, 100);
    solver.set_budget(1, 200);
    solver.set_bid(0, 0, 50);
    solver.set_bid(0, 1, 60);
    solver.set_bid(0, 2, 60);
    solver.set_bid(1, 0, 90);
    solver.set_bid(1, 1, 10);
    solver.set_bid(1, 2, 20);
    assert!(solver.solve().is_ok());
    for a in 0..2 {
        assert!(paid_within(
            solver.consumptions[a] as u128,
            solver.budgets[a] as u128,
            solver.alpha[a] as u128,
            solver.beta_num as u128,
            solver.beta_den as u128,
        ));
    }
}

#[test]
fn rounding_is_strictly_feasible_and_exact() {
    let mut solver = PrimalDual::new(2, 3, eps());
    solver.set_budget(0, 100);
    solver.set_budget(1, 200);
    solver.set_bid(0, 0, 50);
    solver.set_bid(0, 1, 60);
    solver.set_bid(0, 2, 60);
    solver.set_bid(1, 0, 90);
    solver.set_bid(1, 1, 10);
    solver.set_bid(1, 2, 20);
    let data = solver.data.clone();
    assert!(solver.solve().is_ok());
    let record = solver.make_valid_assignment();
    // strict per-agent feasibility, from the original bids
    let mut total: u64 = 0;
    let mut seen = vec![false; 3];
    for a in 0..2 {
        let mut spend: u64 = 0;
        for &item in &record.assignment[a] {
            // every item appears in at most one agent's list
            assert!(!seen[item]);
            seen[item] = true;
            spend += data[a][item] as u64;
        }
        assert!(spend <= record.budgets[a] as u64);
        total += spend;
    }
    // the reported total is exactly the sum of the assigned bids
    assert_eq!(record.total_consumption, total);
}

#[test]
fn empty_instance() {
    let mut solver = PrimalDual::new(0, 0, eps());
    assert!(solver.solve().is_ok());
    let record = solver.make_valid_assignment();
    assert_eq!(record.total_consumption, 0);
    assert_eq!(record.budgets.len(), 0);
}

#[test]
fn zero_budget_rejects_everything() {
    let mut solver = PrimalDual::new(1, 2, eps());
    solver.set_budget(0, 0);
    solver.set_bid(0, 0, 1);
    solver.set_bid(0, 1, 7);
    assert!(solver.solve().is_ok());
    let record = solver.make_valid_assignment();
    assert_eq!(record.total_consumption, 0);
    assert_eq!(items_of(&record, 0), Vec::<usize>::new());
}

#[test]
fn full_accuracy_parameter() {
    // epsilon = 1.0: the first discount update jumps straight to 1
    let mut solver = PrimalDual::new(2, 1, SCALE);
    solver.set_budget(0, 10);
    solver.set_budget(1, 10);
    solver.set_bid(0, 0, 10);
    solver.set_bid(1, 0, 10);
    assert!(solver.solve().is_ok());
    let record = solver.make_valid_assignment();
    // the single item is assigned exactly once
    let count: usize = (0..2).map(|a| record.assignment[a].len()).sum();
    assert_eq!(count, 1);
    assert_eq!(record.total_consumption, 10);
}

#[test]
fn redistribution_hands_out_leftovers() {
    // agent 0 is seeded with both items but can round only one into its
    // budget; the leftover must go to the other affordable bidder
    let mut solver = PrimalDual::new(2, 2, eps());
    solver.set_budget(0, 100);
    solver.set_budget(1, 100);
    solver.set_bid(0, 0, 90);
    solver.set_bid(0, 1, 80);
    solver.set_bid(1, 0, 70);
    solver.set_bid(1, 1, 60);
    assert!(solver.solve().is_ok());
    let record = solver.make_valid_assignment();
    let mut seen = vec![false; 2];
    let mut total: u64 = 0;
    for a in 0..2 {
        let mut spend: u64 = 0;
        for &item in &record.assignment[a] {
            assert!(!seen[item]);
            seen[item] = true;
            spend += [[90u64, 80], [70, 60]][a][item];
        }
        assert!(spend <= 100);
        total += spend;
    }
    assert_eq!(record.total_consumption, total);
    // both items are valuable enough that a feasible split assigns both
    assert!(seen[0] && seen[1]);
}

#[test]
fn assignment_record_accumulates() {
    let mut record = Assignment::new(2);
    record.set_budget(0, 30);
    record.set_budget(1, 40);
    record.assign(0, 2, 10);
    record.assign(0, 5, 7);
    record.assign(1, 3, 20);
    assert_eq!(record.total_consumption, 37);
    assert_eq!(record.assignment[0], vec![2, 5]);
    assert_eq!(record.assignment[1], vec![3]);
    assert_eq!(record.budgets, vec![30, 40]);
}

#[test]
fn rebid_on_accepted_pair_is_ignored() {
    let mut solver = PrimalDual::new(1, 1, eps());
    solver.set_budget(0, 100);
    solver.set_bid(0, 0, 80); // ratio 4/5
    assert_eq!((solver.beta_num, solver.beta_den), (80, 100));
    // bids are immutable once accepted: a repeated bid has no effect
    solver.set_bid(0, 0, 20);
    assert_eq!(solver.data[0][0], 80);
    assert_eq!((solver.beta_num, solver.beta_den), (80, 100));
}

#[test]
fn seed_tie_keeps_first_writer() {
    let mut solver = PrimalDual::new(2, 1, eps());
    solver.set_budget(0, 100);
    solver.set_budget(1, 100);
    solver.set_bid(1, 0, 50);
    solver.set_bid(0, 0, 50); // equal bid does not displace the seed
    assert_eq!(solver.max_agent[0], Some(1));
}
