use countdown::solve;
use countdown::Operation;
use countdown::Operator;
use countdown::SolveStats;

#[test]
fn exact_match_two_tiles() {
    let mut stats = SolveStats::new();
    let result = solve(vec![1, 2], 3, &mut stats);
    assert!(result.has_value());
    assert_eq!(result.value(), 3);
    assert_eq!(
        result.ops(),
        vec![
            Operation::Push(1),
            Operation::Push(2),
            Operation::Pop(Operator::Add)
        ]
    );
    assert_eq!(result.trace(), "1 2 +");
    // The exact match stops the search before the frontier is exhausted.
    assert!(stats.visited < stats.expanded);
    assert_eq!(stats.visited, 6);
    assert_eq!(stats.expanded, 9);
}

#[test]
fn single_tile_immediate_match() {
    let mut stats = SolveStats::new();
    let result = solve(vec![5], 5, &mut stats);
    assert!(result.has_value());
    assert_eq!(result.value(), 5);
    assert_eq!(result.ops(), vec![Operation::Push(5)]);
    assert_eq!(stats.visited, 2);
    assert_eq!(stats.expanded, 2);
}

#[test]
fn no_exact_match_closest_wins() {
    let mut stats = SolveStats::new();
    let result = solve(vec![2, 3], 100, &mut stats);
    assert_eq!(result.value(), 6);
    // The frontier was exhausted: everything generated was visited.
    assert_eq!(stats.visited, stats.expanded);
}

#[test]
fn duplicate_tiles_are_distinct() {
    let mut stats = SolveStats::new();
    let result = solve(vec![4, 4], 8, &mut stats);
    assert_eq!(result.value(), 8);
    assert_eq!(
        result.ops(),
        vec![
            Operation::Push(4),
            Operation::Push(4),
            Operation::Pop(Operator::Add)
        ]
    );
}

#[test]
fn identical_inputs_identical_outcomes() {
    let mut s1 = SolveStats::new();
    let r1 = solve(vec![2, 3, 7], 40, &mut s1);
    let mut s2 = SolveStats::new();
    let r2 = solve(vec![2, 3, 7], 40, &mut s2);
    assert_eq!(r1.value(), r2.value());
    assert_eq!(r1.ops(), r2.ops());
    assert_eq!(s1.visited, s2.visited);
    assert_eq!(s1.expanded, s2.expanded);
}

#[test]
fn empty_pool_returns_root() {
    let mut stats = SolveStats::new();
    let result = solve(vec![], 5, &mut stats);
    assert!(!result.has_value());
    assert!(result.ops().is_empty());
    assert_eq!(stats.visited, 1);
    assert_eq!(stats.expanded, 1);
}

#[test]
fn counters_accumulate() {
    let mut stats = SolveStats {
        expanded: 5,
        visited: 3,
    };
    let result = solve(vec![5], 5, &mut stats);
    assert_eq!(result.value(), 5);
    assert_eq!(stats.visited, 3 + 2);
    assert_eq!(stats.expanded, 5 + 2);
}

#[test]
fn three_tiles_exact() {
    let mut stats = SolveStats::new();
    let result = solve(vec![25, 4, 3], 103, &mut stats);
    assert_eq!(result.value(), 103);
    assert!(stats.visited <= stats.expanded);
}

#[test]
fn first_found_wins_ties() {
    // Tiles 2 and 4 are both at distance 1 from the target 3; only a
    // strict improvement replaces the best, so the first value seen in
    // breadth-first order is kept.
    let mut stats = SolveStats::new();
    let result = solve(vec![2, 4], 3, &mut stats);
    assert_eq!(result.value(), 2);
}

#[test]
fn fresh_stats_are_zero() {
    let stats = SolveStats::new();
    assert_eq!(stats.expanded, 0);
    assert_eq!(stats.visited, 0);
}
