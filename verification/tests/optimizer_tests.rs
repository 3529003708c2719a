use lineup_builder::common::Player;
use lineup_builder::lineup_optimizer::{Optimizer, OptimizerContext};

// Scenario catalog: two quarterbacks (category 0) and one running back
// (category 1), projected points in thousandths.
fn scenario_players() -> Vec<Player> {
    vec![
        Player::new(1, "qb low", 4500, 18_400, vec![0]),
        Player::new(2, "qb high", 5200, 24_800, vec![0]),
        Player::new(3, "rb", 7000, 21_200, vec![1]),
    ]
}

#[test]
fn scenario_feasible_best_value() {
    let context = OptimizerContext::new(12_300, vec![1, 1], scenario_players());
    let mut optimizer = Optimizer::new(context);
    let best = optimizer.optimize();
    assert!(best.feasible);
    assert_eq!(best.value, 46_000);
    assert_eq!(best.chosen, vec![1, 2]);

    let lineups = optimizer.rank(3);
    assert!(!lineups.is_empty());
    let (points, salary) = lineups[0].expected_result();
    assert_eq!(points, 46_000);
    assert_eq!(salary, 12_200);
}

#[test]
fn scenario_infeasible_budget() {
    let context = OptimizerContext::new(11_000, vec![1, 1], scenario_players());
    let mut optimizer = Optimizer::new(context);
    let best = optimizer.optimize();
    assert!(!best.feasible);
    assert_eq!(best.value, 0);
    assert!(best.chosen.is_empty());
    assert!(optimizer.rank(3).is_empty());
}

#[test]
fn scenario_zero_supply_category_is_immediate() {
    // The constraint vector asks for a category no item belongs to: the
    // top-level call is settled by the supply check alone, with a single
    // cache entry and no tree exploration.
    let players = vec![
        Player::new(1, "a", 100, 10_000, vec![0]),
        Player::new(2, "b", 100, 11_000, vec![0]),
    ];
    let context = OptimizerContext::new(1_000, vec![1, 1], players);
    let mut optimizer = Optimizer::new(context);
    let best = optimizer.optimize();
    assert!(!best.feasible);
    assert_eq!(optimizer.cache.len(), 1);
}

#[test]
fn optimize_twice_same_best_value() {
    let run = || {
        let context = OptimizerContext::new(12_300, vec![1, 1], scenario_players());
        let mut optimizer = Optimizer::new(context);
        optimizer.optimize()
    };
    let first = run();
    let second = run();
    assert_eq!(first.feasible, second.feasible);
    assert_eq!(first.value, second.value);
}

#[test]
fn budget_monotonicity() {
    let value_at = |budget: u32| {
        let context = OptimizerContext::new(budget, vec![1, 1], scenario_players());
        let mut optimizer = Optimizer::new(context);
        optimizer.optimize()
    };
    let tight = value_at(11_700);
    let loose = value_at(12_300);
    assert!(tight.feasible);
    assert_eq!(tight.value, 39_600);
    assert!(loose.feasible);
    assert!(loose.value >= tight.value);
}

#[test]
fn best_value_matches_exhaustive_search() {
    // Cross-check on a small input: the engine's best value must equal the
    // optimum of the underlying 0/1 program, here found by brute force over
    // every assignment of items to their categories.
    let players = vec![
        Player::new(1, "qb a", 4500, 18_400, vec![0]),
        Player::new(2, "qb b", 5200, 24_800, vec![0]),
        Player::new(3, "rb a", 7000, 21_200, vec![1]),
        Player::new(4, "rb b", 6700, 19_800, vec![1]),
        Player::new(5, "wr a", 3700, 10_400, vec![2]),
        Player::new(6, "wr b", 6800, 19_900, vec![2]),
    ];
    let budget: u32 = 16_300;
    let required = [1u32, 1, 1];
    let mut brute_best: Option<u64> = None;
    for qb in 0..players.len() {
        for rb in 0..players.len() {
            for wr in 0..players.len() {
                if qb == rb || qb == wr || rb == wr {
                    continue;
                }
                if !players[qb].categories.contains(&0) || !players[rb].categories.contains(&1)
                    || !players[wr].categories.contains(&2)
                {
                    continue;
                }
                let price = players[qb].price + players[rb].price + players[wr].price;
                if price > budget {
                    continue;
                }
                let pts = players[qb].projected_points + players[rb].projected_points
                    + players[wr].projected_points;
                brute_best = Some(brute_best.map_or(pts, |b: u64| b.max(pts)));
            }
        }
    }
    let context = OptimizerContext::new(budget, required.to_vec(), players);
    let mut optimizer = Optimizer::new(context);
    let best = optimizer.optimize();
    assert_eq!(best.feasible, brute_best.is_some());
    assert_eq!(best.value, brute_best.unwrap());
}

#[test]
fn ranked_lineups_are_value_ordered_and_within_budget() {
    let context = OptimizerContext::new(12_300, vec![1, 1], scenario_players());
    let mut optimizer = Optimizer::new(context);
    optimizer.optimize();
    let lineups = optimizer.rank(3);
    assert!(lineups.len() >= 1 && lineups.len() <= 3);
    let mut prev_points = u64::MAX;
    for lineup in &lineups {
        let (points, salary) = lineup.expected_result();
        assert!(salary <= 12_300);
        assert!(points <= prev_points);
        prev_points = points;
        // No lineup repeats an item id.
        let members = lineup.members();
        for a in 0..members.len() {
            for b in (a + 1)..members.len() {
                assert_ne!(members[a].id, members[b].id);
            }
        }
    }
}

#[test]
fn multi_category_item_fills_one_slot_only() {
    // One flex-eligible player may not occupy two slots at once.
    let players = vec![
        Player::new(1, "both", 100, 30_000, vec![0, 1]),
        Player::new(2, "solo", 100, 1_000, vec![1]),
    ];
    let context = OptimizerContext::new(10_000, vec![1, 1], players);
    let mut optimizer = Optimizer::new(context);
    let best = optimizer.optimize();
    assert!(best.feasible);
    assert_eq!(best.value, 31_000);
    assert_eq!(best.chosen, vec![0, 1]);
}

#[test]
fn ranked_lineups_are_complete_and_distinct() {
    // Two distinct complete lineups exist: the best one uses the last item
    // of the frozen order, the runner-up does not, so the ranked results
    // come from different subproblem entries yet both fill the whole
    // constraint vector.
    let players = vec![
        Player::new(1, "qb strong", 50, 25_000, vec![0]),
        Player::new(2, "rb strong", 90, 20_000, vec![1]),
        Player::new(3, "qb budget", 10, 15_000, vec![0]),
        Player::new(4, "rb budget", 50, 14_000, vec![1]),
    ];
    let context = OptimizerContext::new(100, vec![1, 1], players);
    let mut optimizer = Optimizer::new(context);
    let best = optimizer.optimize();
    assert!(best.feasible);
    assert_eq!(best.value, 39_000);

    let lineups = optimizer.rank(3);
    assert_eq!(lineups.len(), 2);
    let (points0, salary0) = lineups[0].expected_result();
    assert_eq!(points0, 39_000);
    assert!(salary0 <= 100);
    let (points1, salary1) = lineups[1].expected_result();
    assert_eq!(points1, 35_000);
    assert!(salary1 <= 100);

    for lineup in &lineups {
        // Every ranked lineup fills the full constraint vector: one item of
        // each required category.
        let members = lineup.members();
        assert_eq!(members.len(), 2);
        assert_eq!(members.iter().filter(|p| p.categories.contains(&0)).count(), 1);
        assert_eq!(members.iter().filter(|p| p.categories.contains(&1)).count(), 1);
    }
    let ids0: Vec<u64> = lineups[0].members().iter().map(|p| p.id).collect();
    let ids1: Vec<u64> = lineups[1].members().iter().map(|p| p.id).collect();
    assert_ne!(ids0, ids1);
    assert_eq!(ids0, vec![1, 4]);
    assert_eq!(ids1, vec![2, 3]);
}
