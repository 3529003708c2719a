use lineup_builder::common::{BuilderState, LineupError, Player, RosterSlot};
use lineup_builder::category_mapper::map_categories;
use lineup_builder::lp_optimizer::{parse_var_id, LpOptimizer};
use lineup_builder::player_pool::PlayerPool;

fn slot(key: &str, count: u32) -> RosterSlot {
    RosterSlot {
        name: key.to_string(),
        key: key.to_string(),
        count,
        salary_multiplier: 1_000,
        point_multiplier: 1_000,
    }
}

#[test]
fn lp_model_from_state() {
    let players = vec![
        Player::new(1, "qb", 4500, 18_400, vec![0]),
        Player::new(2, "rb", 7000, 21_200, vec![1]),
    ];
    let pool = PlayerPool::new(players, false).unwrap();
    let state = BuilderState {
        player_pool: None,
        roster_slots: Some(vec![slot("QB", 1), slot("RB", 1)]),
        salary_cap: Some(16_300),
    };
    let mapper = map_categories("nfl").unwrap();
    let mut lp = LpOptimizer::new(pool);
    lp.initialize(&state, &mapper).unwrap();
    // Catalog order is points descending: rb first.
    assert_eq!(lp.problem.variables, vec![2, 1]);
    assert_eq!(lp.problem.objective, vec![(2, 21_200), (1, 18_400)]);
    assert_eq!(lp.problem.budget_terms, vec![(2, 7_000), (1, 4_500)]);
    assert_eq!(lp.problem.budget_limit, 16_300);
    assert_eq!(lp.problem.slot_constraints.len(), 2);
    assert_eq!(lp.problem.slot_constraints[0].member_ids, vec![1]);
    assert_eq!(lp.problem.slot_constraints[0].exact_count, 1);
    assert_eq!(lp.problem.slot_constraints[1].member_ids, vec![2]);
}

#[test]
fn lp_initialize_requires_state() {
    let pool = PlayerPool::new(vec![], false).unwrap();
    let mapper = map_categories("nfl").unwrap();
    let mut lp = LpOptimizer::new(pool);
    let state = BuilderState { player_pool: None, roster_slots: None, salary_cap: None };
    assert_eq!(lp.initialize(&state, &mapper).err(), Some(LineupError::MissingInput));
}

#[test]
fn solve_decodes_variable_assignment() {
    let pool = PlayerPool::new(vec![], false).unwrap();
    let lp = LpOptimizer::new(pool);
    let values = vec![
        ("P_12".to_string(), true),
        ("P_5".to_string(), false),
        ("P_900".to_string(), true),
    ];
    assert_eq!(lp.solve(values).unwrap(), vec![12, 900]);

    let pool2 = PlayerPool::new(vec![], false).unwrap();
    let lp2 = LpOptimizer::new(pool2);
    let bad = vec![("Q_1".to_string(), true)];
    assert_eq!(lp2.solve(bad).err(), Some(LineupError::MalformedRecord));
}

#[test]
fn var_id_parsing() {
    assert_eq!(parse_var_id("P_0"), Some(0));
    assert_eq!(parse_var_id("P_18446744073709551615"), Some(u64::MAX));
    assert_eq!(parse_var_id("P_18446744073709551616"), None);
    assert_eq!(parse_var_id("P_"), None);
    assert_eq!(parse_var_id("P_1x"), None);
    assert_eq!(parse_var_id("X_1"), None);
}
