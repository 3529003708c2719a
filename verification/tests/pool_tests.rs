use lineup_builder::common::{LineupError, Player};
use lineup_builder::player_pool::PlayerPool;

fn player(id: u64, name: &str, price: u32, points: u64, cats: Vec<u32>) -> Player {
    Player::new(id, name, price, points, cats)
}

#[test]
fn pool_rejects_duplicate_ids() {
    let players = vec![
        player(7, "first", 100, 10_000, vec![0]),
        player(7, "second", 200, 20_000, vec![1]),
    ];
    assert_eq!(PlayerPool::new(players, false).err(), Some(LineupError::DuplicateItemId));
}

#[test]
fn pool_rejects_out_of_range_points() {
    let players = vec![player(1, "huge", 100, 2_000_000_000, vec![0])];
    assert_eq!(PlayerPool::new(players, true).err(), Some(LineupError::MalformedRecord));
}

#[test]
fn pool_filters_at_or_below_threshold() {
    let players = vec![
        player(1, "at threshold", 100, 3_000, vec![0]),
        player(2, "above threshold", 100, 3_001, vec![0]),
        player(3, "below threshold", 100, 500, vec![0]),
    ];
    let pool = PlayerPool::new(players, true).unwrap();
    let all = pool.get_all();
    assert_eq!(all.len(), 1);
    assert_eq!(all[0].id, 2);

    let unfiltered = PlayerPool::new(
        vec![player(1, "at threshold", 100, 3_000, vec![0])],
        false,
    )
    .unwrap();
    assert_eq!(unfiltered.len(), 1);
}

#[test]
fn pool_orders_by_points_then_id() {
    let players = vec![
        player(30, "low", 100, 10_000, vec![0]),
        player(20, "tied b", 100, 20_000, vec![0]),
        player(10, "tied a", 100, 20_000, vec![0]),
        player(40, "high", 100, 30_000, vec![0]),
    ];
    let pool = PlayerPool::new(players, false).unwrap();
    let ids: Vec<u64> = pool.get_all().iter().map(|p| p.id).collect();
    assert_eq!(ids, vec![40, 10, 20, 30]);
}

#[test]
fn pool_lookups_and_exclusions() {
    let players = vec![
        player(1, "alice", 100, 20_000, vec![0]),
        player(2, "bob", 100, 19_000, vec![1]),
        player(3, "alice", 100, 18_000, vec![0, 1]),
    ];
    let pool = PlayerPool::new(players, false).unwrap();

    assert_eq!(pool.get_player(&2).unwrap().id, 2);
    assert!(pool.get_player(&9).is_none());

    let alices = pool.get_players_by_name("alice").unwrap();
    assert_eq!(alices.len(), 2);
    assert!(pool.get_players_by_name("carol").is_none());

    let group0: Vec<u64> = pool.get_group(&0).iter().map(|p| p.id).collect();
    assert_eq!(group0, vec![1, 3]);

    let without2: Vec<u64> = pool.exclude_player(2).iter().map(|p| p.id).collect();
    assert_eq!(without2, vec![1, 3]);

    let without13: Vec<u64> = pool.exclude_players(vec![1, 3]).iter().map(|p| p.id).collect();
    assert_eq!(without13, vec![2]);

    let outside1: Vec<u64> = pool.exclude_group(1).iter().map(|p| p.id).collect();
    assert_eq!(outside1, vec![1]);
}

#[test]
fn pool_deduplicates_category_lists() {
    let players = vec![player(1, "dup cats", 100, 10_000, vec![0, 0, 1])];
    let pool = PlayerPool::new(players, false).unwrap();
    let all = pool.get_all();
    assert_eq!(all[0].categories, vec![0, 1]);
}

#[test]
fn error_messages_are_nonempty() {
    for e in [
        LineupError::MissingInput,
        LineupError::UnresolvableCategory,
        LineupError::MalformedRecord,
        LineupError::NoFeasibleLineup,
        LineupError::DuplicateItemId,
    ] {
        assert!(!e.message().is_empty());
    }
}
