use lineup_builder::category_mapper::map_categories;
use lineup_builder::common::{BuilderState, LineupError};
use lineup_builder::slate_reader::{
    read_dk_row, read_fanduel_rows, split_slash, FanDuelDataRow, SlateDataRow,
};

fn dk_row(id: u64, name: &str, roster_position: &str, salary: u32, points: u64) -> SlateDataRow {
    SlateDataRow {
        position: roster_position.to_string(),
        name_id: name.to_string(),
        name: name.to_string(),
        id,
        roster_position: roster_position.to_string(),
        salary,
        game_info: String::new(),
        teamabbrev: "T".to_string(),
        avg_points_per_game: points,
    }
}

fn fd_row(name: &str, position: &str, salary: u32, points: u64) -> FanDuelDataRow {
    FanDuelDataRow {
        position: position.to_string(),
        nickname: name.to_string(),
        fantasy_points_per_game: points,
        salary,
        game: String::new(),
        team: "T".to_string(),
        opponent: "O".to_string(),
    }
}

#[test]
fn split_slash_tokens() {
    let parts = split_slash("PG/G/UTIL");
    assert_eq!(parts, vec!["PG", "G", "UTIL"]);
    assert_eq!(split_slash("QB"), vec!["QB"]);
    assert_eq!(split_slash(""), vec![""]);
}

#[test]
fn dk_row_resolves_categories() {
    let mapper = map_categories("nfl").unwrap();
    let p = read_dk_row(&dk_row(9, "double", "RB/TE", 6000, 12_000), &mapper).unwrap();
    assert_eq!(p.id, 9);
    let mut cats = p.categories.clone();
    cats.sort();
    assert_eq!(cats, vec![1, 3]);
    assert_eq!(p.price, 6000);
    assert_eq!(p.projected_points, 12_000);
}

#[test]
fn dk_captain_row_is_scaled() {
    let mapper = map_categories("nba").unwrap();
    let p = read_dk_row(&dk_row(4, "captain", "CPT", 4000, 10_000), &mapper).unwrap();
    assert_eq!(p.price, 6000);
    assert_eq!(p.projected_points, 15_000);
    // An odd salary truncates, as the floating-point cast did.
    let q = read_dk_row(&dk_row(5, "odd", "CPT", 4001, 10_001), &mapper).unwrap();
    assert_eq!(q.price, 6001);
    assert_eq!(q.projected_points, 15_001);
}

#[test]
fn dk_row_unknown_label_is_unresolvable() {
    let mapper = map_categories("nba").unwrap();
    assert_eq!(
        read_dk_row(&dk_row(1, "nope", "QB", 100, 10_000), &mapper).err(),
        Some(LineupError::UnresolvableCategory)
    );
}

#[test]
fn fanduel_rows_get_sequential_ids_and_flex() {
    let mapper = map_categories("nfl").unwrap();
    let mut state = BuilderState { player_pool: None, roster_slots: None, salary_cap: None };
    let rows = vec![
        fd_row("runner", "RB", 6000, 15_000),
        fd_row("thrower", "QB", 7000, 18_000),
    ];
    read_fanduel_rows(&rows, &mut state, &mapper).unwrap();
    let pool = state.player_pool.unwrap();
    let runner = pool.get_players_by_name("runner").unwrap();
    assert_eq!(runner[0].id, 1);
    let mut cats = runner[0].categories.clone();
    cats.sort();
    // RB plus the appended FLEX category.
    assert_eq!(cats, vec![1, 4]);
    let thrower = pool.get_players_by_name("thrower").unwrap();
    assert_eq!(thrower[0].id, 2);
    assert_eq!(thrower[0].categories, vec![0]);
}
