use lineup_builder::builder::Builder;
use lineup_builder::common::{
    calculate_category_count, provider_kind, BuilderState, DFSProvider, LineupError, Player,
    RosterSlot,
};
use lineup_builder::category_mapper::map_categories;
use lineup_builder::slate_reader::{SlateDataRow, SlateRows};

#[test]
fn it_works() {
    assert_eq!(2 + 2, 4);
}

fn slot(name: &str, key: &str, count: u32) -> RosterSlot {
    RosterSlot {
        name: name.to_string(),
        key: key.to_string(),
        count,
        salary_multiplier: 1_000,
        point_multiplier: 1_000,
    }
}

#[test]
fn context_category_counts() {
    let slots = vec![slot("captain", "CPT", 1), slot("util", "UTIL", 5)];
    let state = BuilderState {
        player_pool: None,
        roster_slots: Some(slots),
        salary_cap: Some(50_000),
    };
    let mapper = map_categories("nba").unwrap();
    let category_counts = calculate_category_count(&state, &mapper).unwrap();
    let cpt_index = lineup_builder::category_mapper::NBAPositions::Captain as usize;
    let util_index = lineup_builder::category_mapper::NBAPositions::UTIL as usize;
    assert_eq!(category_counts[cpt_index], 1);
    assert_eq!(category_counts[util_index], 5);
    assert_eq!(category_counts.len(), 9);
}

#[test]
fn category_count_errors() {
    let mapper = map_categories("nba").unwrap();
    let unknown = BuilderState {
        player_pool: None,
        roster_slots: Some(vec![slot("qb", "QB", 1)]),
        salary_cap: None,
    };
    assert_eq!(
        calculate_category_count(&unknown, &mapper).err(),
        Some(LineupError::UnresolvableCategory)
    );

    let collision = BuilderState {
        player_pool: None,
        roster_slots: Some(vec![slot("pg one", "PG", 1), slot("pg two", "PG", 2)]),
        salary_cap: None,
    };
    assert_eq!(
        calculate_category_count(&collision, &mapper).err(),
        Some(LineupError::MalformedRecord)
    );

    let empty = BuilderState { player_pool: None, roster_slots: None, salary_cap: None };
    assert_eq!(calculate_category_count(&empty, &mapper).unwrap(), vec![0]);
}

#[test]
fn template_path_assembly() {
    let builder = Builder::new("./resources/game_templates")
        .provider("draft_kings")
        .sport("nba")
        .contest("classic")
        .slate("./data/salaries.csv");
    assert_eq!(
        builder.template_path().unwrap(),
        "./resources/game_templates/draft_kings/nba/classic.json"
    );

    let trailing = Builder::new("./resources/")
        .provider("fanduel")
        .sport("nfl")
        .contest("showdown")
        .slate("s.csv");
    assert_eq!(trailing.template_path().unwrap(), "./resources/fanduel/nfl/showdown.json");
}

#[test]
fn template_path_missing_inputs() {
    let builder = Builder::new("./resources/");
    assert_eq!(builder.template_path().err(), Some(LineupError::MissingInput));
    let no_slate = Builder::new("./resources/").provider("draft_kings").sport("nba").contest(
        "classic",
    );
    assert_eq!(no_slate.template_path().err(), Some(LineupError::MissingInput));
}

fn dk_row(id: u64, name: &str, roster_position: &str, salary: u32, points: u64) -> SlateDataRow {
    SlateDataRow {
        position: roster_position.to_string(),
        name_id: format!("{} ({})", name, id),
        name: name.to_string(),
        id,
        roster_position: roster_position.to_string(),
        salary,
        game_info: String::new(),
        teamabbrev: "T".to_string(),
        avg_points_per_game: points,
    }
}

fn nfl_builder() -> Builder {
    Builder::new("./resources/")
        .provider("draft_kings")
        .sport("nfl")
        .contest("classic")
        .slate("./data/salaries.csv")
}

#[test]
fn build_and_optimize_scenario() {
    let rows = vec![
        dk_row(1, "qb low", "QB", 4500, 18_400),
        dk_row(2, "qb high", "QB", 5200, 24_800),
        dk_row(3, "rb", "RB", 7000, 21_200),
    ];
    let slots = vec![slot("quarterback", "QB", 1), slot("runningback", "RB", 1)];
    let built = nfl_builder().build(12_300, slots, SlateRows::DraftKings(rows)).unwrap();
    let lineups = built.optimize().unwrap();
    assert!(!lineups.is_empty());
    let (points, salary) = lineups[0].expected_result();
    assert_eq!(points, 46_000);
    assert_eq!(salary, 12_200);
    let ids: Vec<u64> = lineups[0].members().iter().map(|p| p.id).collect();
    assert_eq!(ids, vec![2, 3]);
}

#[test]
fn optimize_infeasible_budget_is_recoverable() {
    let rows = vec![
        dk_row(1, "qb low", "QB", 4500, 18_400),
        dk_row(2, "qb high", "QB", 5200, 24_800),
        dk_row(3, "rb", "RB", 7000, 21_200),
    ];
    let slots = vec![slot("quarterback", "QB", 1), slot("runningback", "RB", 1)];
    let built = nfl_builder().build(11_000, slots, SlateRows::DraftKings(rows)).unwrap();
    assert_eq!(built.optimize().err(), Some(LineupError::NoFeasibleLineup));
}

#[test]
fn build_requires_configuration() {
    let rows = SlateRows::DraftKings(vec![]);
    let partial = Builder::new("./r/").provider("draft_kings").sport("nfl");
    assert_eq!(partial.build(1, vec![], rows).err(), Some(LineupError::MissingInput));

    let unknown_sport = Builder::new("./r/")
        .provider("draft_kings")
        .sport("curling")
        .contest("classic")
        .slate("s.csv");
    assert_eq!(
        unknown_sport.build(1, vec![], SlateRows::DraftKings(vec![])).err(),
        Some(LineupError::UnresolvableCategory)
    );
}

#[test]
fn build_rejects_duplicate_row_ids() {
    let rows = vec![
        dk_row(5, "one", "QB", 1000, 10_000),
        dk_row(5, "two", "QB", 1100, 11_000),
    ];
    let slots = vec![slot("quarterback", "QB", 1)];
    assert_eq!(
        nfl_builder().build(5_000, slots, SlateRows::DraftKings(rows)).err(),
        Some(LineupError::DuplicateItemId)
    );
}

#[test]
fn optimize_without_state_is_missing_input() {
    let builder = nfl_builder();
    assert_eq!(builder.optimize().err(), Some(LineupError::MissingInput));
}

#[test]
fn provider_kinds() {
    assert_eq!(provider_kind("draft_kings"), Some(DFSProvider::DraftKings));
    assert_eq!(provider_kind("FanDuel"), Some(DFSProvider::FanDuel));
    assert_eq!(provider_kind("espn"), None);
}

#[test]
fn lineup_totals() {
    let players = vec![
        Player::new(1, "a", 4500, 18_400, vec![0]),
        Player::new(2, "b", 7000, 21_200, vec![1]),
    ];
    let lineup = lineup_builder::builder::Lineup::new(players);
    let (points, salary) = lineup.expected_result();
    assert_eq!(points, 39_600);
    assert_eq!(salary, 11_500);
}
