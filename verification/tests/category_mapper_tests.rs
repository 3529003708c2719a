use lineup_builder::category_mapper::{map_categories, NBACategoryMapper, NBAPositions};
use std::collections::HashSet;

#[test]
fn single_each_nba() {
    let mut pos = "PG";
    let mut cats = NBACategoryMapper::map(pos);
    assert!(cats.len() == 1, "should only have one entry");
    assert!(cats.contains(&(NBAPositions::PointGuard as usize)), "should contain item mapping to point guard");

    pos = "SG";
    cats = NBACategoryMapper::map(pos);
    assert!(cats.len() == 1, "should only have one entry");
    assert!(cats.contains(&(NBAPositions::ShootingGuard as usize)), "should contain item mapping to shooting guard");

    pos = "SF";
    cats = NBACategoryMapper::map(pos);
    assert!(cats.len() == 1, "should only have one entry");
    assert!(cats.contains(&(NBAPositions::SmallForward as usize)), "should contain item mapping to small forward");

    pos = "PF";
    cats = NBACategoryMapper::map(pos);
    assert!(cats.len() == 1, "should only have one entry");
    assert!(cats.contains(&(NBAPositions::PowerForward as usize)), "should contain item mapping to power forward");

    pos = "C";
    cats = NBACategoryMapper::map(pos);
    assert!(cats.len() == 1, "should only have one entry");
    assert!(cats.contains(&(NBAPositions::Center as usize)), "should contain item mapping to center");

    pos = "G";
    cats = NBACategoryMapper::map(pos);
    assert!(cats.len() == 1, "should only have one entry");
    assert!(cats.contains(&(NBAPositions::Guard as usize)), "should contain item mapping to guard");

    pos = "F";
    cats = NBACategoryMapper::map(pos);
    assert!(cats.len() == 1, "should only have one entry");
    assert!(cats.contains(&(NBAPositions::Forward as usize)), "should contain item mapping to foward");

    pos = "UTIL";
    cats = NBACategoryMapper::map(pos);
    assert!(cats.len() == 1, "should only have one entry");
    assert!(cats.contains(&(NBAPositions::UTIL as usize)), "should contain item mapping to UTIL");

    pos = "CPT";
    cats = NBACategoryMapper::map(pos);
    assert!(cats.len() == 1, "should only have one entry");
    assert!(cats.contains(&(NBAPositions::Captain as usize)), "should contain item mapping to captain");
}

#[test]
fn multiple_unique_nba() {
    let pos = "PG/G/UTIL/CPT";
    let cats = NBACategoryMapper::map(pos);
    assert!(cats.len() == 4);
    assert!(cats.contains(&(NBAPositions::PointGuard as usize)));
    assert!(cats.contains(&(NBAPositions::Guard as usize)));
    assert!(cats.contains(&(NBAPositions::UTIL as usize)));
    assert!(cats.contains(&(NBAPositions::Captain as usize)));
}

#[test]
fn multiple_repeat_nba() {
    let pos = "PG/PG/UTIL";
    let cats = NBACategoryMapper::map(pos);
    assert!(cats.len() == 2);
    assert!(cats.contains(&(NBAPositions::PointGuard as usize)));
    assert!(cats.contains(&(NBAPositions::UTIL as usize)));
}

fn get_nba_mapper() -> lineup_builder::category_mapper::CategoryMap {
    map_categories("nba").unwrap()
}

#[test]
fn category_mapper_single_each_nba() {
    let mapper = get_nba_mapper();
    let mut pos = "PG";
    let mut cats: u32 = mapper.get(pos).unwrap();
    assert!(cats == (NBAPositions::PointGuard as u32), "should contain item mapping to point guard");

    pos = "SG";
    cats = mapper.get(pos).unwrap();
    assert!(cats == (NBAPositions::ShootingGuard as u32), "should contain item mapping to shooting guard");

    pos = "SF";
    cats = mapper.get(pos).unwrap();
    assert!(cats == (NBAPositions::SmallForward as u32), "should contain item mapping to small forward");

    pos = "PF";
    cats = mapper.get(pos).unwrap();
    assert!(cats == (NBAPositions::PowerForward as u32), "should contain item mapping to power forward");

    pos = "C";
    cats = mapper.get(pos).unwrap();
    assert!(cats == (NBAPositions::Center as u32), "should contain item mapping to center");

    pos = "G";
    cats = mapper.get(pos).unwrap();
    assert!(cats == (NBAPositions::Guard as u32), "should contain item mapping to guard");

    pos = "F";
    cats = mapper.get(pos).unwrap();
    assert!(cats == (NBAPositions::Forward as u32), "should contain item mapping to foward");

    pos = "UTIL";
    cats = mapper.get(pos).unwrap();
    assert!(cats == (NBAPositions::UTIL as u32), "should contain item mapping to UTIL");

    pos = "CPT";
    cats = mapper.get(pos).unwrap();
    assert!(cats == (NBAPositions::Captain as u32), "should contain item mapping to captain");
}

#[test]
fn category_mapper_multiple_unique_nba() {
    let positions: Vec<&str> = "PG/G/UTIL/CPT".split('/').collect();
    let mapper = get_nba_mapper();
    let mut cats: HashSet<u32> = HashSet::new();
    for pos in positions {
        cats.insert(mapper.get(pos).unwrap());
    }
    assert!(cats.contains(&(NBAPositions::PointGuard as u32)));
    assert!(cats.contains(&(NBAPositions::Guard as u32)));
    assert!(cats.contains(&(NBAPositions::UTIL as u32)));
    assert!(cats.contains(&(NBAPositions::Captain as u32)));
}

#[test]
fn category_mapper_multiple_repeat_nba() {
    let positions: Vec<&str> = "PG/PG/UTIL".split('/').collect();
    let mapper = get_nba_mapper();
    let mut cats: HashSet<u32> = HashSet::new();
    for pos in positions {
        cats.insert(mapper.get(pos).unwrap());
    }
    assert!(cats.len() == 2);
    assert!(cats.contains(&(NBAPositions::PointGuard as u32)));
    assert!(cats.contains(&(NBAPositions::UTIL as u32)));
}

#[test]
fn mapper_case_insensitive_sports() {
    assert!(map_categories("NBA").is_some());
    assert!(map_categories("Mlb").is_some());
    assert!(map_categories("nfl").is_some());
    assert!(map_categories("cricket").is_none());
}

#[test]
fn mapper_unknown_token_maps_to_sentinel() {
    let cats = NBACategoryMapper::map("XX");
    assert_eq!(cats, vec![usize::MAX]);
    assert_eq!(NBACategoryMapper::get_pos_value("QB"), usize::MAX);
}

#[test]
fn nfl_mapper_indices() {
    let mapper = map_categories("nfl").unwrap();
    assert_eq!(mapper.get("QB"), Some(0));
    assert_eq!(mapper.get("RB"), Some(1));
    assert_eq!(mapper.get("WR"), Some(2));
    assert_eq!(mapper.get("FLEX"), Some(4));
    assert_eq!(mapper.get("XYZ"), None);
}
