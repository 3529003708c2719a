//! Normalization of provider slate rows into players. The rows arrive as
//! plain records, one schema per data provider; resolving their position
//! labels and building the catalog happens here.

use vstd::prelude::*;

use crate::category_mapper::{lookup, tokens, CategoryMap};
use crate::common::{contains_u32, str_eq, BuilderState, ItemModel, LineupError, Player};
use crate::lineup_optimizer::models;
use crate::player_pool::{kept_models, scan_err, PlayerPool};
use vstd::string::StrSliceExecFns;

verus! {

/// A slate data source.
pub trait SlateReader {
    /// Reads the source's rows.
    fn read(&self);
}

/// One row of a DraftKings salary slate.
#[derive(Debug, Clone)]
pub struct SlateDataRow {
    pub position: String,
    pub name_id: String,
    pub name: String,
    pub id: u64,
    pub roster_position: String,
    pub salary: u32,
    pub game_info: String,
    pub teamabbrev: String,
    /// Average points per game, in thousandths of a point.
    pub avg_points_per_game: u64,
}

/// One row of a FanDuel salary slate.
#[derive(Debug, Clone)]
pub struct FanDuelDataRow {
    pub position: String,
    pub nickname: String,
    /// Fantasy points per game, in thousandths of a point.
    pub fantasy_points_per_game: u64,
    pub salary: u32,
    pub game: String,
    pub team: String,
    pub opponent: String,
}

/// The rows of one slate, tagged by provider schema.
pub enum SlateRows {
    DraftKings(Vec<SlateDataRow>),
    FanDuel(Vec<FanDuelDataRow>),
}

/// Splits a string on `/`.
#[verifier::loop_isolation(false)]
pub fn split_slash(s: &str) -> (r: Vec<String>)
    ensures
        r@.map_values(|t: String| t@) == tokens(s@),
{
    let ghost ts = tokens(s@);
    let len = s.unicode_len();
    let mut result: Vec<String> = Vec::new();
    let mut start: usize = 0;
    let mut i: usize = 0;
    let ghost k: int = 0;
    proof {
        assert(s@.subrange(0, s@.len() as int) =~= s@);
        assert(ts.skip(0) =~= ts);
        assert(result@.map_values(|t: String| t@) =~= ts.take(0));
    }
    while i < len
        invariant
            0 <= start as int <= i as int <= len as int,
            len == s@.len(),
            ts == tokens(s@),
            forall|j: int| start <= j < i ==> s@[j] != '/',
            0 <= k <= ts.len(),
            tokens(s@.subrange(start as int, len as int)) == ts.skip(k),
            result@.map_values(|t: String| t@) == ts.take(k),
            result@.len() == k,
        decreases len - i,
    {
        if s.get_char(i) == '/' {
            let token = s.substring_char(start, i);
            proof {
                crate::category_mapper::lemma_tokens_split(s@, start as int, i as int);
                assert(ts.skip(k)[0] == s@.subrange(start as int, i as int));
                assert(ts.skip(k)[0] == ts[k + 0]);
                assert(ts[k] == token@);
                assert(ts.skip(k).drop_first() =~= ts.skip(k + 1));
            }
            result.push(token.to_owned());
            proof {
                assert(result@.map_values(|t: String| t@) =~= ts.take(k + 1));
            }
            start = i + 1;
            proof {
                k = k + 1;
            }
        }
        i += 1;
    }
    let token = s.substring_char(start, len);
    proof {
        crate::category_mapper::lemma_tokens_split(s@, start as int, len as int);
        assert(ts.skip(k) =~= seq![s@.subrange(start as int, len as int)]);
        assert(ts.skip(k)[0] == ts[k + 0]);
        assert(ts[k] == token@);
        assert(k + 1 == ts.len());
    }
    result.push(token.to_owned());
    proof {
        assert(result@.map_values(|t: String| t@) =~= ts.take(k + 1));
        assert(ts.take(k + 1) =~= ts);
    }
    result
}

/// Whether some key in the list is one of the FanDuel flex positions.
pub open spec fn flex_needed(keys: Seq<Seq<char>>) -> bool {
    exists|w: int|
        0 <= w < keys.len() && ((#[trigger] keys[w]) == "RB"@ || keys[w] == "WR"@ || keys[w]
            == "TE"@)
}

/// Appends the FanDuel flex key when any of the flex-eligible position keys
/// is present.
pub fn append_flex_for_fanduel(category_keys: &mut Vec<String>)
    ensures
        flex_needed(old(category_keys)@.map_values(|t: String| t@)) ==> final(category_keys)@
            =~= old(category_keys)@.push(final(category_keys)@.last())
            && final(category_keys)@.last()@ == "FLEX"@,
        !flex_needed(old(category_keys)@.map_values(|t: String| t@)) ==> final(category_keys)@
            == old(category_keys)@,
{
    let ghost keys0 = category_keys@;
    let mut found = false;
    let mut w: usize = 0;
    while w < category_keys.len()
        invariant
            w <= keys0.len(),
            category_keys@ == keys0,
            found <==> exists|ww: int|
                0 <= ww < w && ((#[trigger] keys0[ww])@ == "RB"@ || keys0[ww]@ == "WR"@
                    || keys0[ww]@ == "TE"@),
        decreases keys0.len() - w,
    {
        let k = &category_keys[w];
        if str_eq(k.as_str(), "RB") || str_eq(k.as_str(), "WR") || str_eq(k.as_str(), "TE") {
            found = true;
        }
        w += 1;
    }
    proof {
        let mapped = keys0.map_values(|t: String| t@);
        assert(found == flex_needed(mapped)) by {
            if found {
                let ww = choose|ww: int|
                    0 <= ww < keys0.len() && ((#[trigger] keys0[ww])@ == "RB"@ || keys0[ww]@
                        == "WR"@ || keys0[ww]@ == "TE"@);
                assert(mapped[ww] == keys0[ww]@);
            }
            if flex_needed(mapped) {
                let ww = choose|ww: int|
                    0 <= ww < mapped.len() && ((#[trigger] mapped[ww]) == "RB"@ || mapped[ww]
                        == "WR"@ || mapped[ww] == "TE"@);
                assert(keys0[ww]@ == mapped[ww]);
            }
        }
    }
    if found {
        category_keys.push("FLEX".to_owned());
    }
}

/// The category ids a key list resolves to under a mapping.
pub open spec fn keys_cat_set(m: Seq<Seq<char>>, keys: Seq<Seq<char>>) -> Set<int> {
    Set::new(
        |c: int| exists|w: int| 0 <= w < keys.len() && lookup(m, #[trigger] keys[w]) == Some(c),
    )
}

/// Whether every key in the list resolves under the mapping.
pub open spec fn keys_resolvable(m: Seq<Seq<char>>, keys: Seq<Seq<char>>) -> bool {
    forall|w: int| 0 <= w < keys.len() ==> lookup(m, #[trigger] keys[w]) is Some
}

/// Resolves each key through the map, collecting the distinct category ids.
#[verifier::loop_isolation(false)]
fn resolve_keys(keys: &Vec<String>, category_map: &CategoryMap) -> (r: Result<
    Vec<u32>,
    LineupError,
>)
    ensures
        ({
            let km = keys@.map_values(|t: String| t@);
            match r {
                Ok(cats) => keys_resolvable(category_map@, km) && crate::common::cat_set(cats@)
                    == keys_cat_set(category_map@, km) && crate::lineup_optimizer::distinct_u32s(
                    cats@,
                ),
                Err(e) => e == LineupError::UnresolvableCategory && !keys_resolvable(
                    category_map@,
                    km,
                ),
            }
        }),
{
    let ghost m = category_map@;
    let ghost km = keys@.map_values(|t: String| t@);
    let map_len = category_map.len();
    let mut cats: Vec<u32> = Vec::new();
    let mut w: usize = 0;
    while w < keys.len()
        invariant
            w <= km.len(),
            km == keys@.map_values(|t: String| t@),
            m == category_map@,
            forall|ww: int| 0 <= ww < w ==> lookup(m, #[trigger] km[ww]) is Some,
            crate::lineup_optimizer::distinct_u32s(cats@),
            forall|x: u32| cats@.contains(x) <==> exists|ww: int|
                0 <= ww < w && lookup(m, #[trigger] km[ww]) == Some(x as int),
        decreases km.len() - w,
    {
        proof {
            assert(km[w as int] == keys@[w as int]@);
        }
        match category_map.get(keys[w].as_str()) {
            None => {
                return Err(LineupError::UnresolvableCategory);
            },
            Some(c) => {
                let ghost cats_old = cats@;
                if !contains_u32(&cats, c) {
                    cats.push(c);
                }
                proof {
                    assert forall|x: u32|
                        cats@.contains(x) <==> exists|ww: int|
                            0 <= ww < w + 1 && lookup(m, #[trigger] km[ww]) == Some(
                                x as int,
                            ) by {
                        if cats@.contains(x) {
                            let u = choose|u: int| 0 <= u < cats@.len() && cats@[u] == x;
                            if u < cats_old.len() {
                                assert(cats_old[u] == x);
                                assert(cats_old.contains(x));
                            } else {
                                assert(x == c);
                                assert(lookup(m, km[w as int]) == Some(x as int));
                            }
                        }
                        if exists|ww: int|
                            0 <= ww < w + 1 && lookup(m, #[trigger] km[ww]) == Some(x as int) {
                            let ww = choose|ww: int|
                                0 <= ww < w + 1 && lookup(m, #[trigger] km[ww]) == Some(
                                    x as int,
                                );
                            if ww < w {
                                assert(cats_old.contains(x));
                                let u = choose|u: int|
                                    0 <= u < cats_old.len() && cats_old[u] == x;
                                assert(cats@[u] == x);
                            } else {
                                assert(x == c) by {
                                    assert(lookup(m, km[w as int]) == Some(c as int));
                                }
                                if cats_old.contains(c) {
                                    let u = choose|u: int|
                                        0 <= u < cats_old.len() && cats_old[u] == c;
                                    assert(cats@[u] == c);
                                } else {
                                    assert(cats@.last() == c);
                                }
                            }
                        }
                    }
                    if !cats_old.contains(c) {
                        assert forall|a: int, b: int|
                            0 <= a < b < cats@.len() implies cats@[a] != cats@[b] by {
                            if b == cats@.len() - 1 {
                                assert(cats@[a] == cats_old[a]);
                                assert(cats_old.contains(cats_old[a]));
                            } else {
                                assert(cats@[a] == cats_old[a] && cats@[b] == cats_old[b]);
                            }
                        }
                    }
                }
            },
        }
        w += 1;
    }
    proof {
        assert(crate::common::cat_set(cats@) =~= keys_cat_set(m, km)) by {
            assert forall|c: int|
                crate::common::cat_set(cats@).contains(c) == keys_cat_set(m, km).contains(
                    c,
                ) by {
                if crate::common::cat_set(cats@).contains(c) {
                    let u = choose|u: int|
                        0 <= u < cats@.len() && (#[trigger] cats@[u]) as int == c;
                    assert(cats@.contains(cats@[u]));
                }
                if keys_cat_set(m, km).contains(c) {
                    let ww = choose|ww: int|
                        0 <= ww < km.len() && lookup(m, #[trigger] km[ww]) == Some(c);
                    crate::category_mapper::lemma_lookup_bound(m, km[ww], 0, c);
                    assert(0 <= c < m.len());
                    assert(lookup(m, km[ww]) == Some((c as u32) as int));
                    assert(cats@.contains(c as u32));
                    let u = choose|u: int| 0 <= u < cats@.len() && cats@[u] == c as u32;
                    assert(cats@[u] as int == c);
                }
            }
        }
    }
    Ok(cats)
}

/// A value scaled by one and a half, truncated, saturating at the type's
/// maximum; the captain multiplier.
pub open spec fn scale_up_u32(x: int) -> int {
    if x + x / 2 > 0xFFFF_FFFF {
        0xFFFF_FFFF
    } else {
        x + x / 2
    }
}

/// The captain multiplier for fixed-point points.
pub open spec fn scale_up_u64(x: int) -> int {
    if x + x / 2 > 0xFFFF_FFFF_FFFF_FFFF {
        0xFFFF_FFFF_FFFF_FFFF
    } else {
        x + x / 2
    }
}

/// The player a DraftKings row normalizes to: position labels resolved
/// through the mapping, and the captain slot's price and points scaled by
/// one and a half.
pub open spec fn dk_model(m: Seq<Seq<char>>, row: SlateDataRow) -> ItemModel {
    let cpt = row.roster_position@ == "CPT"@;
    ItemModel {
        id: row.id,
        name: row.name@,
        team: row.teamabbrev@,
        position: row.position@,
        cats: keys_cat_set(m, tokens(row.roster_position@)),
        price: if cpt {
            scale_up_u32(row.salary as int)
        } else {
            row.salary as int
        },
        points: if cpt {
            scale_up_u64(row.avg_points_per_game as int)
        } else {
            row.avg_points_per_game as int
        },
    }
}

/// Normalizes one DraftKings row into a player.
pub fn read_dk_row(record: &SlateDataRow, category_map: &CategoryMap) -> (r: Result<
    Player,
    LineupError,
>)
    ensures
        ({
            match r {
                Ok(p) => keys_resolvable(category_map@, tokens(record.roster_position@)) && p@
                    == dk_model(category_map@, *record) && crate::lineup_optimizer::distinct_u32s(
                    p.categories@,
                ),
                Err(e) => e == LineupError::UnresolvableCategory && !keys_resolvable(
                    category_map@,
                    tokens(record.roster_position@),
                ),
            }
        }),
{
    let keys = split_slash(record.roster_position.as_str());
    let cats = match resolve_keys(&keys, category_map) {
        Ok(c) => c,
        Err(e) => {
            return Err(e);
        },
    };
    let mut price = record.salary;
    let mut points = record.avg_points_per_game;
    if str_eq(record.roster_position.as_str(), "CPT") {
        let half32 = price / 2;
        price = if price <= u32::MAX - half32 {
            price + half32
        } else {
            u32::MAX
        };
        let half64 = points / 2;
        points = if points <= u64::MAX - half64 {
            points + half64
        } else {
            u64::MAX
        };
    }
    let p = Player {
        id: record.id,
        name: record.name.clone(),
        team: record.teamabbrev.clone(),
        position: record.position.clone(),
        categories: cats,
        price,
        projected_points: points,
    };
    Ok(p)
}

/// The player a FanDuel row normalizes to under a given synthetic id: its
/// position labels, extended by the flex label when a flex-eligible position
/// is present, resolved through the mapping.
pub open spec fn fd_model(m: Seq<Seq<char>>, row: FanDuelDataRow, id: u64) -> ItemModel {
    let keys = tokens(row.position@);
    let all_keys = if flex_needed(keys) {
        keys.push("FLEX"@)
    } else {
        keys
    };
    ItemModel {
        id: id,
        name: row.nickname@,
        team: row.team@,
        position: row.position@,
        cats: keys_cat_set(m, all_keys),
        price: row.salary as int,
        points: row.fantasy_points_per_game as int,
    }
}

/// Normalizes one FanDuel row into a player, under a synthetic sequential
/// id.
pub fn read_fanduel_row(record: &FanDuelDataRow, id: u64, category_map: &CategoryMap) -> (r:
    Result<Player, LineupError>)
    ensures
        ({
            let keys = tokens(record.position@);
            let all_keys = if flex_needed(keys) {
                keys.push("FLEX"@)
            } else {
                keys
            };
            match r {
                Ok(p) => keys_resolvable(category_map@, all_keys) && p@ == fd_model(
                    category_map@,
                    *record,
                    id,
                ) && crate::lineup_optimizer::distinct_u32s(p.categories@),
                Err(e) => e == LineupError::UnresolvableCategory && !keys_resolvable(
                    category_map@,
                    all_keys,
                ),
            }
        }),
{
    let mut keys = split_slash(record.position.as_str());
    append_flex_for_fanduel(&mut keys);
    proof {
        let base = tokens(record.position@);
        if flex_needed(base) {
            assert(keys@.map_values(|t: String| t@) =~= base.push("FLEX"@));
        }
    }
    let cats = match resolve_keys(&keys, category_map) {
        Ok(c) => c,
        Err(e) => {
            return Err(e);
        },
    };
    let p = Player {
        id,
        name: record.nickname.clone(),
        team: record.team.clone(),
        position: record.position.clone(),
        categories: cats,
        price: record.salary,
        projected_points: record.fantasy_points_per_game,
    };
    Ok(p)
}

/// The normalized models of a DraftKings slate, in row order.
pub open spec fn dk_models(m: Seq<Seq<char>>, rows: Seq<SlateDataRow>) -> Seq<ItemModel> {
    rows.map_values(|row: SlateDataRow| dk_model(m, row))
}

/// Every row of a DraftKings slate resolves under the mapping.
pub open spec fn dk_rows_resolvable(m: Seq<Seq<char>>, rows: Seq<SlateDataRow>) -> bool {
    forall|i: int| 0 <= i < rows.len() ==> keys_resolvable(
        m,
        tokens((#[trigger] rows[i]).roster_position@),
    )
}

/// The keys a FanDuel row resolves, flex included.
pub open spec fn fd_all_keys(row: FanDuelDataRow) -> Seq<Seq<char>> {
    let keys = tokens(row.position@);
    if flex_needed(keys) {
        keys.push("FLEX"@)
    } else {
        keys
    }
}

/// The normalized models of a FanDuel slate, in row order, under synthetic
/// ids counted from one.
pub open spec fn fd_models(m: Seq<Seq<char>>, rows: Seq<FanDuelDataRow>) -> Seq<ItemModel>
    decreases rows.len(),
{
    if rows.len() == 0 {
        Seq::empty()
    } else {
        fd_models(m, rows.drop_last()).push(fd_model(m, rows.last(), rows.len() as u64))
    }
}

/// Every row of a FanDuel slate resolves under the mapping.
pub open spec fn fd_rows_resolvable(m: Seq<Seq<char>>, rows: Seq<FanDuelDataRow>) -> bool {
    forall|i: int| 0 <= i < rows.len() ==> keys_resolvable(m, fd_all_keys(#[trigger] rows[i]))
}

/// What a freshly built catalog satisfies relative to the normalized models
/// of its slate.
pub open spec fn pool_from(pool: PlayerPool, mm: Seq<ItemModel>) -> bool {
    &&& pool@.to_multiset() == kept_models(mm, true).to_multiset()
    &&& pool@.len() == kept_models(mm, true).len()
    &&& crate::player_pool::pool_sorted(pool@)
    &&& crate::player_pool::distinct_ids(pool@)
}

/// Normalizes a DraftKings slate and installs the resulting catalog.
#[verifier::loop_isolation(false)]
pub fn read_dk_rows(
    rows: &Vec<SlateDataRow>,
    builder_state: &mut BuilderState,
    category_map: &CategoryMap,
) -> (r: Result<(), LineupError>)
    requires
        rows@.len() <= crate::common::MAX_POOL_SIZE,
    ensures
        final(builder_state).roster_slots == old(builder_state).roster_slots,
        final(builder_state).salary_cap == old(builder_state).salary_cap,
        ({
            let mm = dk_models(category_map@, rows@);
            match r {
                Ok(()) => dk_rows_resolvable(category_map@, rows@) && scan_err(mm, true) is None
                    && (final(builder_state).player_pool matches Some(pool) && pool_from(
                    pool,
                    mm,
                )),
                Err(e) => final(builder_state).player_pool == old(builder_state).player_pool && (
                (e == LineupError::UnresolvableCategory && !dk_rows_resolvable(
                    category_map@,
                    rows@,
                )) || (dk_rows_resolvable(category_map@, rows@) && scan_err(mm, true) == Some(
                    e,
                ))),
            }
        }),
{
    let ghost m = category_map@;
    let ghost mm = dk_models(m, rows@);
    let mut players: Vec<Player> = Vec::new();
    let mut j: usize = 0;
    while j < rows.len()
        invariant
            j <= rows@.len(),
            mm == dk_models(m, rows@),
            players@.len() == j,
            forall|i: int| 0 <= i < j ==> (#[trigger] players@[i])@ == mm[i],
            forall|i: int| 0 <= i < j ==> crate::lineup_optimizer::distinct_u32s(
                (#[trigger] players@[i]).categories@,
            ),
            forall|i: int| 0 <= i < j ==> keys_resolvable(
                m,
                tokens((#[trigger] rows@[i]).roster_position@),
            ),
            builder_state == old(builder_state),
        decreases rows@.len() - j,
    {
        match read_dk_row(&rows[j], category_map) {
            Ok(p) => {
                proof {
                    assert(mm[j as int] == dk_model(m, rows@[j as int]));
                }
                players.push(p);
            },
            Err(e) => {
                return Err(e);
            },
        }
        j += 1;
    }
    proof {
        assert(models(players@) =~= mm);
    }
    match PlayerPool::new(players, true) {
        Ok(pool) => {
            builder_state.player_pool = Some(pool);
            Ok(())
        },
        Err(e) => Err(e),
    }
}

/// Normalizes a FanDuel slate and installs the resulting catalog. Rows get
/// synthetic ids counted from one, in row order.
#[verifier::loop_isolation(false)]
pub fn read_fanduel_rows(
    rows: &Vec<FanDuelDataRow>,
    builder_state: &mut BuilderState,
    category_map: &CategoryMap,
) -> (r: Result<(), LineupError>)
    requires
        rows@.len() <= crate::common::MAX_POOL_SIZE,
    ensures
        final(builder_state).roster_slots == old(builder_state).roster_slots,
        final(builder_state).salary_cap == old(builder_state).salary_cap,
        ({
            let mm = fd_models(category_map@, rows@);
            match r {
                Ok(()) => fd_rows_resolvable(category_map@, rows@) && scan_err(mm, true) is None
                    && (final(builder_state).player_pool matches Some(pool) && pool_from(
                    pool,
                    mm,
                )),
                Err(e) => final(builder_state).player_pool == old(builder_state).player_pool && (
                (e == LineupError::UnresolvableCategory && !fd_rows_resolvable(
                    category_map@,
                    rows@,
                )) || (fd_rows_resolvable(category_map@, rows@) && scan_err(mm, true) == Some(
                    e,
                ))),
            }
        }),
{
    let ghost m = category_map@;
    let ghost mm = fd_models(m, rows@);
    let mut players: Vec<Player> = Vec::new();
    let mut id: u64 = 1;
    let mut j: usize = 0;
    while j < rows.len()
        invariant
            j <= rows@.len(),
            rows@.len() <= crate::common::MAX_POOL_SIZE,
            mm == fd_models(m, rows@),
            id as int == j + 1,
            players@.len() == j,
            forall|i: int| 0 <= i < j ==> (#[trigger] players@[i])@ == fd_models(
                m,
                rows@.take(i + 1),
            ).last(),
            forall|i: int| 0 <= i < j ==> crate::lineup_optimizer::distinct_u32s(
                (#[trigger] players@[i]).categories@,
            ),
            forall|i: int| 0 <= i < j ==> keys_resolvable(m, fd_all_keys(#[trigger] rows@[i])),
            builder_state == old(builder_state),
        decreases rows@.len() - j,
    {
        match read_fanduel_row(&rows[j], id, category_map) {
            Ok(p) => {
                proof {
                    assert(rows@.take(j + 1int).drop_last() =~= rows@.take(j as int));
                    assert(rows@.take(j + 1int).last() == rows@[j as int]);
                    assert(fd_models(m, rows@.take(j + 1int)).last() == fd_model(
                        m,
                        rows@[j as int],
                        (j + 1) as u64,
                    ));
                }
                players.push(p);
            },
            Err(e) => {
                return Err(e);
            },
        }
        id += 1;
        j += 1;
    }
    proof {
        lemma_fd_models_index(m, rows@);
        assert(models(players@) =~= mm) by {
            assert forall|i: int| 0 <= i < j implies models(players@)[i] == mm[i] by {
                assert(rows@.take(i + 1).drop_last() =~= rows@.take(i));
                assert(rows@.take(i + 1).last() == rows@[i]);
                assert(fd_models(m, rows@.take(i + 1)).last() == fd_model(
                    m,
                    rows@[i],
                    (i + 1) as u64,
                ));
            }
        }
    }
    match PlayerPool::new(players, true) {
        Ok(pool) => {
            builder_state.player_pool = Some(pool);
            Ok(())
        },
        Err(e) => Err(e),
    }
}

/// Each FanDuel model is its row's model under id `i + 1`.
proof fn lemma_fd_models_index(m: Seq<Seq<char>>, rows: Seq<FanDuelDataRow>)
    ensures
        fd_models(m, rows).len() == rows.len(),
        forall|i: int| 0 <= i < rows.len() ==> #[trigger] fd_models(m, rows)[i] == fd_model(
            m,
            rows[i],
            (i + 1) as u64,
        ),
    decreases rows.len(),
{
    if rows.len() > 0 {
        lemma_fd_models_index(m, rows.drop_last());
        assert forall|i: int| 0 <= i < rows.len() implies #[trigger] fd_models(m, rows)[i]
            == fd_model(m, rows[i], (i + 1) as u64) by {
            if i < rows.len() - 1 {
                assert(fd_models(m, rows)[i] == fd_models(m, rows.drop_last())[i]);
                assert(rows.drop_last()[i] == rows[i]);
            }
        }
    }
}

/// Reads a slate's rows into the builder state's catalog, dispatching on
/// the provider schema the rows carry.
pub fn read_slate(
    rows: SlateRows,
    builder_state: &mut BuilderState,
    category_map: &CategoryMap,
) -> (r: Result<(), LineupError>)
    requires
        (rows matches SlateRows::DraftKings(v) ==> v@.len() <= crate::common::MAX_POOL_SIZE),
        (rows matches SlateRows::FanDuel(v) ==> v@.len() <= crate::common::MAX_POOL_SIZE),
    ensures
        final(builder_state).roster_slots == old(builder_state).roster_slots,
        final(builder_state).salary_cap == old(builder_state).salary_cap,
        ({
            match rows {
                SlateRows::DraftKings(v) => {
                    let mm = dk_models(category_map@, v@);
                    match r {
                        Ok(()) => dk_rows_resolvable(category_map@, v@) && scan_err(mm, true)
                            is None && (final(builder_state).player_pool matches Some(pool)
                            && pool_from(pool, mm)),
                        Err(e) => final(builder_state).player_pool == old(
                            builder_state,
                        ).player_pool && ((e == LineupError::UnresolvableCategory
                            && !dk_rows_resolvable(category_map@, v@)) || (dk_rows_resolvable(
                            category_map@,
                            v@,
                        ) && scan_err(mm, true) == Some(e))),
                    }
                },
                SlateRows::FanDuel(v) => {
                    let mm = fd_models(category_map@, v@);
                    match r {
                        Ok(()) => fd_rows_resolvable(category_map@, v@) && scan_err(mm, true)
                            is None && (final(builder_state).player_pool matches Some(pool)
                            && pool_from(pool, mm)),
                        Err(e) => final(builder_state).player_pool == old(
                            builder_state,
                        ).player_pool && ((e == LineupError::UnresolvableCategory
                            && !fd_rows_resolvable(category_map@, v@)) || (fd_rows_resolvable(
                            category_map@,
                            v@,
                        ) && scan_err(mm, true) == Some(e))),
                    }
                },
            }
        }),
{
    match rows {
        SlateRows::DraftKings(v) => read_dk_rows(&v, builder_state, category_map),
        SlateRows::FanDuel(v) => read_fanduel_rows(&v, builder_state, category_map),
    }
}

} // verus!
