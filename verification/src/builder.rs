//! The fluent configuration object that wires a run together, and the
//! lineups it produces.

use vstd::prelude::*;

use crate::common::{
    clone_player, BuilderState, ItemModel, LineupError, Player, RosterSlot, MAX_POOL_SIZE,
    MAX_PROJECTED_POINTS,
};
use crate::lineup_optimizer::models;
use vstd::string::StrSliceExecFns;
use vstd::string::StringExecFns;

verus! {

/// The total price of a lineup's items.
pub open spec fn seq_price_sum(s: Seq<ItemModel>) -> int
    decreases s.len(),
{
    if s.len() == 0 {
        0
    } else {
        seq_price_sum(s.drop_last()) + s.last().price
    }
}

/// The total projected points of a lineup's items.
pub open spec fn seq_points_sum(s: Seq<ItemModel>) -> int
    decreases s.len(),
{
    if s.len() == 0 {
        0
    } else {
        seq_points_sum(s.drop_last()) + s.last().points
    }
}

/// How many of a lineup's items belong to category `c`.
pub open spec fn seq_cat_count(s: Seq<ItemModel>, c: int) -> int
    decreases s.len(),
{
    if s.len() == 0 {
        0
    } else {
        seq_cat_count(s.drop_last(), c) + if s.last().cats.contains(c) {
            1int
        } else {
            0int
        }
    }
}

/// A complete selection of items, with derived totals.
pub struct Lineup {
    player_list: Vec<Player>,
}

impl View for Lineup {
    type V = Seq<ItemModel>;

    closed spec fn view(&self) -> Seq<ItemModel> {
        models(self.player_list@)
    }
}

impl Lineup {
    /// The lineup is small enough that its totals fit the machine words
    /// they are summed in.
    pub open spec fn wf(self) -> bool {
        &&& self@.len() <= MAX_POOL_SIZE
        &&& forall|i: int| 0 <= i < self@.len() ==> 0 <= (#[trigger] self@[i]).points
            <= MAX_PROJECTED_POINTS
        &&& forall|i: int| 0 <= i < self@.len() ==> 0 <= (#[trigger] self@[i]).price < 0x1_0000_0000
    }

    /// Wraps a list of players as a lineup, in the given order.
    pub fn new(player_list: Vec<Player>) -> (r: Lineup)
        ensures
            r@ == models(player_list@),
    {
        Lineup { player_list }
    }

    /// The lineup's members, in presentation order.
    pub fn members(&self) -> (r: &Vec<Player>)
        ensures
            models(r@) == self@,
    {
        &self.player_list
    }

    /// The lineup's total projected points and total salary.
    pub fn expected_result(&self) -> (r: (u64, u64))
        requires
            self.wf(),
        ensures
            r.0 as int == seq_points_sum(self@),
            r.1 as int == seq_price_sum(self@),
    {
        let mut point_total: u64 = 0;
        let mut salary_total: u64 = 0;
        let mut i: usize = 0;
        while i < self.player_list.len()
            invariant
                self.wf(),
                i <= self.player_list@.len(),
                self@.len() == self.player_list@.len(),
                point_total as int == seq_points_sum(self@.take(i as int)),
                salary_total as int == seq_price_sum(self@.take(i as int)),
                point_total as int <= i * MAX_PROJECTED_POINTS,
                salary_total as int <= i * 0x1_0000_0000,
            decreases self.player_list@.len() - i,
        {
            proof {
                assert(self@.take(i + 1int).drop_last() =~= self@.take(i as int));
                assert(self@.take(i + 1int).last() == self@[i as int]);
                assert(self@[i as int] == self.player_list@[i as int]@);
                assert(i * MAX_PROJECTED_POINTS + MAX_PROJECTED_POINTS <= MAX_POOL_SIZE
                    * MAX_PROJECTED_POINTS) by (nonlinear_arith)
                    requires
                        i < MAX_POOL_SIZE,
                ;
                assert(MAX_POOL_SIZE * MAX_PROJECTED_POINTS == 1_000_000_000_000_000)
                    by (nonlinear_arith);
                assert(i * 0x1_0000_0000 + 0x1_0000_0000 <= MAX_POOL_SIZE * 0x1_0000_0000)
                    by (nonlinear_arith)
                    requires
                        i < MAX_POOL_SIZE,
                ;
                assert(MAX_POOL_SIZE * 0x1_0000_0000 == 4_294_967_296_000_000)
                    by (nonlinear_arith);
            }
            point_total = point_total + self.player_list[i].projected_points;
            salary_total = salary_total + self.player_list[i].price as u64;
            i += 1;
        }
        proof {
            assert(self@.take(self@.len() as int) =~= self@);
        }
        (point_total, salary_total)
    }
}

/// The fluent configuration object: collects the provider, sport, contest
/// type and slate location, then builds the state a search runs on.
pub struct Builder {
    pub resource_path: String,
    pub dfs_provider: Option<String>,
    pub sport: Option<String>,
    pub contest_type: Option<String>,
    pub slate_path: Option<String>,
    pub builder_state: Option<BuilderState>,
}

impl Builder {
    /// Starts a builder rooted at the given resource directory.
    pub fn new(resource_path: &str) -> (r: Builder)
        ensures
            r.resource_path@ == resource_path@,
            r.dfs_provider is None,
            r.sport is None,
            r.contest_type is None,
            r.slate_path is None,
            r.builder_state is None,
    {
        Builder {
            resource_path: resource_path.to_owned(),
            dfs_provider: None,
            sport: None,
            contest_type: None,
            slate_path: None,
            builder_state: None,
        }
    }

    /// Sets the data provider.
    pub fn provider(self, provider: &str) -> (r: Builder)
        ensures
            r.dfs_provider matches Some(p) && p@ == provider@,
            r.resource_path == self.resource_path,
            r.sport == self.sport,
            r.contest_type == self.contest_type,
            r.slate_path == self.slate_path,
            r.builder_state is None <==> self.builder_state is None,
    {
        Builder { dfs_provider: Some(provider.to_owned()), ..self }
    }

    /// Sets the sport.
    pub fn sport(self, sport: &str) -> (r: Builder)
        ensures
            r.sport matches Some(p) && p@ == sport@,
            r.resource_path == self.resource_path,
            r.dfs_provider == self.dfs_provider,
            r.contest_type == self.contest_type,
            r.slate_path == self.slate_path,
            r.builder_state is None <==> self.builder_state is None,
    {
        Builder { sport: Some(sport.to_owned()), ..self }
    }

    /// Sets the contest type.
    pub fn contest(self, contest: &str) -> (r: Builder)
        ensures
            r.contest_type matches Some(p) && p@ == contest@,
            r.resource_path == self.resource_path,
            r.dfs_provider == self.dfs_provider,
            r.sport == self.sport,
            r.slate_path == self.slate_path,
            r.builder_state is None <==> self.builder_state is None,
    {
        Builder { contest_type: Some(contest.to_owned()), ..self }
    }

    /// Sets the path to the slate data.
    pub fn slate(self, slate_path: &str) -> (r: Builder)
        ensures
            r.slate_path matches Some(p) && p@ == slate_path@,
            r.resource_path == self.resource_path,
            r.dfs_provider == self.dfs_provider,
            r.sport == self.sport,
            r.contest_type == self.contest_type,
            r.builder_state is None <==> self.builder_state is None,
    {
        Builder { slate_path: Some(slate_path.to_owned()), ..self }
    }

    /// The path of the contest template this configuration names:
    /// `<resource>/<provider>/<sport>/<contest>.json`, with a separator
    /// appended to the resource root only when it lacks one. Each missing
    /// configuration field is reported in the order the path is assembled.
    pub fn template_path(&self) -> (r: Result<String, LineupError>)
        ensures
            ({
                match r {
                    Ok(p) => self.dfs_provider matches Some(_) && self.sport matches Some(_)
                        && self.contest_type matches Some(_) && self.slate_path matches Some(_)
                        && p@ == template_path_spec(
                        self.resource_path@,
                        self.dfs_provider->Some_0@,
                        self.sport->Some_0@,
                        self.contest_type->Some_0@,
                    ),
                    Err(e) => e == LineupError::MissingInput && (self.dfs_provider is None
                        || self.sport is None || self.contest_type is None || self.slate_path
                        is None),
                }
            }),
    {
        let mut path = String::new();
        path.append(self.resource_path.as_str());
        let ends_slash = ends_with_slash(&self.resource_path);
        if !ends_slash {
            path.append("/");
        }
        let provider = match &self.dfs_provider {
            Some(p) => p,
            None => {
                return Err(LineupError::MissingInput);
            },
        };
        path.append(provider.as_str());
        path.append("/");
        let sport = match &self.sport {
            Some(s) => s,
            None => {
                return Err(LineupError::MissingInput);
            },
        };
        path.append(sport.as_str());
        path.append("/");
        let contest = match &self.contest_type {
            Some(c) => c,
            None => {
                return Err(LineupError::MissingInput);
            },
        };
        path.append(contest.as_str());
        path.append(".json");
        if self.slate_path.is_none() {
            return Err(LineupError::MissingInput);
        }
        proof {
            reveal_strlit("/");
            reveal_strlit(".json");
            assert(path@ =~= template_path_spec(
                self.resource_path@,
                self.dfs_provider->Some_0@,
                self.sport->Some_0@,
                self.contest_type->Some_0@,
            ));
        }
        Ok(path)
    }
}

/// The contest template path for a configuration: the resource root (given a
/// trailing separator when it lacks one), then provider, sport and contest
/// type, ending in `.json`.
pub open spec fn template_path_spec(
    resource: Seq<char>,
    provider: Seq<char>,
    sport: Seq<char>,
    contest: Seq<char>,
) -> Seq<char> {
    let base = if resource.len() > 0 && resource.last() == '/' {
        resource
    } else {
        resource + seq!['/']
    };
    base + provider + seq!['/'] + sport + seq!['/'] + contest + ".json"@
}

/// Whether the string ends in a path separator.
fn ends_with_slash(s: &String) -> (r: bool)
    ensures
        r == (s@.len() > 0 && s@.last() == '/'),
{
    let n = s.as_str().unicode_len();
    if n == 0 {
        false
    } else {
        s.as_str().get_char(n - 1) == '/'
    }
}

/// The roster slots a state holds, or nothing.
pub open spec fn slots_view(st: BuilderState) -> Seq<RosterSlot> {
    match st.roster_slots {
        Option::Some(s) => s@,
        Option::None => Seq::empty(),
    }
}

/// The top-level search result a gathered state stands for, under a label
/// mapping: the catalog in its frozen order, the salary cap, and the
/// constraint vector derived from the roster slots.
pub open spec fn optimize_top(st: BuilderState, m: Seq<Seq<char>>) -> crate::lineup_optimizer::SolveResult {
    crate::lineup_optimizer::solve(
        st.player_pool->Some_0@,
        st.player_pool->Some_0@.len(),
        st.salary_cap->Some_0 as int,
        crate::lineup_optimizer::counts_model(
            crate::common::trimmed(crate::common::raw_counts(slots_view(st), m)),
        ),
    )
}

impl Builder {
    /// Gathers the contest data and the slate rows into a search-ready
    /// state: validates the configuration, resolves the sport's category
    /// mapping, normalizes the rows and freezes the catalog.
    pub fn build(
        self,
        salary_cap: u32,
        roster_slots: Vec<RosterSlot>,
        rows: crate::slate_reader::SlateRows,
    ) -> (r: Result<Builder, LineupError>)
        requires
            (rows matches crate::slate_reader::SlateRows::DraftKings(v) ==> v@.len()
                <= MAX_POOL_SIZE),
            (rows matches crate::slate_reader::SlateRows::FanDuel(v) ==> v@.len()
                <= MAX_POOL_SIZE),
        ensures
            (self.dfs_provider is None || self.sport is None || self.contest_type is None
                || self.slate_path is None) ==> r == Err::<Builder, LineupError>(
                LineupError::MissingInput,
            ),
            ({
                let complete = self.dfs_provider is Some && self.sport is Some
                    && self.contest_type is Some && self.slate_path is Some;
                complete && crate::category_mapper::sport_labels(self.sport->Some_0@) is None
                    ==> r == Err::<Builder, LineupError>(LineupError::UnresolvableCategory)
            }),
            ({
                let complete = self.dfs_provider is Some && self.sport is Some
                    && self.contest_type is Some && self.slate_path is Some;
                let lbls = crate::category_mapper::sport_labels(self.sport->Some_0@);
                complete && lbls is Some ==> {
                    let m = lbls->Some_0;
                    match r {
                        Ok(b) => {
                            &&& b.resource_path == self.resource_path
                            &&& b.dfs_provider == self.dfs_provider
                            &&& b.sport == self.sport
                            &&& b.contest_type == self.contest_type
                            &&& b.slate_path == self.slate_path
                            &&& b.builder_state matches Some(st) && st.salary_cap == Some(
                                salary_cap,
                            ) && (st.roster_slots matches Some(sl) && sl@ == roster_slots@) && (
                            st.player_pool matches Some(pool) && (match rows {
                                crate::slate_reader::SlateRows::DraftKings(v) =>
                                    crate::slate_reader::pool_from(
                                    pool,
                                    crate::slate_reader::dk_models(m, v@),
                                ),
                                crate::slate_reader::SlateRows::FanDuel(v) =>
                                    crate::slate_reader::pool_from(
                                    pool,
                                    crate::slate_reader::fd_models(m, v@),
                                ),
                            }))
                        },
                        Err(e) => match rows {
                            crate::slate_reader::SlateRows::DraftKings(v) => (e
                                == LineupError::UnresolvableCategory
                                && !crate::slate_reader::dk_rows_resolvable(m, v@)) || (
                            crate::slate_reader::dk_rows_resolvable(m, v@)
                                && crate::player_pool::scan_err(
                                crate::slate_reader::dk_models(m, v@),
                                true,
                            ) == Some(e)),
                            crate::slate_reader::SlateRows::FanDuel(v) => (e
                                == LineupError::UnresolvableCategory
                                && !crate::slate_reader::fd_rows_resolvable(m, v@)) || (
                            crate::slate_reader::fd_rows_resolvable(m, v@)
                                && crate::player_pool::scan_err(
                                crate::slate_reader::fd_models(m, v@),
                                true,
                            ) == Some(e)),
                        },
                    }
                }
            }),
    {
        match self.template_path() {
            Ok(_) => (),
            Err(e) => {
                return Err(e);
            },
        }
        let sport_str = match &self.sport {
            Some(s) => s,
            None => {
                return Err(LineupError::MissingInput);
            },
        };
        let map = match crate::category_mapper::map_categories(sport_str.as_str()) {
            Some(m) => m,
            None => {
                return Err(LineupError::UnresolvableCategory);
            },
        };
        let mut state = BuilderState {
            player_pool: None,
            roster_slots: Some(roster_slots),
            salary_cap: Some(salary_cap),
        };
        match crate::slate_reader::read_slate(rows, &mut state, &map) {
            Ok(_) => (),
            Err(e) => {
                return Err(e);
            },
        }
        Ok(Builder { builder_state: Some(state), ..self })
    }

    /// Runs the search over the gathered state and materializes up to three
    /// lineups, best value first. Succeeds exactly when the top-level
    /// search over the full catalog, cap and constraint vector is feasible;
    /// a completed search with no feasible entry is the recoverable
    /// `NoFeasibleLineup` outcome.
    ///
    /// Every returned lineup fits the cap, holds exactly as many catalog
    /// items as the requirements total, covers every category's requirement,
    /// and repeats no item id; the lineups are pairwise distinct and come
    /// best total first, the first carrying exactly the search's best value.
    pub fn optimize(&self) -> (r: Result<Vec<Lineup>, LineupError>)
        ensures
            self.sport is None ==> r == Err::<Vec<Lineup>, LineupError>(
                LineupError::MissingInput,
            ),
            (self.sport matches Some(sp) && crate::category_mapper::sport_labels(sp@) is None)
                ==> r == Err::<Vec<Lineup>, LineupError>(LineupError::UnresolvableCategory),
            (self.sport matches Some(sp) && crate::category_mapper::sport_labels(sp@) is Some
                && self.builder_state is None) ==> r == Err::<Vec<Lineup>, LineupError>(
                LineupError::MissingInput,
            ),
            ({
                let sp_ok = self.sport matches Some(sp) && crate::category_mapper::sport_labels(
                    sp@,
                ) is Some;
                let m = crate::category_mapper::sport_labels(self.sport->Some_0@)->Some_0;
                let st = self.builder_state->Some_0;
                sp_ok && self.builder_state is Some ==> {
                    let de = crate::common::derive_err(slots_view(st), m);
                    if de is Some {
                        r == Err::<Vec<Lineup>, LineupError>(de->Some_0)
                    } else if st.player_pool is None || st.salary_cap is None {
                        r == Err::<Vec<Lineup>, LineupError>(LineupError::MissingInput)
                    } else {
                        let top = optimize_top(st, m);
                        let cm = crate::lineup_optimizer::counts_model(
                            crate::common::trimmed(crate::common::raw_counts(slots_view(st), m)),
                        );
                        let pool_v = st.player_pool->Some_0@;
                        if !top.feasible {
                            r == Err::<Vec<Lineup>, LineupError>(LineupError::NoFeasibleLineup)
                        } else {
                            match r {
                                Ok(lineups) => {
                                    &&& 1 <= lineups@.len() <= 3
                                    &&& seq_points_sum(lineups@[0]@) == top.value
                                    &&& forall|k: int| 0 <= k < lineups@.len() ==> seq_price_sum(
                                        (#[trigger] lineups@[k])@,
                                    ) <= st.salary_cap->Some_0 as int
                                    &&& forall|k: int| 0 <= k < lineups@.len() ==> (
                                    #[trigger] lineups@[k])@.len()
                                        == crate::lineup_optimizer::sum_counts(cm)
                                    &&& forall|k: int, c: int|
                                        0 <= k < lineups@.len() && 0 <= c < cm.len()
                                            ==> #[trigger] seq_cat_count(lineups@[k]@, c)
                                            >= cm[c]
                                    &&& forall|k: int, i: int|
                                        0 <= k < lineups@.len() && 0 <= i < lineups@[k]@.len()
                                            ==> #[trigger] pool_v.contains(lineups@[k]@[i])
                                    &&& forall|k: int| 0 <= k < lineups@.len()
                                        ==> crate::player_pool::distinct_ids(
                                        (#[trigger] lineups@[k])@,
                                    )
                                    &&& forall|k: int| 0 <= k < lineups@.len() ==> (
                                    #[trigger] lineups@[k]).wf()
                                    &&& forall|k: int| 0 <= k < lineups@.len()
                                        ==> crate::lineup_optimizer::pts_sorted(
                                        (#[trigger] lineups@[k])@,
                                    )
                                    &&& forall|k1: int, k2: int|
                                        0 <= k1 < k2 < lineups@.len() ==> seq_points_sum(
                                            (#[trigger] lineups@[k1])@,
                                        ) >= seq_points_sum((#[trigger] lineups@[k2])@)
                                    &&& forall|k1: int, k2: int|
                                        0 <= k1 < k2 < lineups@.len() ==> (
                                        #[trigger] lineups@[k1])@ != (#[trigger] lineups@[k2])@
                                },
                                Err(_) => false,
                            }
                        }
                    }
                }
            }),
    {
        let sport_str = match &self.sport {
            Some(s) => s,
            None => {
                return Err(LineupError::MissingInput);
            },
        };
        let map = match crate::category_mapper::map_categories(sport_str.as_str()) {
            Some(m) => m,
            None => {
                return Err(LineupError::UnresolvableCategory);
            },
        };
        let state = match &self.builder_state {
            Some(s) => s,
            None => {
                return Err(LineupError::MissingInput);
            },
        };
        let category_count = match crate::common::calculate_category_count(state, &map) {
            Ok(v) => v,
            Err(e) => {
                return Err(e);
            },
        };
        let pool = match &state.player_pool {
            Some(p) => p,
            None => {
                return Err(LineupError::MissingInput);
            },
        };
        let cap = match state.salary_cap {
            Some(c) => c,
            None => {
                return Err(LineupError::MissingInput);
            },
        };
        let items = pool.get_all();
        let ctx = crate::lineup_optimizer::OptimizerContext::new(cap, category_count, items);
        proof {
            assert(ctx.wf());
        }
        let mut optimizer = crate::lineup_optimizer::Optimizer::new(ctx);
        let best = optimizer.optimize();
        let ghost st = self.builder_state->Some_0;
        let ghost m = map@;
        let ghost top = optimize_top(st, m);
        proof {
            assert(crate::lineup_optimizer::models(optimizer.context.items@)
                == state.player_pool->Some_0@);
            assert(crate::lineup_optimizer::top_result(optimizer.context) == top);
        }
        let lineups = optimizer.rank(3);
        proof {
            assert(exists|i: int|
                0 <= i < optimizer.cache@.len() && crate::lineup_optimizer::key_matches(
                    (#[trigger] optimizer.cache@[i]).0,
                    optimizer.context.items@.len() as usize,
                    optimizer.context.weight,
                    optimizer.context.categories@,
                )) by {
                let i = choose|i: int|
                    0 <= i < optimizer.cache@.len() && crate::lineup_optimizer::key_matches(
                        #[trigger] optimizer.cache@[i].0,
                        optimizer.context.items@.len() as usize,
                        optimizer.context.weight,
                        optimizer.context.categories@,
                    );
                assert(crate::lineup_optimizer::key_matches(
                    (#[trigger] optimizer.cache@[i]).0,
                    optimizer.context.items@.len() as usize,
                    optimizer.context.weight,
                    optimizer.context.categories@,
                ));
            }
        }
        if lineups.len() == 0 {
            Err(LineupError::NoFeasibleLineup)
        } else {
            Ok(lineups)
        }
    }
}

} // verus!
