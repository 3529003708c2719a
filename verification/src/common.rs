//! Shared data model: players, roster slots, builder state, and the error
//! kinds surfaced by catalog construction and optimization.

use vstd::prelude::*;

verus! {

/// Projected points are stored as fixed-point integers, in thousandths of a
/// point (18.4 points is stored as 18_400).
///
/// Upper bound on a single player's projected points accepted by the catalog
/// (one million points). Bounding each item keeps every value sum computed by
/// the optimizer well inside `u64`.
pub const MAX_PROJECTED_POINTS: u64 = 1_000_000_000;

/// Upper bound on the number of players a catalog may hold.
pub const MAX_POOL_SIZE: usize = 1_000_000;

/// Upper bound on the length of a constraint vector accepted by the engine
/// (constraint derivation produces at most 100 cells).
pub const MAX_CATEGORIES: usize = 10_000;

/// Players whose projected points are at or below this threshold (3 points)
/// are filtered out when a pool is built with filtering enabled.
pub const MIN_PROJECTED_POINTS: u64 = 3_000;

/// Error kinds. Configuration and build-time errors abort a run;
/// `NoFeasibleLineup` is a normal, recoverable outcome of a search.
#[derive(Clone, Copy, Debug, PartialEq, Eq, Structural)]
pub enum LineupError {
    /// No provider, sport, contest or slate was specified.
    MissingInput,
    /// A category label has no entry in the category mapping.
    UnresolvableCategory,
    /// An input record is out of range or inconsistent.
    MalformedRecord,
    /// The search completed with zero feasible terminal entries.
    NoFeasibleLineup,
    /// Catalog construction detected two items with the same id.
    DuplicateItemId,
}

impl LineupError {
    /// A short human-readable description of the error.
    pub fn message(&self) -> (r: &'static str)
        ensures
            r@.len() > 0,
    {
        proof {
            reveal_strlit("no provider, sport, contest or slate specified");
            reveal_strlit("category label not present in the category mapping");
            reveal_strlit("malformed input record");
            reveal_strlit("no feasible lineup exists");
            reveal_strlit("duplicate item id in catalog input");
        }
        match self {
            LineupError::MissingInput => "no provider, sport, contest or slate specified",
            LineupError::UnresolvableCategory => "category label not present in the category mapping",
            LineupError::MalformedRecord => "malformed input record",
            LineupError::NoFeasibleLineup => "no feasible lineup exists",
            LineupError::DuplicateItemId => "duplicate item id in catalog input",
        }
    }
}

/// The mathematical model of a `Player`: plain values, with the category
/// membership list abstracted to a set.
pub ghost struct ItemModel {
    pub id: u64,
    pub name: Seq<char>,
    pub team: Seq<char>,
    pub position: Seq<char>,
    pub cats: Set<int>,
    pub price: int,
    pub points: int,
}

/// The set of category ids that appear in a category list.
pub open spec fn cat_set(cs: Seq<u32>) -> Set<int> {
    Set::new(|c: int| exists|j: int| 0 <= j < cs.len() && cs[j] as int == c)
}

/// A draftable item: id, display data, price, projected points (fixed-point,
/// thousandths) and the categories (roster slot types) it may fill.
#[derive(Debug, Clone)]
pub struct Player {
    pub id: u64,
    pub name: String,
    pub team: String,
    pub position: String,
    pub categories: Vec<u32>,
    pub price: u32,
    pub projected_points: u64,
}

impl View for Player {
    type V = ItemModel;

    open spec fn view(&self) -> ItemModel {
        ItemModel {
            id: self.id,
            name: self.name@,
            team: self.team@,
            position: self.position@,
            cats: cat_set(self.categories@),
            price: self.price as int,
            points: self.projected_points as int,
        }
    }
}

impl Player {
    /// Builds a player with empty team and position fields.
    pub fn new(
        id: u64,
        name: &str,
        price: u32,
        projected_points: u64,
        categories: Vec<u32>,
    ) -> (r: Player)
        ensures
            r.id == id,
            r.name@ == name@,
            r.team@ == Seq::<char>::empty(),
            r.position@ == Seq::<char>::empty(),
            r.price == price,
            r.projected_points == projected_points,
            r.categories@ == categories@,
    {
        Player {
            id,
            name: name.to_owned(),
            team: String::new(),
            position: String::new(),
            categories,
            price,
            projected_points,
        }
    }
}

/// A roster slot of a contest template: a display name, the category key it
/// maps through, the exact required count, and salary / point multipliers in
/// thousandths (1_500 is a multiplier of 1.5).
#[derive(Debug, Clone)]
pub struct RosterSlot {
    pub name: String,
    pub key: String,
    pub count: u32,
    pub salary_multiplier: u32,
    pub point_multiplier: u32,
}

/// The daily-fantasy data providers whose slate schemas are understood.
#[derive(Clone, Copy, Debug, PartialEq, Eq, Structural)]
pub enum DFSProvider {
    DraftKings,
    FanDuel,
}

/// The sports a category mapping is supplied for.
#[allow(non_camel_case_types)]
#[derive(Clone, Copy, Debug, PartialEq, Eq, Structural)]
pub enum SportType {
    nfl,
    nba,
    mlb,
}

/// The provider a name denotes, matched ignoring ASCII case.
pub fn provider_kind(provider: &str) -> (r: Option<DFSProvider>)
    ensures
        crate::category_mapper::eq_ic(provider@, "draft_kings"@) ==> r == Some(
            DFSProvider::DraftKings,
        ),
        !crate::category_mapper::eq_ic(provider@, "draft_kings"@)
            && crate::category_mapper::eq_ic(provider@, "fanduel"@) ==> r == Some(
            DFSProvider::FanDuel,
        ),
        !crate::category_mapper::eq_ic(provider@, "draft_kings"@)
            && !crate::category_mapper::eq_ic(provider@, "fanduel"@) ==> r is None,
{
    if crate::category_mapper::eq_ignore_ascii_case(provider, "draft_kings") {
        Some(DFSProvider::DraftKings)
    } else if crate::category_mapper::eq_ignore_ascii_case(provider, "fanduel") {
        Some(DFSProvider::FanDuel)
    } else {
        None
    }
}

/// The data a fluent builder gathers before a search: the catalog, the
/// contest's roster slots, and the salary cap.
pub struct BuilderState {
    pub player_pool: Option<crate::player_pool::PlayerPool>,
    pub roster_slots: Option<Vec<RosterSlot>>,
    pub salary_cap: Option<u32>,
}

/// The first derivation error found when the slots are scanned in order: a
/// slot whose key has no mapping is unresolvable; two slots targeting the
/// same category are a logic error, reported rather than overwritten.
pub open spec fn derive_err(
    slots: Seq<RosterSlot>,
    m: Seq<Seq<char>>,
) -> Option<LineupError>
    decreases slots.len(),
{
    if slots.len() == 0 {
        None
    } else {
        let pre = derive_err(slots.drop_last(), m);
        if pre is Some {
            pre
        } else {
            match crate::category_mapper::lookup(m, slots.last().key@) {
                Option::None => Some(LineupError::UnresolvableCategory),
                Option::Some(c) => if exists|i: int|
                    0 <= i < slots.len() - 1 && crate::category_mapper::lookup(
                        m,
                        (#[trigger] slots[i]).key@,
                    ) == Some(c) {
                    Some(LineupError::MalformedRecord)
                } else {
                    None
                },
            }
        }
    }
}

/// The dense per-category counts written by the slots, before trimming:
/// 100 cells, each holding the count of the slot that targets it.
pub open spec fn raw_counts(slots: Seq<RosterSlot>, m: Seq<Seq<char>>) -> Seq<u32>
    decreases slots.len(),
{
    if slots.len() == 0 {
        Seq::new(100, |i: int| 0u32)
    } else {
        let pre = raw_counts(slots.drop_last(), m);
        match crate::category_mapper::lookup(m, slots.last().key@) {
            Option::Some(c) => pre.update(c, slots.last().count),
            Option::None => pre,
        }
    }
}

/// The index of the last nonzero cell, or zero when every cell is zero.
pub open spec fn last_used(raw: Seq<u32>) -> int
    decreases raw.len(),
{
    if raw.len() <= 1 {
        0
    } else if raw.last() > 0 {
        raw.len() - 1
    } else {
        last_used(raw.drop_last())
    }
}

/// The counts with trailing zero cells trimmed; the first cell always
/// remains.
pub open spec fn trimmed(raw: Seq<u32>) -> Seq<u32> {
    raw.take(last_used(raw) + 1)
}

/// A prefix that already derived to an error keeps that error under any
/// extension.
proof fn lemma_derive_err_extend(
    slots: Seq<RosterSlot>,
    m: Seq<Seq<char>>,
    j: int,
    e: LineupError,
)
    requires
        0 <= j <= slots.len(),
        derive_err(slots.take(j), m) == Some(e),
    ensures
        derive_err(slots, m) == Some(e),
    decreases slots.len() - j,
{
    if j == slots.len() {
        assert(slots.take(j) =~= slots);
    } else {
        assert(slots.take(j + 1).drop_last() =~= slots.take(j));
        lemma_derive_err_extend(slots, m, j + 1, e);
    }
}

/// Derives the constraint vector from the gathered roster slots: each
/// slot's required count is written into the cell its key maps to, and
/// trailing unused cells are trimmed. A slot with an unmapped key is an
/// `UnresolvableCategory` error; two slots targeting one category are a
/// `MalformedRecord` error.
#[verifier::loop_isolation(false)]
pub fn calculate_category_count(
    builder_state: &BuilderState,
    category_map: &crate::category_mapper::CategoryMap,
) -> (r: Result<Vec<u32>, LineupError>)
    ensures
        ({
            let sv = match builder_state.roster_slots {
                Option::Some(ref s) => s@,
                Option::None => Seq::<RosterSlot>::empty(),
            };
            match r {
                Ok(v) => derive_err(sv, category_map@) is None && v@ == trimmed(
                    raw_counts(sv, category_map@),
                ) && 1 <= v@.len() <= 100,
                Err(e) => derive_err(sv, category_map@) == Some(e),
            }
        }),
{
    let ghost m = category_map@;
    let slots: &Vec<RosterSlot> = match &builder_state.roster_slots {
        Some(s) => s,
        None => {
            let mut out: Vec<u32> = Vec::new();
            out.push(0);
            proof {
                let raw = raw_counts(Seq::<RosterSlot>::empty(), m);
                lemma_last_used_zeros(raw);
                assert(out@ =~= trimmed(raw));
            }
            return Ok(out);
        },
    };
    let ghost sv = slots@;
    let mut counts: Vec<u32> = vec![0u32; 100];
    let mut used: Vec<bool> = vec![false; 100];
    proof {
        assert(counts@ =~= raw_counts(sv.take(0), m));
    }
    let mut j: usize = 0;
    while j < slots.len()
        invariant
            j <= sv.len(),
            counts@ == raw_counts(sv.take(j as int), m),
            counts@.len() == 100,
            used@.len() == 100,
            derive_err(sv.take(j as int), m) is None,
            forall|c: int| 0 <= c < 100 ==> (#[trigger] used@[c] == (exists|i: int|
                0 <= i < j && crate::category_mapper::lookup(m, (#[trigger] sv[i]).key@) == Some(
                    c,
                ))),
        decreases sv.len() - j,
    {
        proof {
            assert(sv.take(j + 1int).drop_last() =~= sv.take(j as int));
            assert(sv.take(j + 1int).last() == sv[j as int]);
        }
        let found = category_map.get(slots[j].key.as_str());
        match found {
            None => {
                proof {
                    assert(derive_err(sv.take(j + 1int), m) == Some(
                        LineupError::UnresolvableCategory,
                    ));
                    lemma_derive_err_extend(sv, m, j + 1, LineupError::UnresolvableCategory);
                }
                return Err(LineupError::UnresolvableCategory);
            },
            Some(c) => {
                let cu = c as usize;
                if used[cu] {
                    proof {
                        let i0 = choose|i: int|
                            0 <= i < j && crate::category_mapper::lookup(
                                m,
                                (#[trigger] sv[i]).key@,
                            ) == Some(cu as int);
                        assert(sv.take(j + 1int)[i0] == sv[i0]);
                        assert(crate::category_mapper::lookup(
                            m,
                            sv.take(j + 1int)[i0].key@,
                        ) == Some(cu as int));
                        assert(crate::category_mapper::lookup(
                            m,
                            sv.take(j + 1int).last().key@,
                        ) == Some(cu as int));
                        assert(derive_err(sv.take(j + 1int), m) == Some(
                            LineupError::MalformedRecord,
                        ));
                        lemma_derive_err_extend(sv, m, j + 1, LineupError::MalformedRecord);
                    }
                    return Err(LineupError::MalformedRecord);
                }
                used.set(cu, true);
                counts.set(cu, slots[j].count);
                proof {
                    assert(counts@ =~= raw_counts(sv.take(j + 1int), m));
                    assert forall|cc: int| 0 <= cc < 100 implies (#[trigger] used@[cc] == (
                    exists|i: int|
                        0 <= i < j + 1 && crate::category_mapper::lookup(
                            m,
                            (#[trigger] sv[i]).key@,
                        ) == Some(cc))) by {
                        if used@[cc] {
                            if cc == cu as int {
                                assert(crate::category_mapper::lookup(m, sv[j as int].key@)
                                    == Some(cc));
                            }
                        }
                        if exists|i: int|
                            0 <= i < j + 1 && crate::category_mapper::lookup(
                                m,
                                (#[trigger] sv[i]).key@,
                            ) == Some(cc) {
                            let i = choose|i: int|
                                0 <= i < j + 1 && crate::category_mapper::lookup(
                                    m,
                                    (#[trigger] sv[i]).key@,
                                ) == Some(cc);
                            if i < j {
                                assert(used@[cc]);
                            } else {
                                assert(cc == cu as int);
                            }
                        }
                    }
                }
            },
        }
        j += 1;
    }
    proof {
        assert(sv.take(sv.len() as int) =~= sv);
    }
    let ghost raw = raw_counts(sv, m);
    let mut last: usize = 0;
    let mut t: usize = 0;
    while t < 100
        invariant
            t <= 100,
            counts@.len() == 100,
            t == 0 ==> last == 0,
            t >= 1 ==> last as int == last_used(counts@.take(t as int)) && (last as int) < t,
        decreases 100 - t,
    {
        proof {
            if t >= 1 {
                assert(counts@.take(t + 1int).drop_last() =~= counts@.take(t as int));
            }
        }
        if counts[t] > 0 {
            last = t;
        }
        t += 1;
    }
    proof {
        assert(counts@.take(100) =~= counts@);
    }
    counts.truncate(last + 1);
    proof {
        lemma_last_used_bound(raw);
        assert(counts@ =~= raw.take(last_used(raw) + 1));
    }
    Ok(counts)
}

/// The last used index lies inside the vector.
proof fn lemma_last_used_bound(raw: Seq<u32>)
    requires
        raw.len() >= 1,
    ensures
        0 <= last_used(raw) < raw.len(),
    decreases raw.len(),
{
    if raw.len() > 1 && !(raw.last() > 0) {
        lemma_last_used_bound(raw.drop_last());
    }
}

/// An all-zero count vector trims to its first cell.
proof fn lemma_last_used_zeros(raw: Seq<u32>)
    requires
        forall|i: int| 0 <= i < raw.len() ==> #[trigger] raw[i] == 0,
    ensures
        last_used(raw) == 0,
    decreases raw.len(),
{
    if raw.len() > 1 {
        lemma_last_used_zeros(raw.drop_last());
    }
}

/// Whether two string slices hold the same characters.
pub fn str_eq(a: &str, b: &str) -> (r: bool)
    ensures
        r == (a@ == b@),
{
    let la = a.unicode_len();
    let lb = b.unicode_len();
    if la != lb {
        proof {
            assert(a@ != b@);
        }
        return false;
    }
    let mut j: usize = 0;
    while j < la
        invariant
            j <= la,
            la == a@.len(),
            la == b@.len(),
            forall|jj: int| 0 <= jj < j ==> a@[jj] == b@[jj],
        decreases la - j,
    {
        if a.get_char(j) != b.get_char(j) {
            return false;
        }
        j += 1;
    }
    proof {
        assert(a@ =~= b@);
    }
    true
}

/// An exact copy of a player.
pub fn clone_player(p: &Player) -> (r: Player)
    ensures
        r.id == p.id,
        r.name == p.name,
        r.team == p.team,
        r.position == p.position,
        r.categories@ == p.categories@,
        r.price == p.price,
        r.projected_points == p.projected_points,
        r@ == p@,
{
    Player {
        id: p.id,
        name: p.name.clone(),
        team: p.team.clone(),
        position: p.position.clone(),
        categories: clone_u32_vec(&p.categories),
        price: p.price,
        projected_points: p.projected_points,
    }
}

/// Whether `x` occurs in `v`.
pub fn contains_u32(v: &Vec<u32>, x: u32) -> (r: bool)
    ensures
        r == v@.contains(x),
{
    let mut j: usize = 0;
    while j < v.len()
        invariant
            j <= v@.len(),
            forall|jj: int| 0 <= jj < j ==> v@[jj] != x,
        decreases v@.len() - j,
    {
        if v[j] == x {
            return true;
        }
        j += 1;
    }
    false
}

/// An exact copy of a vector of category ids.
pub fn clone_u32_vec(v: &Vec<u32>) -> (r: Vec<u32>)
    ensures
        r@ == v@,
{
    let r = v.clone();
    proof {
        assert(r@ =~= v@);
    }
    r
}

/// An exact copy of a vector of positions.
pub fn clone_usize_vec(v: &Vec<usize>) -> (r: Vec<usize>)
    ensures
        r@ == v@,
{
    let r = v.clone();
    proof {
        assert(r@ =~= v@);
    }
    r
}

/// Whether two vectors of category counts are equal, cell for cell.
pub fn u32_vec_eq(a: &Vec<u32>, b: &Vec<u32>) -> (r: bool)
    ensures
        r == (a@ == b@),
{
    if a.len() != b.len() {
        proof {
            assert(a@ != b@);
        }
        return false;
    }
    let mut j: usize = 0;
    while j < a.len()
        invariant
            j <= a@.len(),
            a@.len() == b@.len(),
            forall|jj: int| 0 <= jj < j ==> a@[jj] == b@[jj],
        decreases a@.len() - j,
    {
        if a[j] != b[j] {
            return false;
        }
        j += 1;
    }
    proof {
        assert(a@ =~= b@);
    }
    true
}

/// Whether two position lists are equal, entry for entry.
pub fn usize_vec_eq(a: &Vec<usize>, b: &Vec<usize>) -> (r: bool)
    ensures
        r == (a@ == b@),
{
    if a.len() != b.len() {
        proof {
            assert(a@ != b@);
        }
        return false;
    }
    let mut j: usize = 0;
    while j < a.len()
        invariant
            j <= a@.len(),
            a@.len() == b@.len(),
            forall|jj: int| 0 <= jj < j ==> a@[jj] == b@[jj],
        decreases a@.len() - j,
    {
        if a[j] != b[j] {
            return false;
        }
        j += 1;
    }
    proof {
        assert(a@ =~= b@);
    }
    true
}

/// Drops every repeated category id, keeping first occurrences in order.
pub fn dedup_u32(v: &Vec<u32>) -> (r: Vec<u32>)
    ensures
        forall|j1: int, j2: int| 0 <= j1 < j2 < r@.len() ==> r@[j1] != r@[j2],
        forall|x: u32| r@.contains(x) == v@.contains(x),
{
    let mut r: Vec<u32> = Vec::new();
    let mut j: usize = 0;
    while j < v.len()
        invariant
            j <= v@.len(),
            forall|j1: int, j2: int| 0 <= j1 < j2 < r@.len() ==> r@[j1] != r@[j2],
            forall|x: u32| r@.contains(x) == v@.take(j as int).contains(x),
        decreases v@.len() - j,
    {
        let x = v[j];
        let ghost r_old = r@;
        if !contains_u32(&r, x) {
            r.push(x);
        }
        proof {
            assert(v@.take(j + 1int).drop_last() =~= v@.take(j as int));
            assert forall|y: u32| r@.contains(y) == v@.take(j + 1int).contains(y) by {
                if y == x {
                    assert(v@.take(j + 1int)[j as int] == x);
                    assert(r@.contains(x)) by {
                        if r_old.contains(x) {
                            assert(r@ == r_old);
                        } else {
                            assert(r@ == r_old.push(x));
                            assert(r@[r@.len() - 1] == x);
                        }
                    }
                } else {
                    assert(v@.take(j + 1int).contains(y) == v@.take(j as int).contains(y)) by {
                        if v@.take(j as int).contains(y) {
                            let w = choose|w: int| 0 <= w < j && v@.take(j as int)[w] == y;
                            assert(v@.take(j + 1int)[w] == y);
                        } else if v@.take(j + 1int).contains(y) {
                            let w = choose|w: int|
                                0 <= w < j + 1 && (#[trigger] v@.take(j + 1int)[w]) == y;
                            assert(w < j);
                            assert(v@.take(j as int)[w] == y);
                        }
                    }
                    if r_old.contains(y) {
                        let w = choose|w: int| 0 <= w < r_old.len() && r_old[w] == y;
                        assert(r@[w] == y);
                    } else if r@.contains(y) {
                        let w = choose|w: int| 0 <= w < r@.len() && r@[w] == y;
                        assert(r_old.len() <= w < r@.len() ==> r@[w] == x);
                        assert(w < r_old.len());
                        assert(r_old[w] == y);
                    }
                }
            }
        }
        j += 1;
    }
    proof {
        assert(v@.take(v@.len() as int) =~= v@);
    }
    r
}

} // verus!
