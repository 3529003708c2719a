//! The item catalog: an immutable, deduplicated pool of players in a frozen
//! total order (projected points descending, ties broken by id ascending).
//! The order is used both for presentation and as the enumeration order
//! consumed by the search engine.

use vstd::prelude::*;

use crate::common::{
    clone_player, dedup_u32, str_eq, ItemModel, LineupError, Player, MAX_POOL_SIZE,
    MAX_PROJECTED_POINTS, MIN_PROJECTED_POINTS,
};
use crate::lineup_optimizer::{distinct_u32s, models};
use vstd::multiset::Multiset;

verus! {

/// `a` comes before `b` in the catalog's frozen order: higher projected
/// points first, ties broken by lower id.
pub open spec fn pool_order(a: ItemModel, b: ItemModel) -> bool {
    a.points > b.points || (a.points == b.points && a.id < b.id)
}

/// The sequence is sorted by catalog order.
pub open spec fn pool_sorted(s: Seq<ItemModel>) -> bool {
    forall|i: int, j: int| 0 <= i < j < s.len() ==> pool_order(#[trigger] s[i], #[trigger] s[j])
}

/// No two entries share an id.
pub open spec fn distinct_ids(s: Seq<ItemModel>) -> bool {
    forall|i: int, j: int| 0 <= i < j < s.len() ==> (#[trigger] s[i]).id != (#[trigger] s[j]).id
}

/// Whether an item survives the catalog's value filter.
pub open spec fn keep_item(m: ItemModel, optimize: bool) -> bool {
    !optimize || m.points > MIN_PROJECTED_POINTS as int
}

/// The items that survive the filter, in input order.
pub open spec fn kept_models(s: Seq<ItemModel>, optimize: bool) -> Seq<ItemModel>
    decreases s.len(),
{
    if s.len() == 0 {
        Seq::empty()
    } else {
        let pre = kept_models(s.drop_last(), optimize);
        if keep_item(s.last(), optimize) {
            pre.push(s.last())
        } else {
            pre
        }
    }
}

/// The first input error found when the items are scanned in order: a kept
/// item whose projected points are out of range is a malformed record; a
/// kept item whose id repeats an earlier kept item's id is a duplicate.
pub open spec fn scan_err(s: Seq<ItemModel>, optimize: bool) -> Option<LineupError>
    decreases s.len(),
{
    if s.len() == 0 {
        None
    } else {
        let pre = scan_err(s.drop_last(), optimize);
        if pre is Some {
            pre
        } else {
            let m = s.last();
            if keep_item(m, optimize) {
                if m.points > MAX_PROJECTED_POINTS as int {
                    Some(LineupError::MalformedRecord)
                } else if exists|i: int|
                    0 <= i < s.len() - 1 && keep_item(#[trigger] s[i], optimize) && s[i].id
                        == m.id {
                    Some(LineupError::DuplicateItemId)
                } else {
                    None
                }
            } else {
                None
            }
        }
    }
}

/// A prefix that already scanned to an error keeps that error under any
/// extension.
proof fn lemma_scan_err_extend(s: Seq<ItemModel>, optimize: bool, j: int, e: LineupError)
    requires
        0 <= j <= s.len(),
        scan_err(s.take(j), optimize) == Some(e),
    ensures
        scan_err(s, optimize) == Some(e),
    decreases s.len() - j,
{
    if j == s.len() {
        assert(s.take(j) =~= s);
    } else {
        assert(s.take(j + 1).drop_last() =~= s.take(j));
        lemma_scan_err_extend(s, optimize, j + 1, e);
    }
}

/// An element is kept exactly when some input position holds it and passes
/// the filter.
proof fn lemma_kept_models_membership(s: Seq<ItemModel>, optimize: bool, m: ItemModel)
    ensures
        kept_models(s, optimize).contains(m) <==> exists|i: int|
            0 <= i < s.len() && #[trigger] s[i] == m && keep_item(m, optimize),
    decreases s.len(),
{
    if s.len() > 0 {
        lemma_kept_models_membership(s.drop_last(), optimize, m);
        let pre = kept_models(s.drop_last(), optimize);
        if kept_models(s, optimize).contains(m) {
            let w = choose|w: int|
                0 <= w < kept_models(s, optimize).len() && kept_models(s, optimize)[w] == m;
            if keep_item(s.last(), optimize) && w == pre.len() {
                assert(s[s.len() - 1] == m);
            } else {
                assert(pre.contains(m));
            }
        }
        if exists|i: int| 0 <= i < s.len() && #[trigger] s[i] == m && keep_item(m, optimize) {
            let i = choose|i: int|
                0 <= i < s.len() && #[trigger] s[i] == m && keep_item(m, optimize);
            if i < s.len() - 1 {
                assert(s.drop_last()[i] == m);
                assert(pre.contains(m));
                let w = choose|w: int| 0 <= w < pre.len() && pre[w] == m;
                assert(kept_models(s, optimize)[w] == m);
            } else {
                assert(kept_models(s, optimize).last() == m);
            }
        }
    }
}

/// Inserting into a sequence inserts into its multiset.
proof fn lemma_insert_to_multiset(s: Seq<ItemModel>, i: int, v: ItemModel)
    requires
        0 <= i <= s.len(),
    ensures
        s.insert(i, v).to_multiset() == s.to_multiset().insert(v),
{
    broadcast use vstd::seq_lib::group_to_multiset_ensures;

    let t = s.insert(i, v);
    assert(t.remove(i) =~= s);
    assert(t[i] == v);
    assert(t.remove(i).to_multiset() =~= t.to_multiset().remove(t[i]));
    assert(t.to_multiset().contains(v)) by {
        assert(t.contains(v));
    }
    assert(t.to_multiset() =~= s.to_multiset().insert(v));
}

/// Dropping the last element removes it from the multiset.
proof fn lemma_drop_last_to_multiset(s: Seq<ItemModel>)
    requires
        s.len() >= 1,
    ensures
        s.drop_last().to_multiset() == s.to_multiset().remove(s.last()),
{
    broadcast use vstd::seq_lib::group_to_multiset_ensures;

    assert(s.remove(s.len() - 1) =~= s.drop_last());
    assert(s.remove(s.len() - 1).to_multiset() =~= s.to_multiset().remove(s.last()));
}

/// A sequence with pairwise distinct ids has multiset counts at most one.
proof fn lemma_distinct_ids_counts(s: Seq<ItemModel>)
    requires
        distinct_ids(s),
    ensures
        forall|m: ItemModel| #[trigger] s.to_multiset().count(m) <= 1,
        forall|m1: ItemModel, m2: ItemModel|
            s.to_multiset().count(m1) > 0 && s.to_multiset().count(m2) > 0 && m1 != m2
                ==> #[trigger] m1.id != #[trigger] m2.id,
{
    broadcast use vstd::seq_lib::group_to_multiset_ensures;

    assert(s.no_duplicates()) by {
        assert forall|i: int, j: int|
            0 <= i < s.len() && 0 <= j < s.len() && i != j implies s[i] != s[j] by {
            if i < j {
                assert(s[i].id != s[j].id);
            } else {
                assert(s[j].id != s[i].id);
            }
        }
    }
    s.lemma_multiset_has_no_duplicates();
    assert forall|m: ItemModel| #[trigger] s.to_multiset().count(m) <= 1 by {
        if s.to_multiset().count(m) > 0 {
            assert(s.to_multiset().contains(m));
        }
    }
    assert forall|m1: ItemModel, m2: ItemModel|
        s.to_multiset().count(m1) > 0 && s.to_multiset().count(m2) > 0 && m1 != m2 implies (
    #[trigger] m1.id) != (#[trigger] m2.id) by {
        assert(s.contains(m1));
        assert(s.contains(m2));
        let i1 = choose|i: int| 0 <= i < s.len() && s[i] == m1;
        let i2 = choose|i: int| 0 <= i < s.len() && s[i] == m2;
        assert(i1 != i2);
    }
}

/// The catalog. Built once per run; immutable afterwards. Its entries are in
/// the frozen order, have pairwise distinct ids, pass the value bounds the
/// engine relies on, and list each category at most once.
pub struct PlayerPool {
    players: Vec<Player>,
}

impl View for PlayerPool {
    type V = Seq<ItemModel>;

    closed spec fn view(&self) -> Seq<ItemModel> {
        models(self.players@)
    }
}

impl PlayerPool {
    /// The catalog's internal invariant.
    #[verifier::type_invariant]
    pub closed spec fn inv(self) -> bool {
        &&& self.players@.len() <= MAX_POOL_SIZE
        &&& forall|i: int| 0 <= i < self.players@.len() ==> (
        #[trigger] self.players@[i]).projected_points <= MAX_PROJECTED_POINTS
        &&& forall|i: int| 0 <= i < self.players@.len() ==> distinct_u32s(
            (#[trigger] self.players@[i]).categories@,
        )
        &&& pool_sorted(models(self.players@))
        &&& distinct_ids(models(self.players@))
    }

    /// An exact copy of the catalog.
    #[verifier::loop_isolation(false)]
    pub fn clone_pool(&self) -> (r: PlayerPool)
        ensures
            r@ == self@,
    {
        proof {
            use_type_invariant(self);
        }
        let mut players: Vec<Player> = Vec::new();
        let mut i: usize = 0;
        while i < self.players.len()
            invariant
                i <= self.players@.len(),
                players@.len() == i,
                forall|w: int| 0 <= w < i ==> #[trigger] players@[w]@ == self.players@[w]@,
                forall|w: int| 0 <= w < i ==> (#[trigger] players@[w]).projected_points
                    == self.players@[w].projected_points,
                forall|w: int| 0 <= w < i ==> (#[trigger] players@[w]).categories@
                    == self.players@[w].categories@,
            decreases self.players@.len() - i,
        {
            players.push(clone_player(&self.players[i]));
            i += 1;
        }
        proof {
            assert(models(players@) =~= models(self.players@));
        }
        PlayerPool { players }
    }

    /// How many players the catalog holds.
    pub fn len(&self) -> (r: usize)
        ensures
            r == self@.len(),
    {
        self.players.len()
    }

    /// Builds the catalog from raw items. With `optimize` set, items whose
    /// projected points are at or below `MIN_PROJECTED_POINTS` are filtered
    /// out first. A kept item with out-of-range points is rejected as a
    /// malformed record; two kept items sharing an id are rejected as a
    /// duplicate, never overwritten. The kept items are frozen in catalog
    /// order: projected points descending, ties broken by id ascending.
    pub fn new(players: Vec<Player>, optimize: bool) -> (r: Result<PlayerPool, LineupError>)
        requires
            players@.len() <= MAX_POOL_SIZE,
        ensures
            match r {
                Ok(pool) => {
                    &&& scan_err(models(players@), optimize) is None
                    &&& pool@.to_multiset() == kept_models(
                        models(players@),
                        optimize,
                    ).to_multiset()
                    &&& pool@.len() == kept_models(models(players@), optimize).len()
                    &&& pool_sorted(pool@)
                    &&& distinct_ids(pool@)
                },
                Err(e) => scan_err(models(players@), optimize) == Some(e),
            },
    {
        let ghost ms = models(players@);
        let mut kept: Vec<Player> = Vec::new();
        let mut j: usize = 0;
        while j < players.len()
            invariant
                j <= players@.len(),
                players@.len() <= MAX_POOL_SIZE,
                ms == models(players@),
                scan_err(ms.take(j as int), optimize) is None,
                models(kept@) == kept_models(ms.take(j as int), optimize),
                kept@.len() <= j,
                forall|i: int| 0 <= i < kept@.len() ==> (#[trigger] kept@[i]).projected_points
                    <= MAX_PROJECTED_POINTS,
                forall|i: int| 0 <= i < kept@.len() ==> distinct_u32s(
                    (#[trigger] kept@[i]).categories@,
                ),
                distinct_ids(models(kept@)),
            decreases players@.len() - j,
        {
            let ghost pre_t = ms.take(j as int);
            let ghost post_t = ms.take(j + 1int);
            proof {
                assert(post_t.drop_last() =~= pre_t);
                assert(post_t.last() == ms[j as int]);
                assert(ms[j as int] == players@[j as int]@);
            }
            let pid = players[j].id;
            let ppts = players[j].projected_points;
            let keep_now = !optimize || ppts > MIN_PROJECTED_POINTS;
            proof {
                assert(keep_now == keep_item(ms[j as int], optimize));
            }
            if keep_now {
                if ppts > MAX_PROJECTED_POINTS {
                    proof {
                        assert(scan_err(post_t, optimize) == Some(
                            LineupError::MalformedRecord,
                        ));
                        lemma_scan_err_extend(
                            ms,
                            optimize,
                            j + 1,
                            LineupError::MalformedRecord,
                        );
                    }
                    return Err(LineupError::MalformedRecord);
                }
                if find_id(&kept, pid) {
                    proof {
                        let ww = choose|ww: int| 0 <= ww < kept@.len() && kept@[ww].id == pid;
                        let m = models(kept@)[ww];
                        assert(m == kept@[ww]@);
                        assert(kept_models(pre_t, optimize).contains(m)) by {
                            assert(models(kept@)[ww] == m);
                        }
                        lemma_kept_models_membership(pre_t, optimize, m);
                        let i = choose|i: int|
                            0 <= i < pre_t.len() && #[trigger] pre_t[i] == m && keep_item(
                                m,
                                optimize,
                            );
                        assert(post_t[i] == m);
                        assert(keep_item(post_t[i], optimize) && post_t[i].id
                            == post_t.last().id);
                        assert(scan_err(post_t, optimize) == Some(
                            LineupError::DuplicateItemId,
                        ));
                        lemma_scan_err_extend(ms, optimize, j + 1, LineupError::DuplicateItemId);
                    }
                    return Err(LineupError::DuplicateItemId);
                }
                let q = Player {
                    id: pid,
                    name: players[j].name.clone(),
                    team: players[j].team.clone(),
                    position: players[j].position.clone(),
                    categories: dedup_u32(&players[j].categories),
                    price: players[j].price,
                    projected_points: ppts,
                };
                proof {
                    assert(q@ == ms[j as int]) by {
                        assert(crate::common::cat_set(q.categories@) =~= crate::common::cat_set(
                            players@[j as int].categories@,
                        )) by {
                            let orig = players@[j as int].categories@;
                            assert forall|cc: int|
                                crate::common::cat_set(q.categories@).contains(cc)
                                    == crate::common::cat_set(orig).contains(cc) by {
                                if crate::common::cat_set(q.categories@).contains(cc) {
                                    let w = choose|w: int|
                                        0 <= w < q.categories@.len() && (
                                        #[trigger] q.categories@[w]) as int == cc;
                                    assert(q.categories@.contains(q.categories@[w]));
                                    assert(orig.contains(q.categories@[w]));
                                    let w2 = choose|w2: int|
                                        0 <= w2 < orig.len() && orig[w2] == q.categories@[w];
                                    assert(orig[w2] as int == cc);
                                }
                                if crate::common::cat_set(orig).contains(cc) {
                                    let w = choose|w: int|
                                        0 <= w < orig.len() && (#[trigger] orig[w]) as int == cc;
                                    assert(orig.contains(orig[w]));
                                    assert(q.categories@.contains(orig[w]));
                                    let w2 = choose|w2: int|
                                        0 <= w2 < q.categories@.len() && q.categories@[w2]
                                            == orig[w];
                                    assert(q.categories@[w2] as int == cc);
                                }
                            }
                        }
                    }
                    assert(scan_err(post_t, optimize) is None) by {
                        if exists|i: int|
                            0 <= i < post_t.len() - 1 && keep_item(#[trigger] post_t[i], optimize)
                                && post_t[i].id == post_t.last().id {
                            let i = choose|i: int|
                                0 <= i < post_t.len() - 1 && keep_item(
                                    #[trigger] post_t[i],
                                    optimize,
                                ) && post_t[i].id == post_t.last().id;
                            assert(pre_t[i] == post_t[i]);
                            lemma_kept_models_membership(pre_t, optimize, pre_t[i]);
                            assert(kept_models(pre_t, optimize).contains(pre_t[i]));
                            let w = choose|w: int|
                                0 <= w < models(kept@).len() && models(kept@)[w] == pre_t[i];
                            assert(kept@[w].id == pid);
                        }
                    }
                    assert(models(kept@.push(q)) =~= models(kept@).push(q@));
                    assert(kept_models(post_t, optimize) == kept_models(pre_t, optimize).push(
                        ms[j as int],
                    ));
                }
                let ghost kept_old = kept@;
                kept.push(q);
                proof {
                    assert forall|a: int, b: int|
                        0 <= a < b < models(kept@).len() implies (#[trigger] models(
                        kept@,
                    )[a]).id != (#[trigger] models(kept@)[b]).id by {
                        if b == models(kept@).len() - 1 {
                            assert(models(kept@)[b] == q@);
                            assert(models(kept_old)[a] == models(kept@)[a]);
                            if models(kept@)[a].id == pid {
                                assert(kept_old[a].id == pid);
                            }
                        } else {
                            assert(models(kept_old)[a] == models(kept@)[a]);
                            assert(models(kept_old)[b] == models(kept@)[b]);
                        }
                    }
                }
            } else {
                proof {
                    assert(scan_err(post_t, optimize) is None);
                    assert(kept_models(post_t, optimize) == kept_models(pre_t, optimize));
                }
            }
            j += 1;
        }
        proof {
            assert(ms.take(players@.len() as int) =~= ms);
        }
        let ghost total = kept_models(ms, optimize);
        proof {
            lemma_distinct_ids_counts(total);
            broadcast use vstd::seq_lib::group_to_multiset_ensures;

            assert(models(kept@).to_multiset() == total.to_multiset());
        }
        let mut arr: Vec<Player> = Vec::new();
        while kept.len() > 0
            invariant
                models(arr@).to_multiset().add(models(kept@).to_multiset())
                    == total.to_multiset(),
                pool_sorted(models(arr@)),
                arr@.len() + kept@.len() == total.len(),
                forall|i: int| 0 <= i < arr@.len() ==> (#[trigger] arr@[i]).projected_points
                    <= MAX_PROJECTED_POINTS,
                forall|i: int| 0 <= i < arr@.len() ==> distinct_u32s(
                    (#[trigger] arr@[i]).categories@,
                ),
                forall|i: int| 0 <= i < kept@.len() ==> (#[trigger] kept@[i]).projected_points
                    <= MAX_PROJECTED_POINTS,
                forall|i: int| 0 <= i < kept@.len() ==> distinct_u32s(
                    (#[trigger] kept@[i]).categories@,
                ),
                forall|m: ItemModel| #[trigger] total.to_multiset().count(m) <= 1,
                forall|m1: ItemModel, m2: ItemModel|
                    total.to_multiset().count(m1) > 0 && total.to_multiset().count(m2) > 0 && m1
                        != m2 ==> #[trigger] m1.id != #[trigger] m2.id,
            decreases kept@.len(),
        {
            let ghost kept_before = kept@;
            let ghost arr_ms = models(arr@);
            let p = kept.pop().unwrap();
            proof {
                broadcast use vstd::seq_lib::group_to_multiset_ensures;

                assert(kept@ =~= kept_before.drop_last());
                assert(models(kept@) =~= models(kept_before).drop_last());
                assert(p@ == models(kept_before).last());
                lemma_drop_last_to_multiset(models(kept_before));
                assert(models(kept_before).to_multiset().count(p@) >= 1) by {
                    assert(models(kept_before).contains(p@)) by {
                        assert(models(kept_before)[models(kept_before).len() - 1] == p@);
                    }
                }
                assert forall|i: int| 0 <= i < arr_ms.len() implies (#[trigger] arr_ms[i]).id
                    != p@.id by {
                    assert(arr_ms.contains(arr_ms[i]));
                    assert(arr_ms.to_multiset().count(arr_ms[i]) > 0);
                    assert(total.to_multiset().count(arr_ms[i]) > 0);
                    assert(total.to_multiset().count(p@) > 0);
                    if arr_ms[i] == p@ {
                        assert(total.to_multiset().count(p@) >= arr_ms.to_multiset().count(p@)
                            + models(kept_before).to_multiset().count(p@));
                    }
                }
            }
            let mut pos: usize = 0;
            while pos < arr.len() && (arr[pos].projected_points > p.projected_points || (
            arr[pos].projected_points == p.projected_points && arr[pos].id < p.id))
                invariant
                    pos <= arr@.len(),
                    forall|i: int| 0 <= i < pos ==> pool_order(#[trigger] models(arr@)[i], p@),
                decreases arr@.len() - pos,
            {
                proof {
                    assert(models(arr@)[pos as int] == arr@[pos as int]@);
                }
                pos += 1;
            }
            proof {
                if (pos as int) < arr_ms.len() {
                    assert(!pool_order(arr_ms[pos as int], p@));
                    assert(pool_order(p@, arr_ms[pos as int]));
                }
                assert(models(arr@.insert(pos as int, p)) =~= arr_ms.insert(pos as int, p@));
                lemma_insert_to_multiset(arr_ms, pos as int, p@);
            }
            let ghost arr_old = arr@;
            arr.insert(pos, p);
            proof {
                broadcast use vstd::seq_lib::group_to_multiset_ensures;

                let newm = models(arr@);
                assert(newm == arr_ms.insert(pos as int, p@));
                assert forall|a: int, b: int|
                    0 <= a < b < newm.len() implies pool_order(
                    #[trigger] newm[a],
                    #[trigger] newm[b],
                ) by {
                    if a < pos && b < pos {
                        assert(newm[a] == arr_ms[a] && newm[b] == arr_ms[b]);
                    } else if a < pos && b == pos {
                        assert(newm[a] == arr_ms[a] && newm[b] == p@);
                    } else if a < pos && b > pos {
                        assert(newm[a] == arr_ms[a] && newm[b] == arr_ms[b - 1]);
                    } else if a == pos {
                        assert(newm[a] == p@ && newm[b] == arr_ms[b - 1]);
                        assert(pool_order(p@, arr_ms[pos as int]));
                        if b - 1 > pos {
                            assert(pool_order(arr_ms[pos as int], arr_ms[b - 1]));
                        }
                    } else {
                        assert(newm[a] == arr_ms[a - 1] && newm[b] == arr_ms[b - 1]);
                    }
                }
                assert(models(arr@).to_multiset().add(models(kept@).to_multiset())
                    =~= total.to_multiset());
            }
        }
        proof {
            broadcast use vstd::seq_lib::group_to_multiset_ensures;

            assert(models(kept@) =~= Seq::<ItemModel>::empty());
            assert(Seq::<ItemModel>::empty().to_multiset() =~= Multiset::<ItemModel>::empty());
            assert(models(arr@).to_multiset() =~= total.to_multiset());
            assert(models(arr@).len() == total.len());
            assert forall|a: int, b: int|
                0 <= a < b < models(arr@).len() implies (#[trigger] models(arr@)[a]).id != (
            #[trigger] models(arr@)[b]).id by {
                let am = models(arr@);
                assert(am.contains(am[a]) && am.contains(am[b]));
                assert(am.to_multiset().count(am[a]) > 0 && am.to_multiset().count(am[b]) > 0);
                if am[a] == am[b] {
                    assert(am.remove(a).to_multiset() =~= am.to_multiset().remove(am[a]));
                    assert(am.remove(a).contains(am[b])) by {
                        assert(am.remove(a)[b - 1] == am[b]);
                    }
                    assert(am.to_multiset().count(am[a]) >= 2);
                }
            }
        }
        Ok(PlayerPool { players: arr })
    }
}

/// The catalog entries that belong to the given group, in catalog order.
pub open spec fn group_of(s: Seq<ItemModel>, c: int) -> Seq<ItemModel> {
    s.filter(|m: ItemModel| m.cats.contains(c))
}

/// The catalog entries whose id differs from the given one, in catalog
/// order.
pub open spec fn without_id(s: Seq<ItemModel>, id: u64) -> Seq<ItemModel> {
    s.filter(|m: ItemModel| m.id != id)
}

/// The catalog entries whose id is not listed, in catalog order.
pub open spec fn without_ids(s: Seq<ItemModel>, ids: Seq<u64>) -> Seq<ItemModel> {
    s.filter(|m: ItemModel| !ids.contains(m.id))
}

/// The catalog entries outside the given group, in catalog order.
pub open spec fn without_group(s: Seq<ItemModel>, c: int) -> Seq<ItemModel> {
    s.filter(|m: ItemModel| !m.cats.contains(c))
}

/// The catalog entries with the given name, in catalog order.
pub open spec fn with_name(s: Seq<ItemModel>, name: Seq<char>) -> Seq<ItemModel> {
    s.filter(|m: ItemModel| m.name == name)
}

/// The models of a sequence of player references.
pub open spec fn ref_models(s: Seq<&Player>) -> Seq<ItemModel> {
    s.map_values(|p: &Player| p@)
}

impl PlayerPool {
    /// The player with the given id, if the catalog holds one.
    pub fn get_player(&self, player_id: &u64) -> (r: Option<&Player>)
        ensures
            match r {
                Some(p) => p@.id == *player_id && self@.contains(p@),
                None => forall|i: int| 0 <= i < self@.len() ==> (#[trigger] self@[i]).id
                    != *player_id,
            },
    {
        let mut i: usize = 0;
        while i < self.players.len()
            invariant
                i <= self.players@.len(),
                forall|ii: int| 0 <= ii < i ==> (#[trigger] models(self.players@)[ii]).id
                    != *player_id,
            decreases self.players@.len() - i,
        {
            if self.players[i].id == *player_id {
                proof {
                    assert(self@[i as int] == self.players@[i as int]@);
                }
                return Some(&self.players[i]);
            }
            i += 1;
        }
        None
    }

    /// All players, in catalog order, with the bounds the engine needs.
    #[verifier::loop_isolation(false)]
    pub fn get_all(&self) -> (r: Vec<Player>)
        ensures
            r@.len() == self@.len() <= MAX_POOL_SIZE,
            models(r@) == self@,
            forall|i: int| 0 <= i < r@.len() ==> (#[trigger] r@[i]).projected_points
                <= MAX_PROJECTED_POINTS,
            forall|i: int| 0 <= i < r@.len() ==> distinct_u32s((#[trigger] r@[i]).categories@),
            pool_sorted(self@),
            distinct_ids(self@),
    {
        proof {
            use_type_invariant(self);
        }
        let mut r: Vec<Player> = Vec::new();
        let mut i: usize = 0;
        while i < self.players.len()
            invariant
                i <= self.players@.len(),
                r@.len() == i,
                forall|ii: int| 0 <= ii < i ==> #[trigger] r@[ii]@ == self.players@[ii]@,
                forall|ii: int| 0 <= ii < i ==> (#[trigger] r@[ii]).projected_points
                    <= MAX_PROJECTED_POINTS,
                forall|ii: int| 0 <= ii < i ==> distinct_u32s((#[trigger] r@[ii]).categories@),
            decreases self.players@.len() - i,
        {
            r.push(clone_player(&self.players[i]));
            i += 1;
        }
        proof {
            assert(models(r@) =~= models(self.players@));
        }
        r
    }

    /// The players that belong to the given group, in catalog order.
    #[verifier::loop_isolation(false)]
    pub fn get_group(&self, group_id: &u32) -> (r: Vec<Player>)
        ensures
            models(r@) == group_of(self@, *group_id as int),
    {
        proof {
            use_type_invariant(self);
        }
        let ghost ms = models(self.players@);
        let mut r: Vec<Player> = Vec::new();
        let mut i: usize = 0;
        while i < self.players.len()
            invariant
                i <= self.players@.len(),
                models(r@) == group_of(ms.take(i as int), *group_id as int),
            decreases self.players@.len() - i,
        {
            let in_group = crate::common::contains_u32(&self.players[i].categories, *group_id);
            proof {
                broadcast use Seq::group_seq_extra;

                assert(ms.take(i + 1int) =~= ms.take(i as int).push(ms[i as int]));
                assert(ms[i as int] == self.players@[i as int]@);
                lemma_listed_iff_cat(self.players@[i as int], *group_id);
            }
            if in_group {
                r.push(clone_player(&self.players[i]));
                proof {
                    assert(models(r@) =~= group_of(ms.take(i + 1int), *group_id as int));
                }
            }
            i += 1;
        }
        proof {
            assert(ms.take(self.players@.len() as int) =~= ms);
        }
        r
    }

    /// All players but the one with the given id, in catalog order.
    #[verifier::loop_isolation(false)]
    pub fn exclude_player(&self, player_id: u64) -> (r: Vec<Player>)
        ensures
            models(r@) == without_id(self@, player_id),
    {
        proof {
            use_type_invariant(self);
        }
        let ghost ms = models(self.players@);
        let mut r: Vec<Player> = Vec::new();
        let mut i: usize = 0;
        while i < self.players.len()
            invariant
                i <= self.players@.len(),
                models(r@) == without_id(ms.take(i as int), player_id),
            decreases self.players@.len() - i,
        {
            proof {
                broadcast use Seq::group_seq_extra;

                assert(ms.take(i + 1int) =~= ms.take(i as int).push(ms[i as int]));
                assert(ms[i as int] == self.players@[i as int]@);
            }
            if self.players[i].id != player_id {
                r.push(clone_player(&self.players[i]));
                proof {
                    assert(models(r@) =~= without_id(ms.take(i + 1int), player_id));
                }
            }
            i += 1;
        }
        proof {
            assert(ms.take(self.players@.len() as int) =~= ms);
        }
        r
    }

    /// All players whose id is not listed, in catalog order.
    #[verifier::loop_isolation(false)]
    pub fn exclude_players(&self, player_ids: Vec<u64>) -> (r: Vec<Player>)
        ensures
            models(r@) == without_ids(self@, player_ids@),
    {
        proof {
            use_type_invariant(self);
        }
        let ghost ms = models(self.players@);
        let mut r: Vec<Player> = Vec::new();
        let mut i: usize = 0;
        while i < self.players.len()
            invariant
                i <= self.players@.len(),
                models(r@) == without_ids(ms.take(i as int), player_ids@),
            decreases self.players@.len() - i,
        {
            proof {
                broadcast use Seq::group_seq_extra;

                assert(ms.take(i + 1int) =~= ms.take(i as int).push(ms[i as int]));
                assert(ms[i as int] == self.players@[i as int]@);
            }
            if !contains_u64(&player_ids, self.players[i].id) {
                r.push(clone_player(&self.players[i]));
                proof {
                    assert(models(r@) =~= without_ids(ms.take(i + 1int), player_ids@));
                }
            }
            i += 1;
        }
        proof {
            assert(ms.take(self.players@.len() as int) =~= ms);
        }
        r
    }

    /// All players outside the given group, in catalog order.
    #[verifier::loop_isolation(false)]
    pub fn exclude_group(&self, group_id: u32) -> (r: Vec<Player>)
        ensures
            models(r@) == without_group(self@, group_id as int),
    {
        proof {
            use_type_invariant(self);
        }
        let ghost ms = models(self.players@);
        let mut r: Vec<Player> = Vec::new();
        let mut i: usize = 0;
        while i < self.players.len()
            invariant
                i <= self.players@.len(),
                models(r@) == without_group(ms.take(i as int), group_id as int),
            decreases self.players@.len() - i,
        {
            let in_group = crate::common::contains_u32(&self.players[i].categories, group_id);
            proof {
                broadcast use Seq::group_seq_extra;

                assert(ms.take(i + 1int) =~= ms.take(i as int).push(ms[i as int]));
                assert(ms[i as int] == self.players@[i as int]@);
                lemma_listed_iff_cat(self.players@[i as int], group_id);
            }
            if !in_group {
                r.push(clone_player(&self.players[i]));
                proof {
                    assert(models(r@) =~= without_group(ms.take(i + 1int), group_id as int));
                }
            }
            i += 1;
        }
        proof {
            assert(ms.take(self.players@.len() as int) =~= ms);
        }
        r
    }

    /// The players with the given name, in catalog order, or `None` when the
    /// catalog holds none.
    #[verifier::loop_isolation(false)]
    pub fn get_players_by_name(&self, player_name: &str) -> (r: Option<Vec<&Player>>)
        ensures
            match r {
                Some(l) => l@.len() > 0 && ref_models(l@) == with_name(self@, player_name@),
                None => with_name(self@, player_name@).len() == 0,
            },
    {
        proof {
            use_type_invariant(self);
        }
        let ghost ms = models(self.players@);
        let mut l: Vec<&Player> = Vec::new();
        let mut i: usize = 0;
        while i < self.players.len()
            invariant
                i <= self.players@.len(),
                ref_models(l@) == with_name(ms.take(i as int), player_name@),
            decreases self.players@.len() - i,
        {
            let same = crate::common::str_eq(self.players[i].name.as_str(), player_name);
            proof {
                broadcast use Seq::group_seq_extra;

                assert(ms.take(i + 1int) =~= ms.take(i as int).push(ms[i as int]));
                assert(ms[i as int] == self.players@[i as int]@);
            }
            if same {
                l.push(&self.players[i]);
                proof {
                    assert(ref_models(l@) =~= with_name(ms.take(i + 1int), player_name@));
                }
            }
            i += 1;
        }
        proof {
            assert(ms.take(self.players@.len() as int) =~= ms);
        }
        if l.len() > 0 {
            Some(l)
        } else {
            proof {
                assert(ref_models(l@).len() == 0);
            }
            None
        }
    }
}

/// A player's category list mentions `c` exactly when its model's category
/// set contains it.
proof fn lemma_listed_iff_cat(p: Player, c: u32)
    ensures
        p.categories@.contains(c) == p@.cats.contains(c as int),
{
    if p.categories@.contains(c) {
        let w = choose|w: int| 0 <= w < p.categories@.len() && p.categories@[w] == c;
        assert(p.categories@[w] as int == c as int);
    }
    if p@.cats.contains(c as int) {
        let w = choose|w: int|
            0 <= w < p.categories@.len() && (#[trigger] p.categories@[w]) as int == c as int;
        assert(p.categories@[w] == c);
        assert(p.categories@.contains(p.categories@[w]));
    }
}

/// Whether `x` occurs in the id list.
fn contains_u64(v: &Vec<u64>, x: u64) -> (r: bool)
    ensures
        r == v@.contains(x),
{
    let mut j: usize = 0;
    while j < v.len()
        invariant
            j <= v@.len(),
            forall|jj: int| 0 <= jj < j ==> v@[jj] != x,
        decreases v@.len() - j,
    {
        if v[j] == x {
            return true;
        }
        j += 1;
    }
    false
}

/// Whether some player in the list has the given id.
fn find_id(v: &Vec<Player>, id: u64) -> (r: bool)
    ensures
        r == exists|i: int| 0 <= i < v@.len() && (#[trigger] v@[i]).id == id,
{
    let mut j: usize = 0;
    while j < v.len()
        invariant
            j <= v@.len(),
            forall|jj: int| 0 <= jj < j ==> (#[trigger] v@[jj]).id != id,
        decreases v@.len() - j,
    {
        if v[j].id == id {
            return true;
        }
        j += 1;
    }
    false
}

} // verus!
