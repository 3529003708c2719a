//! The search engine: a memoized recursive decision procedure over
//! take/reject choices (knapsack with exact per-category cardinality
//! constraints).
//!
//! The mathematical meaning of a search is given by the recursive
//! specification [`solve`]; the executable engine is proved to return exactly
//! that result, caching every subproblem it settles.

use vstd::prelude::*;

use crate::common::{
    clone_player, clone_u32_vec, clone_usize_vec, contains_u32, u32_vec_eq, ItemModel, Player,
    MAX_CATEGORIES, MAX_POOL_SIZE, MAX_PROJECTED_POINTS,
};
use crate::builder::{seq_cat_count, seq_points_sum, seq_price_sum, Lineup};
use vstd::pervasive::VecAdditionalExecFns;

verus! {

/// The result of one subproblem: the best achievable value, whether the
/// subproblem is feasible at all, and the chosen item positions (indices into
/// the catalog's frozen order).
pub ghost struct SolveResult {
    pub value: int,
    pub feasible: bool,
    pub chosen: Set<int>,
}

/// The models of a sequence of players.
pub open spec fn models(items: Seq<Player>) -> Seq<ItemModel> {
    items.map_values(|p: Player| p@)
}

/// The constraint vector as a sequence of mathematical integers.
pub open spec fn counts_model(cats: Seq<u32>) -> Seq<int> {
    cats.map_values(|x: u32| x as int)
}

/// How many of the first `n` items belong to category `c`.
pub open spec fn count_in_cat(items: Seq<ItemModel>, n: nat, c: int) -> int
    decreases n,
{
    if n == 0 {
        0
    } else {
        count_in_cat(items, (n - 1) as nat, c) + if n <= items.len() && items[n - 1].cats.contains(
            c,
        ) {
            1int
        } else {
            0int
        }
    }
}

/// The sum of all cells of a constraint vector.
pub open spec fn sum_counts(cats: Seq<int>) -> int
    decreases cats.len(),
{
    if cats.len() == 0 {
        0
    } else {
        sum_counts(cats.drop_last()) + cats.last()
    }
}

/// Every remaining requirement can still be met from the supply among the
/// first `n` items.
pub open spec fn supply_ok(items: Seq<ItemModel>, n: nat, cats: Seq<int>) -> bool {
    forall|c: int| 0 <= c < cats.len() ==> cats[c] <= count_in_cat(items, n, c)
}

/// Item `n - 1` may be assigned to category `c`: the category is in range and
/// still required, the item belongs to it, and the item fits the remaining
/// budget.
pub open spec fn eligible(
    items: Seq<ItemModel>,
    n: nat,
    budget: int,
    cats: Seq<int>,
    c: int,
) -> bool {
    &&& 0 <= c < cats.len()
    &&& cats[c] > 0
    &&& n >= 1
    &&& n <= items.len()
    &&& items[n - 1].cats.contains(c)
    &&& items[n - 1].price <= budget
}

/// The meaning of one search subproblem, exactly as the engine decides it:
///
/// 1. If some requirement exceeds the supply among the first `n` items, the
///    subproblem is infeasible.
/// 2. If `n` is zero or no requirement remains, the subproblem is feasible
///    with value zero and no picks (by step 1, `n == 0` here implies every
///    requirement is zero).
/// 3. Otherwise item `n - 1` is decided on: it is either rejected, or taken
///    in one of its still-required categories, whichever eligible choice
///    yields the best feasible outcome ([`solve_branch`]).
pub open spec fn solve(items: Seq<ItemModel>, n: nat, budget: int, cats: Seq<int>) -> SolveResult
    decreases n, cats.len() + 1,
{
    if !supply_ok(items, n, cats) {
        SolveResult { value: 0, feasible: false, chosen: Set::empty() }
    } else if n == 0 || sum_counts(cats) == 0 {
        SolveResult { value: 0, feasible: true, chosen: Set::empty() }
    } else {
        solve_branch(items, n, budget, cats, cats.len())
    }
}

/// The best outcome for item `n - 1` over rejecting it and taking it in any
/// eligible category `c < k`. Categories are folded in ascending order; a
/// take replaces the current best exactly when it is feasible and at least
/// ties it, so a take is preferred over an equal-valued reject, and among
/// equal-valued takes the highest eligible category wins.
pub open spec fn solve_branch(
    items: Seq<ItemModel>,
    n: nat,
    budget: int,
    cats: Seq<int>,
    k: nat,
) -> SolveResult
    decreases n, k,
{
    if n == 0 {
        SolveResult { value: 0, feasible: false, chosen: Set::empty() }
    } else if k == 0 {
        solve(items, (n - 1) as nat, budget, cats)
    } else {
        let prev = solve_branch(items, n, budget, cats, (k - 1) as nat);
        let c = k - 1;
        if eligible(items, n, budget, cats, c) {
            let take = solve(
                items,
                (n - 1) as nat,
                budget - items[n - 1].price,
                cats.update(c, cats[c] - 1),
            );
            if take.feasible && (!prev.feasible || items[n - 1].points + take.value
                >= prev.value) {
                SolveResult {
                    value: items[n - 1].points + take.value,
                    feasible: true,
                    chosen: take.chosen.insert(n - 1),
                }
            } else {
                prev
            }
        } else {
            prev
        }
    }
}

/// Items fit for the engine: the pool is not oversized and every projected
/// point total is bounded, so no value sum can overflow `u64`.
pub open spec fn items_wf(items: Seq<ItemModel>) -> bool {
    &&& items.len() <= MAX_POOL_SIZE
    &&& forall|i: int| 0 <= i < items.len() ==> 0 <= #[trigger] items[i].points
        <= MAX_PROJECTED_POINTS
}

/// Basic facts about a subproblem result: its value is bounded by
/// `n * MAX_PROJECTED_POINTS`, an infeasible result carries value zero and an
/// empty choice set, and every chosen position lies among the first `n`
/// items.
pub proof fn lemma_solve_basic(items: Seq<ItemModel>, n: nat, budget: int, cats: Seq<int>)
    requires
        items_wf(items),
        n <= items.len(),
    ensures
        0 <= solve(items, n, budget, cats).value <= n * MAX_PROJECTED_POINTS,
        !solve(items, n, budget, cats).feasible ==> solve(items, n, budget, cats).value == 0
            && solve(items, n, budget, cats).chosen == Set::<int>::empty(),
        forall|i: int| solve(items, n, budget, cats).chosen.contains(i) ==> 0 <= i < n,
    decreases n, cats.len() + 1,
{
    if supply_ok(items, n, cats) && !(n == 0 || sum_counts(cats) == 0) {
        lemma_solve_branch_basic(items, n, budget, cats, cats.len());
    }
}

/// The same facts for the per-category fold.
pub proof fn lemma_solve_branch_basic(
    items: Seq<ItemModel>,
    n: nat,
    budget: int,
    cats: Seq<int>,
    k: nat,
)
    requires
        items_wf(items),
        1 <= n <= items.len(),
    ensures
        0 <= solve_branch(items, n, budget, cats, k).value <= n * MAX_PROJECTED_POINTS,
        !solve_branch(items, n, budget, cats, k).feasible ==> solve_branch(
            items,
            n,
            budget,
            cats,
            k,
        ).value == 0 && solve_branch(items, n, budget, cats, k).chosen == Set::<int>::empty(),
        forall|i: int|
            solve_branch(items, n, budget, cats, k).chosen.contains(i) ==> 0 <= i < n,
    decreases n, k,
{
    if k == 0 {
        lemma_solve_basic(items, (n - 1) as nat, budget, cats);
        assert((n - 1) * MAX_PROJECTED_POINTS <= n * MAX_PROJECTED_POINTS) by (nonlinear_arith)
            requires n >= 1;
    } else {
        lemma_solve_branch_basic(items, n, budget, cats, (k - 1) as nat);
        let c = k - 1;
        if eligible(items, n, budget, cats, c) {
            lemma_solve_basic(
                items,
                (n - 1) as nat,
                budget - items[n - 1].price,
                cats.update(c, cats[c] - 1),
            );
            assert((n - 1) * MAX_PROJECTED_POINTS + MAX_PROJECTED_POINTS == n
                * MAX_PROJECTED_POINTS) by (nonlinear_arith);
        }
    }
}

/// A category count never exceeds the number of items counted.
pub proof fn lemma_count_le(items: Seq<ItemModel>, n: nat, c: int)
    ensures
        0 <= count_in_cat(items, n, c) <= n,
    decreases n,
{
    if n > 0 {
        lemma_count_le(items, (n - 1) as nat, c);
    }
}

/// A sum of non-negative cells is non-negative, and is zero exactly when
/// every cell is zero.
pub proof fn lemma_sum_counts_zero(cats: Seq<int>)
    requires
        forall|i: int| 0 <= i < cats.len() ==> #[trigger] cats[i] >= 0,
    ensures
        sum_counts(cats) >= 0,
        sum_counts(cats) == 0 <==> (forall|i: int| 0 <= i < cats.len() ==> #[trigger] cats[i]
            == 0),
    decreases cats.len(),
{
    if cats.len() > 0 {
        lemma_sum_counts_zero(cats.drop_last());
        assert(forall|i: int| 0 <= i < cats.len() - 1 ==> cats.drop_last()[i] == cats[i]);
        if sum_counts(cats) == 0 {
            assert(forall|i: int| 0 <= i < cats.len() - 1 ==> #[trigger] cats[i] == 0);
            assert(cats.last() == 0);
        }
    }
}

/// Once the per-category fold has found a feasible outcome, every longer fold
/// is feasible too, and its value never drops.
proof fn lemma_branch_feasible_mono(
    items: Seq<ItemModel>,
    n: nat,
    budget: int,
    cats: Seq<int>,
    k1: nat,
    k2: nat,
)
    requires
        k1 <= k2,
        solve_branch(items, n, budget, cats, k1).feasible,
    ensures
        solve_branch(items, n, budget, cats, k2).feasible,
        solve_branch(items, n, budget, cats, k2).value >= solve_branch(
            items,
            n,
            budget,
            cats,
            k1,
        ).value,
    decreases k2,
{
    if k1 < k2 {
        lemma_branch_feasible_mono(items, n, budget, cats, k1, (k2 - 1) as nat);
    }
}

/// If the subproblem that excludes item `n - 1` is feasible, so is the
/// subproblem that decides on it.
pub proof fn lemma_step_reject(items: Seq<ItemModel>, n: nat, budget: int, cats: Seq<int>)
    requires
        1 <= n <= items.len(),
        solve(items, (n - 1) as nat, budget, cats).feasible,
    ensures
        solve(items, n, budget, cats).feasible,
{
    assert(supply_ok(items, (n - 1) as nat, cats));
    assert forall|c: int| 0 <= c < cats.len() implies cats[c] <= count_in_cat(items, n, c) by {
        assert(cats[c] <= count_in_cat(items, (n - 1) as nat, c));
    }
    if sum_counts(cats) != 0 {
        lemma_branch_feasible_mono(items, n, budget, cats, 0, cats.len());
    }
}

/// If taking item `n - 1` in an eligible category leads to a feasible
/// subproblem, the subproblem that decides on the item is feasible.
pub proof fn lemma_step_take(items: Seq<ItemModel>, n: nat, budget: int, cats: Seq<int>, c: int)
    requires
        1 <= n <= items.len(),
        eligible(items, n, budget, cats, c),
        solve(
            items,
            (n - 1) as nat,
            budget - items[n - 1].price,
            cats.update(c, cats[c] - 1),
        ).feasible,
    ensures
        solve(items, n, budget, cats).feasible,
{
    let cats2 = cats.update(c, cats[c] - 1);
    assert(supply_ok(items, (n - 1) as nat, cats2));
    assert forall|d: int| 0 <= d < cats.len() implies cats[d] <= count_in_cat(items, n, d) by {
        assert(cats2[d] <= count_in_cat(items, (n - 1) as nat, d));
        if d == c {
            assert(items[n - 1].cats.contains(c));
            assert(count_in_cat(items, n, c) == count_in_cat(items, (n - 1) as nat, c) + 1);
        }
    }
    if sum_counts(cats) != 0 {
        let take = solve(items, (n - 1) as nat, budget - items[n - 1].price, cats2);
        let prev = solve_branch(items, n, budget, cats, c as nat);
        assert(solve_branch(items, n, budget, cats, (c + 1) as nat).feasible);
        lemma_branch_feasible_mono(items, n, budget, cats, (c + 1) as nat, cats.len());
    }
}

/// The positions chosen by a cached subproblem value, as a set of integers.
pub open spec fn index_set(s: Seq<usize>) -> Set<int> {
    Set::new(|i: int| exists|j: int| 0 <= j < s.len() && (#[trigger] s[j]) as int == i)
}

/// The positions are listed in strictly increasing order.
pub open spec fn sorted_strict(s: Seq<usize>) -> bool {
    forall|a: int, b: int| 0 <= a < b < s.len() ==> s[a] < s[b]
}

proof fn lemma_index_set_empty(s: Seq<usize>)
    requires
        s.len() == 0,
    ensures
        index_set(s) == Set::<int>::empty(),
{
    assert(index_set(s) =~= Set::<int>::empty());
}

/// The total price of the chosen items among the first `n` positions.
pub open spec fn chosen_price_sum(items: Seq<ItemModel>, chosen: Set<int>, n: nat) -> int
    decreases n,
{
    if n == 0 {
        0
    } else {
        chosen_price_sum(items, chosen, (n - 1) as nat) + if chosen.contains(n - 1) && n
            <= items.len() {
            items[n - 1].price
        } else {
            0
        }
    }
}

/// The total projected points of the chosen items among the first `n`
/// positions.
pub open spec fn chosen_points_sum(items: Seq<ItemModel>, chosen: Set<int>, n: nat) -> int
    decreases n,
{
    if n == 0 {
        0
    } else {
        chosen_points_sum(items, chosen, (n - 1) as nat) + if chosen.contains(n - 1) && n
            <= items.len() {
            items[n - 1].points
        } else {
            0
        }
    }
}

/// How many of the first `n` positions are chosen.
pub open spec fn chosen_card(chosen: Set<int>, n: nat) -> int
    decreases n,
{
    if n == 0 {
        0
    } else {
        chosen_card(chosen, (n - 1) as nat) + if chosen.contains(n - 1) {
            1int
        } else {
            0int
        }
    }
}

/// How many chosen items among the first `n` positions belong to category
/// `c`.
pub open spec fn chosen_count(items: Seq<ItemModel>, chosen: Set<int>, n: nat, c: int) -> int
    decreases n,
{
    if n == 0 {
        0
    } else {
        chosen_count(items, chosen, (n - 1) as nat, c) + if chosen.contains(n - 1) && n
            <= items.len() && items[n - 1].cats.contains(c) {
            1int
        } else {
            0int
        }
    }
}

/// Two choice sets that agree on the first `n` positions have the same sums
/// over them.
proof fn lemma_sums_agree(items: Seq<ItemModel>, s1: Set<int>, s2: Set<int>, n: nat)
    requires
        forall|i: int| 0 <= i < n ==> (s1.contains(i) <==> s2.contains(i)),
    ensures
        chosen_price_sum(items, s1, n) == chosen_price_sum(items, s2, n),
        chosen_points_sum(items, s1, n) == chosen_points_sum(items, s2, n),
        chosen_card(s1, n) == chosen_card(s2, n),
        forall|c: int| #[trigger] chosen_count(items, s1, n, c) == chosen_count(items, s2, n, c),
    decreases n,
{
    if n > 0 {
        lemma_sums_agree(items, s1, s2, (n - 1) as nat);
    }
    assert forall|c: int| #[trigger] chosen_count(items, s1, n, c) == chosen_count(
        items,
        s2,
        n,
        c,
    ) by {
        if n > 0 {
            assert(chosen_count(items, s1, (n - 1) as nat, c) == chosen_count(
                items,
                s2,
                (n - 1) as nat,
                c,
            ));
        }
    }
}

/// Updating one cell changes a constraint vector's sum by the difference.
pub proof fn lemma_sum_update(cats: Seq<int>, c: int, v: int)
    requires
        0 <= c < cats.len(),
    ensures
        sum_counts(cats.update(c, v)) == sum_counts(cats) - cats[c] + v,
    decreases cats.len(),
{
    if c == cats.len() - 1 {
        assert(cats.update(c, v).drop_last() =~= cats.drop_last());
    } else {
        lemma_sum_update(cats.drop_last(), c, v);
        assert(cats.update(c, v).drop_last() =~= cats.drop_last().update(c, v));
    }
}

/// Soundness of a feasible subproblem result: the chosen items fit the
/// remaining budget, their projected points add up to the reported value,
/// exactly as many items are chosen as requirements remain, and every
/// category's requirement is covered by chosen members of that category.
pub proof fn lemma_solve_sound(items: Seq<ItemModel>, n: nat, budget: int, cats: Seq<int>)
    requires
        items_wf(items),
        n <= items.len(),
        budget >= 0,
        forall|i: int| 0 <= i < cats.len() ==> #[trigger] cats[i] >= 0,
    ensures
        solve(items, n, budget, cats).feasible ==> {
            let r = solve(items, n, budget, cats);
            &&& chosen_price_sum(items, r.chosen, n) <= budget
            &&& chosen_points_sum(items, r.chosen, n) == r.value
            &&& chosen_card(r.chosen, n) == sum_counts(cats)
            &&& forall|c: int| 0 <= c < cats.len() ==> chosen_count(items, r.chosen, n, c)
                >= #[trigger] cats[c]
        },
    decreases n, cats.len() + 1,
{
    let r = solve(items, n, budget, cats);
    if r.feasible {
        lemma_sum_counts_zero(cats);
        if n == 0 || sum_counts(cats) == 0 {
            assert(supply_ok(items, n, cats));
            if n == 0 {
                assert forall|c: int| 0 <= c < cats.len() implies #[trigger] cats[c] == 0 by {
                    lemma_count_le(items, n, c);
                }
                lemma_sum_counts_zero(cats);
            }
            assert forall|c: int| 0 <= c < cats.len() implies chosen_count(items, r.chosen, n, c)
                >= #[trigger] cats[c] by {
                lemma_chosen_sums_empty(items, r.chosen, n);
            }
            lemma_chosen_sums_empty(items, r.chosen, n);
        } else {
            lemma_solve_branch_sound(items, n, budget, cats, cats.len());
        }
    }
}

/// The sums over an empty choice set are zero.
proof fn lemma_chosen_sums_empty(items: Seq<ItemModel>, chosen: Set<int>, n: nat)
    requires
        chosen == Set::<int>::empty(),
    ensures
        chosen_price_sum(items, chosen, n) == 0,
        chosen_points_sum(items, chosen, n) == 0,
        chosen_card(chosen, n) == 0,
        forall|c: int| #[trigger] chosen_count(items, chosen, n, c) == 0,
    decreases n,
{
    if n > 0 {
        lemma_chosen_sums_empty(items, chosen, (n - 1) as nat);
    }
    assert forall|c: int| #[trigger] chosen_count(items, chosen, n, c) == 0 by {
        if n > 0 {
            assert(chosen_count(items, chosen, (n - 1) as nat, c) == 0);
        }
    }
}

/// Soundness of the per-category fold.
proof fn lemma_solve_branch_sound(
    items: Seq<ItemModel>,
    n: nat,
    budget: int,
    cats: Seq<int>,
    k: nat,
)
    requires
        items_wf(items),
        1 <= n <= items.len(),
        budget >= 0,
        forall|i: int| 0 <= i < cats.len() ==> #[trigger] cats[i] >= 0,
    ensures
        solve_branch(items, n, budget, cats, k).feasible ==> {
            let r = solve_branch(items, n, budget, cats, k);
            &&& chosen_price_sum(items, r.chosen, n) <= budget
            &&& chosen_points_sum(items, r.chosen, n) == r.value
            &&& chosen_card(r.chosen, n) == sum_counts(cats)
            &&& forall|c: int| 0 <= c < cats.len() ==> chosen_count(items, r.chosen, n, c)
                >= #[trigger] cats[c]
        },
    decreases n, k,
{
    let r = solve_branch(items, n, budget, cats, k);
    if r.feasible {
        if k == 0 {
            let r0 = solve(items, (n - 1) as nat, budget, cats);
            lemma_solve_sound(items, (n - 1) as nat, budget, cats);
            lemma_solve_basic(items, (n - 1) as nat, budget, cats);
            assert(!r0.chosen.contains(n - 1));
        } else {
            lemma_solve_branch_sound(items, n, budget, cats, (k - 1) as nat);
            let c = k - 1;
            let prev = solve_branch(items, n, budget, cats, (k - 1) as nat);
            if eligible(items, n, budget, cats, c) {
                let cats2 = cats.update(c, cats[c] - 1);
                let take = solve(items, (n - 1) as nat, budget - items[n - 1].price, cats2);
                if take.feasible && (!prev.feasible || items[n - 1].points + take.value
                    >= prev.value) {
                    lemma_solve_sound(items, (n - 1) as nat, budget - items[n - 1].price, cats2);
                    lemma_solve_basic(items, (n - 1) as nat, budget - items[n - 1].price, cats2);
                    let s2 = take.chosen.insert(n - 1);
                    assert(r.chosen == s2);
                    lemma_sums_agree(items, s2, take.chosen, (n - 1) as nat);
                    assert(s2.contains(n - 1));
                    lemma_sum_update(cats, c, cats[c] - 1);
                    assert(chosen_price_sum(items, s2, n) == chosen_price_sum(
                        items,
                        take.chosen,
                        (n - 1) as nat,
                    ) + items[n - 1].price);
                    assert(chosen_points_sum(items, s2, n) == chosen_points_sum(
                        items,
                        take.chosen,
                        (n - 1) as nat,
                    ) + items[n - 1].points);
                    assert(chosen_card(s2, n) == chosen_card(take.chosen, (n - 1) as nat) + 1);
                    assert forall|d: int| 0 <= d < cats.len() implies chosen_count(
                        items,
                        r.chosen,
                        n,
                        d,
                    ) >= #[trigger] cats[d] by {
                        assert(chosen_count(items, s2, (n - 1) as nat, d) == chosen_count(
                            items,
                            take.chosen,
                            (n - 1) as nat,
                            d,
                        ));
                        assert(chosen_count(items, take.chosen, (n - 1) as nat, d) >= cats2[d]);
                        if d == c {
                            assert(items[n - 1].cats.contains(d));
                            assert(chosen_count(items, s2, n, d) == chosen_count(
                                items,
                                s2,
                                (n - 1) as nat,
                                d,
                            ) + 1);
                        }
                    }
                }
            }
        }
    }
}

/// Raising the budget never loses feasibility and never lowers the best
/// achievable value.
pub proof fn lemma_budget_monotone(
    items: Seq<ItemModel>,
    n: nat,
    budget1: int,
    budget2: int,
    cats: Seq<int>,
)
    requires
        budget1 <= budget2,
    ensures
        solve(items, n, budget1, cats).feasible ==> solve(items, n, budget2, cats).feasible
            && solve(items, n, budget2, cats).value >= solve(items, n, budget1, cats).value,
    decreases n, cats.len() + 1,
{
    if solve(items, n, budget1, cats).feasible {
        if supply_ok(items, n, cats) && !(n == 0 || sum_counts(cats) == 0) {
            lemma_branch_budget_monotone(items, n, budget1, budget2, cats, cats.len());
        }
    }
}

/// The same monotonicity for the per-category fold.
proof fn lemma_branch_budget_monotone(
    items: Seq<ItemModel>,
    n: nat,
    budget1: int,
    budget2: int,
    cats: Seq<int>,
    k: nat,
)
    requires
        budget1 <= budget2,
    ensures
        solve_branch(items, n, budget1, cats, k).feasible ==> solve_branch(
            items,
            n,
            budget2,
            cats,
            k,
        ).feasible && solve_branch(items, n, budget2, cats, k).value >= solve_branch(
            items,
            n,
            budget1,
            cats,
            k,
        ).value,
    decreases n, k,
{
    if n == 0 {
    } else if k == 0 {
        lemma_budget_monotone(items, (n - 1) as nat, budget1, budget2, cats);
    } else {
        lemma_branch_budget_monotone(items, n, budget1, budget2, cats, (k - 1) as nat);
        let c = k - 1;
        if eligible(items, n, budget1, cats, c) {
            let cats2 = cats.update(c, cats[c] - 1);
            lemma_budget_monotone(
                items,
                (n - 1) as nat,
                budget1 - items[n - 1].price,
                budget2 - items[n - 1].price,
                cats2,
            );
        }
    }
}

/// A subproblem key: prefix length, remaining budget, remaining constraint
/// vector. Two keys are equal exactly when all three components are.
#[derive(Debug)]
pub struct CacheKey {
    pub n: usize,
    pub weight: u32,
    pub categories: Vec<u32>,
}

/// A cached subproblem result: best value, feasibility, and the chosen
/// positions in strictly increasing order.
#[derive(Debug)]
pub struct CacheValue {
    pub value: u64,
    pub feasible: bool,
    pub chosen: Vec<usize>,
}

/// The cached value represents the given subproblem result exactly.
pub open spec fn cv_ok(cv: CacheValue, r: SolveResult) -> bool {
    &&& cv.value as int == r.value
    &&& cv.feasible == r.feasible
    &&& index_set(cv.chosen@) == r.chosen
    &&& sorted_strict(cv.chosen@)
}

impl CacheValue {
    /// An exact copy.
    pub fn duplicate(&self) -> (r: CacheValue)
        ensures
            r.value == self.value,
            r.feasible == self.feasible,
            r.chosen@ == self.chosen@,
    {
        CacheValue { value: self.value, feasible: self.feasible, chosen: clone_usize_vec(&self.chosen) }
    }
}

/// Every category id appears at most once.
pub open spec fn distinct_u32s(s: Seq<u32>) -> bool {
    forall|a: int, b: int| 0 <= a < b < s.len() ==> s[a] != s[b]
}

/// The input of one search: the total budget (weight), the constraint
/// vector, and the item pool in its frozen enumeration order.
#[derive(Debug)]
pub struct OptimizerContext {
    pub weight: u32,
    pub categories: Vec<u32>,
    pub items: Vec<Player>,
}

impl OptimizerContext {
    /// The context is sized for the engine: pool and constraint vector are
    /// bounded, every projected point total is bounded, and no item lists a
    /// category twice.
    pub open spec fn wf(self) -> bool {
        &&& self.items@.len() <= MAX_POOL_SIZE
        &&& self.categories@.len() <= MAX_CATEGORIES
        &&& forall|i: int| 0 <= i < self.items@.len() ==> (#[trigger] self.items@[i]).projected_points
            <= MAX_PROJECTED_POINTS
        &&& forall|i: int| 0 <= i < self.items@.len() ==> distinct_u32s(
            (#[trigger] self.items@[i]).categories@,
        )
    }

    pub fn new(weight: u32, categories: Vec<u32>, items: Vec<Player>) -> (r: OptimizerContext)
        ensures
            r.weight == weight,
            r.categories == categories,
            r.items == items,
    {
        OptimizerContext { weight, categories, items }
    }
}

/// The result the engine owes for a whole context: the top-level subproblem
/// over the full pool, the full budget, and the full constraint vector.
pub open spec fn top_result(ctx: OptimizerContext) -> SolveResult {
    solve(
        models(ctx.items@),
        ctx.items@.len() as nat,
        ctx.weight as int,
        counts_model(ctx.categories@),
    )
}

/// What the cache invariant holds of one entry: the key is a subproblem of
/// the context's top-level call, the value is exactly the result of that
/// subproblem, and a feasible entry is only ever recorded on a search whose
/// top-level call is itself feasible.
pub open spec fn entry_inv(ctx: OptimizerContext, e: (CacheKey, CacheValue)) -> bool {
    &&& e.0.categories@.len() == ctx.categories@.len()
    &&& e.0.n <= ctx.items@.len()
    &&& e.0.weight <= ctx.weight
    &&& forall|c: int| 0 <= c < e.0.categories@.len() ==> #[trigger] e.0.categories@[c]
        <= ctx.categories@[c]
    &&& cv_ok(
        e.1,
        solve(
            models(ctx.items@),
            e.0.n as nat,
            e.0.weight as int,
            counts_model(e.0.categories@),
        ),
    )
    &&& e.1.feasible ==> top_result(ctx).feasible
}

/// The memoized search engine. `supply[n][c]` caches how many of the first
/// `n` items belong to category `c`; it is computed once per context and read
/// by the engine's infeasibility-by-supply pruning step.
pub struct Optimizer {
    pub cache: Vec<(CacheKey, CacheValue)>,
    pub context: OptimizerContext,
    pub supply: Vec<Vec<u32>>,
}

impl Optimizer {
    /// The supply table matches the category counts of the context's pool.
    pub open spec fn supply_wf(self) -> bool {
        &&& self.supply@.len() == self.context.items@.len() + 1
        &&& forall|r: int| 0 <= r < self.supply@.len() ==> (#[trigger] self.supply@[r])@.len()
            == self.context.categories@.len()
        &&& forall|r: int, c: int|
            0 <= r < self.supply@.len() && 0 <= c < self.context.categories@.len()
                ==> (#[trigger] self.supply@[r]@[c]) as int == count_in_cat(
                models(self.context.items@),
                r as nat,
                c,
            )
    }

    /// The engine's invariant: a well-formed context, a correct supply
    /// table, and a cache whose every entry records the exact result of its
    /// subproblem.
    pub open spec fn wf(self) -> bool {
        &&& self.context.wf()
        &&& self.supply_wf()
        &&& forall|i: int| 0 <= i < self.cache@.len() ==> entry_inv(
            self.context,
            #[trigger] self.cache@[i],
        )
    }

    /// Builds an engine for the given context, precomputing the per-prefix
    /// category supply counts.
    pub fn new(context: OptimizerContext) -> (r: Optimizer)
        requires
            context.wf(),
        ensures
            r.wf(),
            r.context == context,
            r.cache@.len() == 0,
    {
        let n_items = context.items.len();
        let n_cats = context.categories.len();
        let ghost ms = models(context.items@);
        let mut supply: Vec<Vec<u32>> = Vec::new();
        let mut row: Vec<u32> = vec![0u32; n_cats];
        supply.push(clone_u32_vec(&row));
        let mut idx: usize = 0;
        while idx < n_items
            invariant
                context.wf(),
                idx <= n_items,
                n_items == context.items@.len(),
                n_cats == context.categories@.len(),
                ms == models(context.items@),
                supply@.len() == idx + 1,
                forall|r: int| 0 <= r <= idx ==> (#[trigger] supply@[r])@.len() == n_cats,
                forall|r: int, c: int| 0 <= r <= idx && 0 <= c < n_cats ==> (
                #[trigger] supply@[r]@[c]) as int == count_in_cat(ms, r as nat, c),
                row@.len() == n_cats,
                forall|c: int| 0 <= c < n_cats ==> (#[trigger] row@[c]) as int == count_in_cat(
                    ms,
                    idx as nat,
                    c,
                ),
            decreases n_items - idx,
        {
            let n_listed = context.items[idx].categories.len();
            let ghost listed = context.items@[idx as int].categories@;
            let mut j: usize = 0;
            while j < n_listed
                invariant
                    context.wf(),
                    idx < n_items,
                    n_items == context.items@.len(),
                    n_cats == context.categories@.len(),
                    ms == models(context.items@),
                    j <= n_listed,
                    listed == context.items@[idx as int].categories@,
                    n_listed == listed.len(),
                    row@.len() == n_cats,
                    forall|c: int| 0 <= c < n_cats ==> (#[trigger] row@[c]) as int
                        == count_in_cat(ms, idx as nat, c) + (if crate::common::cat_set(
                        listed.take(j as int),
                    ).contains(c) {
                        1int
                    } else {
                        0int
                    }),
                decreases n_listed - j,
            {
                let c0 = context.items[idx].categories[j];
                let ghost taken_old = listed.take(j as int);
                let ghost taken_new = listed.take(j + 1int);
                proof {
                    assert(distinct_u32s(listed));
                    assert(!crate::common::cat_set(taken_old).contains(c0 as int)) by {
                        if crate::common::cat_set(taken_old).contains(c0 as int) {
                            let w = choose|w: int|
                                0 <= w < taken_old.len() && (#[trigger] taken_old[w]) as int
                                    == c0 as int;
                            assert(listed[w] == listed[j as int]);
                        }
                    }
                    lemma_count_le(ms, idx as nat, c0 as int);
                    assert forall|c: int|
                        crate::common::cat_set(taken_new).contains(c) == (crate::common::cat_set(
                            taken_old,
                        ).contains(c) || c == c0 as int) by {
                        if crate::common::cat_set(taken_old).contains(c) {
                            let w = choose|w: int|
                                0 <= w < taken_old.len() && (#[trigger] taken_old[w]) as int == c;
                            assert(taken_new[w] as int == c);
                        }
                        if c == c0 as int {
                            assert(taken_new[j as int] as int == c);
                        }
                        if crate::common::cat_set(taken_new).contains(c) {
                            let w = choose|w: int|
                                0 <= w < taken_new.len() && (#[trigger] taken_new[w]) as int == c;
                            if w < j {
                                assert(taken_old[w] as int == c);
                            }
                        }
                    }
                }
                if (c0 as usize) < n_cats {
                    let cu = c0 as usize;
                    let bumped = row[cu] + 1;
                    row.set(cu, bumped);
                }
                j += 1;
            }
            proof {
                assert(listed.take(n_listed as int) =~= listed);
                assert forall|c: int| 0 <= c < n_cats implies (#[trigger] row@[c]) as int
                    == count_in_cat(ms, (idx + 1) as nat, c) by {
                    assert(ms[idx as int] == context.items@[idx as int]@);
                    assert(ms[idx as int].cats == crate::common::cat_set(listed));
                }
            }
            supply.push(clone_u32_vec(&row));
            idx += 1;
        }
        Optimizer { cache: Vec::new(), context, supply }
    }

    /// Returns the cached result of the given subproblem, if one is stored.
    fn cache_lookup(&self, n: usize, weight: u32, categories: &Vec<u32>) -> (r: Option<
        CacheValue,
    >)
        requires
            self.wf(),
        ensures
            match r {
                Some(cv) => {
                    &&& cv_ok(
                        cv,
                        solve(
                            models(self.context.items@),
                            n as nat,
                            weight as int,
                            counts_model(categories@),
                        ),
                    )
                    &&& exists|i: int|
                        0 <= i < self.cache@.len() && key_matches(
                            #[trigger] self.cache@[i].0,
                            n,
                            weight,
                            categories@,
                        )
                },
                None => forall|i: int|
                    0 <= i < self.cache@.len() ==> !key_matches(
                        (#[trigger] self.cache@[i]).0,
                        n,
                        weight,
                        categories@,
                    ),
            },
    {
        let mut i: usize = 0;
        while i < self.cache.len()
            invariant
                self.wf(),
                i <= self.cache@.len(),
                forall|ii: int|
                    0 <= ii < i ==> !key_matches(
                        (#[trigger] self.cache@[ii]).0,
                        n,
                        weight,
                        categories@,
                    ),
            decreases self.cache@.len() - i,
        {
            let hit = {
                let e = &self.cache[i];
                e.0.n == n && e.0.weight == weight && u32_vec_eq(&e.0.categories, categories)
            };
            if hit {
                proof {
                    assert(entry_inv(self.context, self.cache@[i as int]));
                    assert(counts_model(self.cache@[i as int].0.categories@) == counts_model(
                        categories@,
                    ));
                }
                return Some(self.cache[i].1.duplicate());
            }
            i += 1;
        }
        None
    }
}

/// The key stores exactly the given subproblem.
pub open spec fn key_matches(k: CacheKey, n: usize, weight: u32, cats: Seq<u32>) -> bool {
    &&& k.n == n
    &&& k.weight == weight
    &&& k.categories@ == cats
}

impl Optimizer {
    /// Settles one subproblem: returns exactly
    /// `solve(items, n, weight, categories)`, consulting and growing the
    /// cache.
    #[verifier::loop_isolation(false)]
    fn optimize_impl(&mut self, n: usize, weight: u32, categories: Vec<u32>) -> (r: CacheValue)
        requires
            old(self).wf(),
            n <= old(self).context.items@.len(),
            categories@.len() == old(self).context.categories@.len(),
            weight <= old(self).context.weight,
            forall|c: int| 0 <= c < categories@.len() ==> #[trigger] categories@[c] <= old(
                self,
            ).context.categories@[c],
            solve(
                models(old(self).context.items@),
                n as nat,
                weight as int,
                counts_model(categories@),
            ).feasible ==> top_result(old(self).context).feasible,
        ensures
            final(self).wf(),
            final(self).context == old(self).context,
            final(self).supply == old(self).supply,
            cv_ok(
                r,
                solve(
                    models(old(self).context.items@),
                    n as nat,
                    weight as int,
                    counts_model(categories@),
                ),
            ),
            exists|i: int|
                0 <= i < final(self).cache@.len() && key_matches(
                    #[trigger] final(self).cache@[i].0,
                    n,
                    weight,
                    categories@,
                ),
            final(self).cache@.len() >= old(self).cache@.len(),
            forall|i: int| 0 <= i < old(self).cache@.len() ==> #[trigger] final(self).cache@[i]
                == old(self).cache@[i],
            (exists|i: int|
                0 <= i < old(self).cache@.len() && key_matches(
                    (#[trigger] old(self).cache@[i]).0,
                    n,
                    weight,
                    categories@,
                )) ==> final(self).cache == old(self).cache,
        decreases n,
    {
        let ghost ms = models(old(self).context.items@);
        let ghost cm = counts_model(categories@);
        let ghost target = solve(ms, n as nat, weight as int, cm);
        proof {
            assert(forall|i: int| 0 <= i < cm.len() ==> #[trigger] cm[i] >= 0);
        }

        if let Some(cv) = self.cache_lookup(n, weight, &categories) {
            return cv;
        }

        let n_cats = categories.len();

        // Step 2: infeasibility by supply.
        let mut c: usize = 0;
        while c < n_cats
            invariant
                self.wf(),
                self.context == old(self).context,
                self.supply == old(self).supply,
                self.cache == old(self).cache,
                c <= n_cats,
                n <= self.context.items@.len(),
                n_cats == categories@.len() == self.context.categories@.len(),
                ms == models(self.context.items@),
                cm == counts_model(categories@),
                target == solve(ms, n as nat, weight as int, cm),
                forall|cc: int| 0 <= cc < c ==> #[trigger] cm[cc] <= count_in_cat(
                    ms,
                    n as nat,
                    cc,
                ),
            decreases n_cats - c,
        {
            if categories[c] > self.supply[n][c] {
                proof {
                    assert(self.supply@[n as int]@[c as int] as int == count_in_cat(
                        ms,
                        n as nat,
                        c as int,
                    ));
                    assert(cm[c as int] == categories@[c as int] as int);
                    assert(cm[c as int] > count_in_cat(ms, n as nat, c as int));
                    assert(!supply_ok(ms, n as nat, cm)) by {
                        if supply_ok(ms, n as nat, cm) {
                            assert(cm[c as int] <= count_in_cat(ms, n as nat, c as int));
                        }
                    }
                }
                let cv = CacheValue { value: 0, feasible: false, chosen: Vec::new() };
                proof {
                    lemma_index_set_empty(cv.chosen@);
                    reveal_with_fuel(solve, 1);
                    assert(!target.feasible);
                    assert(target.value == 0);
                    assert(target.chosen == Set::<int>::empty());
                    assert(cv_ok(cv, target));
                }
                let stored = cv.duplicate();
                let ghost pre = self.cache@;
                self.cache.push((CacheKey { n, weight, categories }, stored));
                proof {
                    assert forall|i: int| 0 <= i < self.cache@.len() implies entry_inv(
                        self.context,
                        #[trigger] self.cache@[i],
                    ) by {
                        if i < pre.len() {
                            assert(entry_inv(self.context, pre[i]));
                        } else {
                            let e = self.cache@[i];
                            assert(e.0.categories@ == categories@);
                            assert(counts_model(e.0.categories@) == cm);
                            assert(cv_ok(e.1, target));
                        }
                    }
                    assert(key_matches(self.cache@[pre.len() as int].0, n, weight, categories@));
                }
                return cv;
            }
            c += 1;
        }
        proof {
            assert(supply_ok(ms, n as nat, cm));
        }

        // Step 3: terminal success when nothing more is required.
        let mut any_required = false;
        let mut c2: usize = 0;
        while c2 < n_cats
            invariant
                c2 <= n_cats,
                n_cats == categories@.len(),
                cm == counts_model(categories@),
                any_required <==> exists|cc: int| 0 <= cc < c2 && #[trigger] cm[cc] > 0,
            decreases n_cats - c2,
        {
            proof {
                assert(cm[c2 as int] == categories@[c2 as int] as int);
            }
            if categories[c2] > 0 {
                any_required = true;
                proof {
                    assert(cm[c2 as int] > 0);
                }
            }
            c2 += 1;
        }
        proof {
            lemma_sum_counts_zero(cm);
        }
        if n == 0 || !any_required {
            proof {
                assert(n == 0 || sum_counts(cm) == 0);
                assert(target.feasible);
            }
            let cv = CacheValue { value: 0, feasible: true, chosen: Vec::new() };
            proof {
                lemma_index_set_empty(cv.chosen@);
            }
            let stored = cv.duplicate();
            let ghost pre = self.cache@;
            self.cache.push((CacheKey { n, weight, categories }, stored));
            proof {
                assert forall|i: int| 0 <= i < self.cache@.len() implies entry_inv(
                    self.context,
                    #[trigger] self.cache@[i],
                ) by {
                    if i < pre.len() {
                        assert(entry_inv(self.context, pre[i]));
                    }
                }
                assert(key_matches(self.cache@[pre.len() as int].0, n, weight, categories@));
            }
            return cv;
        }

        // Step 4: decide on item n - 1.
        let item_price = self.context.items[n - 1].price;
        let item_points = self.context.items[n - 1].projected_points;
        proof {
            assert(ms[n - 1] == self.context.items@[n - 1]@);
            if solve(ms, (n - 1) as nat, weight as int, cm).feasible {
                lemma_step_reject(ms, n as nat, weight as int, cm);
            }
        }
        let mut best = self.optimize_impl(n - 1, weight, clone_u32_vec(&categories));
        let mut c3: usize = 0;
        while c3 < n_cats
            invariant
                self.wf(),
                self.context == old(self).context,
                self.supply == old(self).supply,
                self.cache@.len() >= old(self).cache@.len(),
                forall|i: int| 0 <= i < old(self).cache@.len() ==> #[trigger] self.cache@[i]
                    == old(self).cache@[i],
                c3 <= n_cats,
                1 <= n <= self.context.items@.len(),
                weight <= self.context.weight,
                n_cats == categories@.len() == self.context.categories@.len(),
                forall|cc: int| 0 <= cc < categories@.len() ==> #[trigger] categories@[cc]
                    <= self.context.categories@[cc],
                ms == models(self.context.items@),
                cm == counts_model(categories@),
                target == solve(ms, n as nat, weight as int, cm),
                target.feasible ==> top_result(self.context).feasible,
                supply_ok(ms, n as nat, cm),
                sum_counts(cm) != 0,
                item_price as int == ms[n - 1].price,
                item_points as int == ms[n - 1].points,
                cv_ok(best, solve_branch(ms, n as nat, weight as int, cm, c3 as nat)),
            decreases n_cats - c3,
        {
            let ghost prev = solve_branch(ms, n as nat, weight as int, cm, c3 as nat);
            let ghost cur = solve_branch(ms, n as nat, weight as int, cm, (c3 + 1) as nat);
            let listed_here = contains_u32(&self.context.items[n - 1].categories, c3 as u32);
            proof {
                let listed = self.context.items@[n - 1].categories@;
                assert(listed_here == ms[n - 1].cats.contains(c3 as int)) by {
                    if listed_here {
                        let w = choose|w: int|
                            0 <= w < listed.len() && listed[w] == c3 as u32;
                        assert(listed[w] as int == c3 as int);
                    }
                    if ms[n - 1].cats.contains(c3 as int) {
                        let w = choose|w: int|
                            0 <= w < listed.len() && (#[trigger] listed[w]) as int == c3 as int;
                        assert(listed[w] == c3 as u32);
                        assert(listed.contains(c3 as u32));
                    }
                }
            }
            let eligible_now = categories[c3] > 0 && item_price <= weight && listed_here;
            proof {
                assert(eligible_now == eligible(ms, n as nat, weight as int, cm, c3 as int));
            }
            if eligible_now {
                let mut take_cats = clone_u32_vec(&categories);
                let dec = take_cats[c3] - 1;
                take_cats.set(c3, dec);
                let ghost cm2 = cm.update(c3 as int, cm[c3 as int] - 1);
                proof {
                    assert(counts_model(take_cats@) =~= cm2);
                    if solve(ms, (n - 1) as nat, (weight - item_price) as int, cm2).feasible {
                        lemma_step_take(ms, n as nat, weight as int, cm, c3 as int);
                    }
                }
                let take = self.optimize_impl(n - 1, weight - item_price, take_cats);
                let ghost take_spec = solve(
                    ms,
                    (n - 1) as nat,
                    (weight - item_price) as int,
                    cm2,
                );
                proof {
                    assert(cv_ok(take, take_spec));
                }
                if take.feasible {
                    proof {
                        lemma_solve_basic(ms, (n - 1) as nat, (weight - item_price) as int, cm2);
                        assert(take.value as int <= (n - 1) * MAX_PROJECTED_POINTS);
                        assert((n - 1) * MAX_PROJECTED_POINTS + MAX_PROJECTED_POINTS <= 1_000_000
                            * MAX_PROJECTED_POINTS) by (nonlinear_arith)
                            requires
                                1 <= n <= 1_000_000,
                        ;
                        assert(1_000_000 * MAX_PROJECTED_POINTS
                            == 1_000_000_000_000_000) by (nonlinear_arith);
                    }
                    let cand_val = item_points + take.value;
                    if !best.feasible || cand_val >= best.value {
                        let mut chosen = clone_usize_vec(&take.chosen);
                        proof {
                            assert forall|w: int| 0 <= w < chosen@.len() implies ((
                            #[trigger] chosen@[w]) as int) < n - 1 by {
                                assert(index_set(take.chosen@).contains(take.chosen@[w] as int));
                                assert(take_spec.chosen.contains(chosen@[w] as int));
                            }
                            lemma_index_set_push(take.chosen@, (n - 1) as usize);
                        }
                        chosen.push(n - 1);
                        best = CacheValue { value: cand_val, feasible: true, chosen };
                        proof {
                            assert(cv_ok(best, cur));
                        }
                    } else {
                        proof {
                            assert(cur == prev);
                        }
                    }
                } else {
                    proof {
                        assert(cur == prev);
                    }
                }
            } else {
                proof {
                    assert(cur == prev);
                }
            }
            c3 += 1;
        }
        proof {
            assert(target == solve_branch(ms, n as nat, weight as int, cm, cm.len() as nat));
            assert(cv_ok(best, target));
        }
        let stored = best.duplicate();
        let ghost pre = self.cache@;
        self.cache.push((CacheKey { n, weight, categories }, stored));
        proof {
            assert forall|i: int| 0 <= i < self.cache@.len() implies entry_inv(
                self.context,
                #[trigger] self.cache@[i],
            ) by {
                if i < pre.len() {
                    assert(entry_inv(self.context, pre[i]));
                }
            }
            assert(key_matches(self.cache@[pre.len() as int].0, n, weight, categories@));
        }
        best
    }

    /// Runs the search for the whole context: all items, the full budget and
    /// the full constraint vector. The returned value is exactly the result
    /// of the top-level subproblem, and the cache afterwards holds it.
    pub fn optimize(&mut self) -> (r: CacheValue)
        requires
            old(self).wf(),
        ensures
            final(self).wf(),
            final(self).context == old(self).context,
            final(self).supply == old(self).supply,
            cv_ok(r, top_result(old(self).context)),
            exists|i: int|
                0 <= i < final(self).cache@.len() && key_matches(
                    #[trigger] final(self).cache@[i].0,
                    old(self).context.items@.len() as usize,
                    old(self).context.weight,
                    old(self).context.categories@,
                ),
            final(self).cache@.len() >= old(self).cache@.len(),
            forall|i: int| 0 <= i < old(self).cache@.len() ==> #[trigger] final(self).cache@[i]
                == old(self).cache@[i],
    {
        let n = self.context.items.len();
        let w = self.context.weight;
        let cats = clone_u32_vec(&self.context.categories);
        self.optimize_impl(n, w, cats)
    }
}

proof fn lemma_index_set_push(s: Seq<usize>, x: usize)
    ensures
        index_set(s.push(x)) == index_set(s).insert(x as int),
{
    assert(index_set(s.push(x)) =~= index_set(s).insert(x as int)) by {
        assert forall|i: int| index_set(s.push(x)).contains(i) implies index_set(s).insert(
            x as int,
        ).contains(i) by {
            let j = choose|j: int|
                0 <= j < s.push(x).len() && (#[trigger] s.push(x)[j]) as int == i;
            if j < s.len() {
                assert(s[j] as int == i);
            }
        }
        assert forall|i: int| index_set(s).insert(x as int).contains(i) implies index_set(
            s.push(x),
        ).contains(i) by {
            if i == x as int {
                assert(s.push(x)[s.len() as int] as int == i);
            } else {
                let j = choose|j: int| 0 <= j < s.len() && (#[trigger] s[j]) as int == i;
                assert(s.push(x)[j] as int == i);
            }
        }
    }
}

/// The models of the items at the chosen positions, in position order.
pub open spec fn lineup_models(items: Seq<Player>, chosen: Seq<usize>) -> Seq<ItemModel> {
    chosen.map_values(|i: usize| items[i as int]@)
}

/// Sums over a choice set whose members all lie below `k` are settled by the
/// first `k` positions.
proof fn lemma_sums_range(items: Seq<ItemModel>, s: Set<int>, k: nat, n: nat)
    requires
        k <= n,
        forall|i: int| s.contains(i) ==> i < k,
    ensures
        chosen_price_sum(items, s, n) == chosen_price_sum(items, s, k),
        chosen_points_sum(items, s, n) == chosen_points_sum(items, s, k),
        chosen_card(s, n) == chosen_card(s, k),
        forall|c: int| #[trigger] chosen_count(items, s, n, c) == chosen_count(items, s, k, c),
    decreases n,
{
    if n > k {
        lemma_sums_range(items, s, k, (n - 1) as nat);
        assert forall|c: int| #[trigger] chosen_count(items, s, n, c) == chosen_count(
            items,
            s,
            k,
            c,
        ) by {
            assert(chosen_count(items, s, (n - 1) as nat, c) == chosen_count(items, s, k, c));
        }
    }
}

/// Materializing a strictly increasing choice list gives a lineup whose
/// totals equal the choice set's sums.
proof fn lemma_materialize(items: Seq<Player>, chosen: Seq<usize>, n: nat)
    requires
        sorted_strict(chosen),
        n <= items.len(),
        forall|w: int| 0 <= w < chosen.len() ==> (#[trigger] chosen[w]) < n,
    ensures
        lineup_models(items, chosen).len() == chosen.len(),
        seq_price_sum(lineup_models(items, chosen)) == chosen_price_sum(
            models(items),
            index_set(chosen),
            n,
        ),
        seq_points_sum(lineup_models(items, chosen)) == chosen_points_sum(
            models(items),
            index_set(chosen),
            n,
        ),
        chosen.len() == chosen_card(index_set(chosen), n),
        forall|c: int| #[trigger] seq_cat_count(lineup_models(items, chosen), c) == chosen_count(
            models(items),
            index_set(chosen),
            n,
            c,
        ),
    decreases chosen.len(),
{
    let ms = models(items);
    let lm = lineup_models(items, chosen);
    if chosen.len() == 0 {
        lemma_index_set_empty(chosen);
        lemma_chosen_sums_empty(ms, index_set(chosen), n);
    } else {
        let m = chosen.last() as int;
        let prev = chosen.drop_last();
        assert(prev.push(chosen.last()) =~= chosen);
        lemma_index_set_push(prev, chosen.last());
        let sp = index_set(prev);
        let sc = index_set(chosen);
        assert(sc == sp.insert(m));
        assert(forall|w: int| 0 <= w < prev.len() ==> (#[trigger] prev[w]) < chosen.last());
        assert forall|i: int| sp.contains(i) implies i < m by {
            let w = choose|w: int| 0 <= w < prev.len() && (#[trigger] prev[w]) as int == i;
        }
        assert forall|i: int| sc.contains(i) implies i < m + 1 by {
            let w = choose|w: int| 0 <= w < chosen.len() && (#[trigger] chosen[w]) as int == i;
        }
        lemma_materialize(items, prev, m as nat);
        lemma_sums_range(ms, sc, (m + 1) as nat, n);
        lemma_sums_agree(ms, sc, sp, m as nat);
        assert(lineup_models(items, prev) =~= lm.drop_last());
        assert(lm.last() == items[m]@);
        assert(ms[m] == items[m]@);
        assert(sc.contains(m));
        assert(chosen_price_sum(ms, sc, (m + 1) as nat) == chosen_price_sum(ms, sc, m as nat)
            + ms[m].price);
        assert(chosen_points_sum(ms, sc, (m + 1) as nat) == chosen_points_sum(ms, sc, m as nat)
            + ms[m].points);
        assert(chosen_card(sc, (m + 1) as nat) == chosen_card(sc, m as nat) + 1);
        assert forall|c: int| #[trigger] seq_cat_count(lm, c) == chosen_count(ms, sc, n, c) by {
            assert(seq_cat_count(lineup_models(items, prev), c) == chosen_count(
                ms,
                sp,
                m as nat,
                c,
            ));
            assert(chosen_count(ms, sc, n, c) == chosen_count(ms, sc, (m + 1) as nat, c));
            assert(chosen_count(ms, sc, (m + 1) as nat, c) == chosen_count(ms, sc, m as nat, c)
                + if ms[m].cats.contains(c) {
                1int
            } else {
                0int
            });
            assert(chosen_count(ms, sc, m as nat, c) == chosen_count(ms, sp, m as nat, c));
            assert(seq_cat_count(lm, c) == seq_cat_count(lm.drop_last(), c) + if lm.last(
            ).cats.contains(c) {
                1int
            } else {
                0int
            });
        }
    }
}

/// Presentation order inside a lineup: projected points descending, stable.
pub open spec fn insert_pts(s: Seq<ItemModel>, x: ItemModel) -> Seq<ItemModel>
    decreases s.len(),
{
    if s.len() == 0 {
        seq![x]
    } else if s.last().points >= x.points {
        s.push(x)
    } else {
        insert_pts(s.drop_last(), x).push(s.last())
    }
}

/// Stable insertion sort of a lineup by projected points descending.
pub open spec fn sort_pts(s: Seq<ItemModel>) -> Seq<ItemModel>
    decreases s.len(),
{
    if s.len() == 0 {
        s
    } else {
        insert_pts(sort_pts(s.drop_last()), s.last())
    }
}

/// The items are in presentation order: projected points descending.
pub open spec fn pts_sorted(s: Seq<ItemModel>) -> bool {
    forall|a: int, b: int|
        0 <= a < b < s.len() ==> (#[trigger] s[a]).points >= (#[trigger] s[b]).points
}

/// Stable insertion into a presentation-ordered lineup keeps the order, and
/// adds nothing but the new item.
proof fn lemma_insert_pts_sorted(s: Seq<ItemModel>, x: ItemModel)
    requires
        pts_sorted(s),
    ensures
        pts_sorted(insert_pts(s, x)),
        forall|w: int| 0 <= w < insert_pts(s, x).len() ==> (s.contains(
            #[trigger] insert_pts(s, x)[w],
        ) || insert_pts(s, x)[w] == x),
    decreases s.len(),
{
    let t = insert_pts(s, x);
    if s.len() == 0 {
    } else if s.last().points >= x.points {
        assert forall|a: int, b: int|
            0 <= a < b < t.len() implies (#[trigger] t[a]).points >= (#[trigger] t[b]).points by {
            if b == t.len() - 1 {
                assert(t[a] == s[a] && t[b] == x);
                assert(s[a].points >= s[s.len() - 1].points) by {
                    if a < s.len() - 1 {
                        assert((#[trigger] s[a]).points >= (#[trigger] s[s.len() - 1]).points);
                    }
                }
            } else {
                assert(t[a] == s[a] && t[b] == s[b]);
            }
        }
        assert forall|w: int| 0 <= w < t.len() implies (s.contains(#[trigger] t[w]) || t[w]
            == x) by {
            if w < s.len() {
                assert(t[w] == s[w]);
            }
        }
    } else {
        assert(pts_sorted(s.drop_last())) by {
            assert(forall|a: int, b: int|
                0 <= a < b < s.drop_last().len() ==> s.drop_last()[a] == s[a]
                    && s.drop_last()[b] == s[b]);
        }
        lemma_insert_pts_sorted(s.drop_last(), x);
        let t0 = insert_pts(s.drop_last(), x);
        assert forall|a: int, b: int|
            0 <= a < b < t.len() implies (#[trigger] t[a]).points >= (#[trigger] t[b]).points by {
            if b == t.len() - 1 {
                assert(t[a] == t0[a] && t[b] == s.last());
                if t0[a] == x {
                } else {
                    assert(s.drop_last().contains(t0[a]));
                    let u = choose|u: int|
                        0 <= u < s.drop_last().len() && s.drop_last()[u] == t0[a];
                    assert(s[u] == t0[a]);
                    assert((#[trigger] s[u]).points >= (#[trigger] s[s.len() - 1]).points);
                }
            } else {
                assert(t[a] == t0[a] && t[b] == t0[b]);
            }
        }
        assert forall|w: int| 0 <= w < t.len() implies (s.contains(#[trigger] t[w]) || t[w]
            == x) by {
            if w < t0.len() {
                assert(t[w] == t0[w]);
                if s.drop_last().contains(t0[w]) {
                    let u = choose|u: int|
                        0 <= u < s.drop_last().len() && s.drop_last()[u] == t0[w];
                    assert(s[u] == t0[w]);
                }
            } else {
                assert(t[w] == s.last());
                assert(s[s.len() - 1] == s.last());
            }
        }
    }
}

/// Sorting a lineup for presentation leaves it presentation-ordered.
pub proof fn lemma_sort_pts_sorted(s: Seq<ItemModel>)
    ensures
        pts_sorted(sort_pts(s)),
    decreases s.len(),
{
    if s.len() > 0 {
        lemma_sort_pts_sorted(s.drop_last());
        lemma_insert_pts_sorted(sort_pts(s.drop_last()), s.last());
    }
}

/// The stable insertion step keeps the multiset of items.
proof fn lemma_insert_pts_multiset(s: Seq<ItemModel>, x: ItemModel)
    ensures
        insert_pts(s, x).to_multiset() == s.to_multiset().insert(x),
        insert_pts(s, x).len() == s.len() + 1,
    decreases s.len(),
{
    broadcast use vstd::seq_lib::group_to_multiset_ensures;

    if s.len() > 0 && !(s.last().points >= x.points) {
        lemma_insert_pts_multiset(s.drop_last(), x);
        assert(s.drop_last().push(s.last()) =~= s);
        assert(insert_pts(s, x).to_multiset() =~= s.to_multiset().insert(x));
    }
}

/// Sorting a lineup for presentation keeps the multiset of items.
proof fn lemma_sort_pts_multiset(s: Seq<ItemModel>)
    ensures
        sort_pts(s).to_multiset() == s.to_multiset(),
        sort_pts(s).len() == s.len(),
    decreases s.len(),
{
    broadcast use vstd::seq_lib::group_to_multiset_ensures;

    if s.len() > 0 {
        lemma_sort_pts_multiset(s.drop_last());
        lemma_insert_pts_multiset(sort_pts(s.drop_last()), s.last());
        assert(s.drop_last().push(s.last()) =~= s);
        assert(sort_pts(s).to_multiset() =~= s.to_multiset());
    }
}

/// Removing one element removes its contribution from every total.
proof fn lemma_seq_sums_remove(s: Seq<ItemModel>, w: int)
    requires
        0 <= w < s.len(),
    ensures
        seq_price_sum(s) == seq_price_sum(s.remove(w)) + s[w].price,
        seq_points_sum(s) == seq_points_sum(s.remove(w)) + s[w].points,
        forall|c: int| #[trigger] seq_cat_count(s, c) == seq_cat_count(s.remove(w), c) + (if
            s[w].cats.contains(c) {
            1int
        } else {
            0int
        }),
    decreases s.len(),
{
    if w == s.len() - 1 {
        assert(s.remove(w) =~= s.drop_last());
    } else {
        lemma_seq_sums_remove(s.drop_last(), w);
        assert(s.remove(w).drop_last() =~= s.drop_last().remove(w));
        assert(s.remove(w).last() == s.last());
        assert forall|c: int| #[trigger] seq_cat_count(s, c) == seq_cat_count(s.remove(w), c)
            + (if s[w].cats.contains(c) {
            1int
        } else {
            0int
        }) by {
            assert(seq_cat_count(s.drop_last(), c) == seq_cat_count(s.drop_last().remove(w), c)
                + (if s.drop_last()[w].cats.contains(c) {
                1int
            } else {
                0int
            }));
        }
    }
}

/// Two lineups holding the same items have the same totals, and one without
/// repeated ids stays so under any rearrangement.
proof fn lemma_multiset_eq_sums(s1: Seq<ItemModel>, s2: Seq<ItemModel>)
    requires
        s1.to_multiset() == s2.to_multiset(),
    ensures
        seq_price_sum(s1) == seq_price_sum(s2),
        seq_points_sum(s1) == seq_points_sum(s2),
        forall|c: int| #[trigger] seq_cat_count(s1, c) == seq_cat_count(s2, c),
        s1.len() == s2.len(),
    decreases s1.len(),
{
    broadcast use vstd::seq_lib::group_to_multiset_ensures;

    if s1.len() == 0 {
        assert(s2.to_multiset().len() == 0);
    } else {
        let e = s1.last();
        assert(s1.to_multiset().count(e) > 0) by {
            assert(s1.contains(e));
        }
        assert(s2.contains(e));
        let w = choose|w: int| 0 <= w < s2.len() && s2[w] == e;
        assert(s1.drop_last() =~= s1.remove(s1.len() - 1));
        assert(s1.remove(s1.len() - 1).to_multiset() =~= s1.to_multiset().remove(e));
        assert(s2.remove(w).to_multiset() =~= s2.to_multiset().remove(e));
        lemma_multiset_eq_sums(s1.drop_last(), s2.remove(w));
        lemma_seq_sums_remove(s2, w);
        assert forall|c: int| #[trigger] seq_cat_count(s1, c) == seq_cat_count(s2, c) by {
            assert(seq_cat_count(s1.drop_last(), c) == seq_cat_count(s2.remove(w), c));
        }
    }
}

/// A rearrangement of a lineup without repeated ids has none either.
proof fn lemma_multiset_eq_distinct(s1: Seq<ItemModel>, s2: Seq<ItemModel>)
    requires
        s1.to_multiset() == s2.to_multiset(),
        crate::player_pool::distinct_ids(s1),
    ensures
        crate::player_pool::distinct_ids(s2),
{
    broadcast use vstd::seq_lib::group_to_multiset_ensures;
    broadcast use vstd::multiset::group_multiset_axioms;

    assert forall|i: int, j: int| 0 <= i < j < s2.len() implies (#[trigger] s2[i]).id != (
    #[trigger] s2[j]).id by {
        assert(s2.contains(s2[i]));
        assert(s2.contains(s2[j]));
        assert(s2.to_multiset().count(s2[i]) > 0);
        assert(s2.to_multiset().count(s2[j]) > 0);
        if s2[i] == s2[j] {
            assert(s2.remove(i).to_multiset() =~= s2.to_multiset().remove(s2[i]));
            assert(s2.remove(i)[j - 1] == s2[j]);
            assert(s2.remove(i).contains(s2[j]));
            assert(s2.remove(i).to_multiset().count(s2[i]) > 0);
            assert(s2.to_multiset().count(s2[i]) >= 2);
            assert(s1.to_multiset().count(s2[i]) >= 2);
            lemma_seq_counts_le_one(s1);
        } else {
            assert(s1.to_multiset().count(s2[i]) > 0);
            assert(s1.to_multiset().count(s2[j]) > 0);
            assert(s1.contains(s2[i]));
            assert(s1.contains(s2[j]));
            let w1 = choose|w: int| 0 <= w < s1.len() && s1[w] == s2[i];
            let w2 = choose|w: int| 0 <= w < s1.len() && s1[w] == s2[j];
            assert(w1 != w2);
            if w1 < w2 {
                assert(s1[w1].id != s1[w2].id);
            } else {
                assert(s1[w2].id != s1[w1].id);
            }
        }
    }
}

/// A lineup without repeated ids holds each item at most once.
proof fn lemma_seq_counts_le_one(s: Seq<ItemModel>)
    requires
        crate::player_pool::distinct_ids(s),
    ensures
        forall|m: ItemModel| #[trigger] s.to_multiset().count(m) <= 1,
{
    broadcast use vstd::seq_lib::group_to_multiset_ensures;

    assert(s.no_duplicates()) by {
        assert forall|i: int, j: int|
            0 <= i < s.len() && 0 <= j < s.len() && i != j implies s[i] != s[j] by {
            if i < j {
                assert(s[i].id != s[j].id);
            } else {
                assert(s[j].id != s[i].id);
            }
        }
    }
    s.lemma_multiset_has_no_duplicates();
    assert forall|m: ItemModel| #[trigger] s.to_multiset().count(m) <= 1 by {
        if s.to_multiset().count(m) > 0 {
            assert(s.to_multiset().contains(m));
        }
    }
}

/// The entry settles the full search: it is feasible and its key carries
/// the whole budget and the whole constraint vector, so its chosen set is a
/// complete lineup, not a partial solution of a decremented subproblem.
pub open spec fn complete_entry(e: (CacheKey, CacheValue), weight: u32, cats: Seq<u32>) -> bool {
    &&& e.1.feasible
    &&& e.0.weight == weight
    &&& e.0.categories@ == cats
}

/// The cache positions of the complete feasible entries, in caching order.
pub open spec fn complete_idxs(
    cache: Seq<(CacheKey, CacheValue)>,
    weight: u32,
    cats: Seq<u32>,
) -> Seq<int>
    decreases cache.len(),
{
    if cache.len() == 0 {
        Seq::empty()
    } else {
        let pre = complete_idxs(cache.drop_last(), weight, cats);
        if complete_entry(cache.last(), weight, cats) {
            pre.push(cache.len() - 1)
        } else {
            pre
        }
    }
}

/// Stable ranking insertion: the new entry goes after every entry whose
/// value at least ties it.
pub open spec fn insert_ranked(cache: Seq<(CacheKey, CacheValue)>, s: Seq<int>, x: int) -> Seq<
    int,
>
    decreases s.len(),
{
    if s.len() == 0 {
        seq![x]
    } else if cache[s.last()].1.value >= cache[x].1.value {
        s.push(x)
    } else {
        insert_ranked(cache, s.drop_last(), x).push(s.last())
    }
}

/// The feasible cache entries ranked by value descending, stably: an
/// earlier-cached entry precedes a later one of equal value.
pub open spec fn ranked_idxs_of(cache: Seq<(CacheKey, CacheValue)>, s: Seq<int>) -> Seq<int>
    decreases s.len(),
{
    if s.len() == 0 {
        s
    } else {
        insert_ranked(cache, ranked_idxs_of(cache, s.drop_last()), s.last())
    }
}

/// The positions of the complete feasible cache entries, best value first.
pub open spec fn ranked_idxs(
    cache: Seq<(CacheKey, CacheValue)>,
    weight: u32,
    cats: Seq<u32>,
) -> Seq<int> {
    ranked_idxs_of(cache, complete_idxs(cache, weight, cats))
}

/// Of the ranked positions, those whose choice set has not appeared before,
/// in rank order: the distinct lineups, best first.
pub open spec fn distinct_picks(cache: Seq<(CacheKey, CacheValue)>, s: Seq<int>) -> Seq<int>
    decreases s.len(),
{
    if s.len() == 0 {
        s
    } else {
        let pre = distinct_picks(cache, s.drop_last());
        if exists|w: int|
            0 <= w < pre.len() && cache[#[trigger] pre[w]].1.chosen@ == cache[s.last()].1.chosen@ {
            pre
        } else {
            pre.push(s.last())
        }
    }
}

/// Every complete-entry position is a valid cache position of a complete
/// feasible entry, and every such position is listed.
proof fn lemma_complete_idxs_valid(cache: Seq<(CacheKey, CacheValue)>, weight: u32, cats: Seq<u32>)
    ensures
        forall|w: int| 0 <= w < complete_idxs(cache, weight, cats).len() ==> 0 <= #[trigger] complete_idxs(cache, weight, cats)[w]
            < cache.len() && complete_entry(cache[complete_idxs(cache, weight, cats)[w]], weight, cats),
        forall|i: int|
            0 <= i < cache.len() && complete_entry(#[trigger] cache[i], weight, cats)
                ==> complete_idxs(cache, weight, cats).contains(i),
    decreases cache.len(),
{
    if cache.len() > 0 {
        lemma_complete_idxs_valid(cache.drop_last(), weight, cats);
        let pre = complete_idxs(cache.drop_last(), weight, cats);
        let cur = complete_idxs(cache, weight, cats);
        assert forall|w: int| 0 <= w < cur.len() implies 0 <= (#[trigger] cur[w]) < cache.len()
            && complete_entry(cache[cur[w]], weight, cats) by {
            if w < pre.len() {
                assert(cur[w] == pre[w]);
                assert(cache.drop_last()[pre[w]] == cache[pre[w]]);
            } else {
                assert(cur[w] == cache.len() - 1);
            }
        }
        assert forall|i: int|
            0 <= i < cache.len() && complete_entry(#[trigger] cache[i], weight, cats) implies
            cur.contains(i) by {
            if i < cache.len() - 1 {
                assert(cache.drop_last()[i] == cache[i]);
                assert(pre.contains(i));
                let w = choose|w: int| 0 <= w < pre.len() && pre[w] == i;
                assert(cur[w] == i);
            } else {
                assert(cur.last() == i);
            }
        }
    }
}

/// Ranking inserts exactly one position and only rearranges.
proof fn lemma_insert_ranked_valid(cache: Seq<(CacheKey, CacheValue)>, s: Seq<int>, x: int)
    ensures
        insert_ranked(cache, s, x).len() == s.len() + 1,
        forall|w: int| 0 <= w < insert_ranked(cache, s, x).len() ==> (s.contains(
            #[trigger] insert_ranked(cache, s, x)[w],
        ) || insert_ranked(cache, s, x)[w] == x),
        forall|e: int| s.contains(e) || e == x ==> #[trigger] insert_ranked(
            cache,
            s,
            x,
        ).contains(e),
    decreases s.len(),
{
    if s.len() > 0 && !(cache[s.last()].1.value >= cache[x].1.value) {
        lemma_insert_ranked_valid(cache, s.drop_last(), x);
        assert forall|w: int| 0 <= w < insert_ranked(cache, s, x).len() implies (s.contains(
            #[trigger] insert_ranked(cache, s, x)[w],
        ) || insert_ranked(cache, s, x)[w] == x) by {
            let t = insert_ranked(cache, s.drop_last(), x);
            if w < t.len() {
                assert(insert_ranked(cache, s, x)[w] == t[w]);
                if s.drop_last().contains(t[w]) {
                    let u = choose|u: int|
                        0 <= u < s.drop_last().len() && s.drop_last()[u] == t[w];
                    assert(s[u] == t[w]);
                }
            } else {
                assert(insert_ranked(cache, s, x)[w] == s.last());
                assert(s[s.len() - 1] == s.last());
            }
        }
        assert forall|e: int| s.contains(e) || e == x implies #[trigger] insert_ranked(
            cache,
            s,
            x,
        ).contains(e) by {
            let t = insert_ranked(cache, s.drop_last(), x);
            if e == x || s.drop_last().contains(e) {
                assert(t.contains(e)) by {
                    if s.drop_last().contains(e) {
                        assert(s.drop_last().contains(e) || e == x);
                    }
                }
                let u = choose|u: int| 0 <= u < t.len() && t[u] == e;
                assert(insert_ranked(cache, s, x)[u] == e);
            } else {
                let u = choose|u: int| 0 <= u < s.len() && s[u] == e;
                if u < s.len() - 1 {
                    assert(s.drop_last()[u] == e);
                } else {
                    assert(insert_ranked(cache, s, x)[t.len() as int] == s.last());
                }
            }
        }
    } else {
        assert forall|w: int| 0 <= w < insert_ranked(cache, s, x).len() implies (s.contains(
            #[trigger] insert_ranked(cache, s, x)[w],
        ) || insert_ranked(cache, s, x)[w] == x) by {
            if w < s.len() {
                assert(insert_ranked(cache, s, x)[w] == s[w]);
            }
        }
        assert forall|e: int| s.contains(e) || e == x implies #[trigger] insert_ranked(
            cache,
            s,
            x,
        ).contains(e) by {
            if e == x {
                assert(insert_ranked(cache, s, x)[s.len() as int] == x);
            } else {
                let u = choose|u: int| 0 <= u < s.len() && s[u] == e;
                assert(insert_ranked(cache, s, x)[u] == e);
            }
        }
    }
}

/// Ranking is a rearrangement: it keeps the number of positions and
/// contains exactly the given ones.
proof fn lemma_ranked_idxs_valid(cache: Seq<(CacheKey, CacheValue)>, s: Seq<int>)
    ensures
        ranked_idxs_of(cache, s).len() == s.len(),
        forall|w: int| 0 <= w < ranked_idxs_of(cache, s).len() ==> s.contains(
            #[trigger] ranked_idxs_of(cache, s)[w],
        ),
        forall|e: int| s.contains(e) ==> #[trigger] ranked_idxs_of(cache, s).contains(e),
    decreases s.len(),
{
    if s.len() > 0 {
        lemma_ranked_idxs_valid(cache, s.drop_last());
        lemma_insert_ranked_valid(cache, ranked_idxs_of(cache, s.drop_last()), s.last());
        assert forall|w: int| 0 <= w < ranked_idxs_of(cache, s).len() implies s.contains(
            #[trigger] ranked_idxs_of(cache, s)[w],
        ) by {
            let t = ranked_idxs_of(cache, s.drop_last());
            let e = ranked_idxs_of(cache, s)[w];
            if t.contains(e) {
                let u = choose|u: int| 0 <= u < t.len() && t[u] == e;
                assert(s.drop_last().contains(e));
                let u2 = choose|u2: int| 0 <= u2 < s.drop_last().len() && s.drop_last()[u2] == e;
                assert(s[u2] == e);
            } else {
                assert(e == s.last());
                assert(s[s.len() - 1] == e);
            }
        }
        assert forall|e: int| s.contains(e) implies #[trigger] ranked_idxs_of(
            cache,
            s,
        ).contains(e) by {
            let t = ranked_idxs_of(cache, s.drop_last());
            let u = choose|u: int| 0 <= u < s.len() && s[u] == e;
            if u < s.len() - 1 {
                assert(s.drop_last()[u] == e);
                assert(t.contains(e));
                assert(t.contains(e) || e == s.last());
            } else {
                assert(e == s.last());
            }
            assert(insert_ranked(cache, t, s.last()).contains(e));
        }
    }
}

/// Characterizes the stable points-descending insertion point: with every
/// element from `p` on strictly lighter than `x` and the element before `p`
/// (if any) at least as heavy, inserting `x` at `p` realizes the stable
/// insertion.
proof fn lemma_insert_pts_at(s: Seq<ItemModel>, x: ItemModel, p: int)
    requires
        0 <= p <= s.len(),
        forall|w: int| p <= w < s.len() ==> (#[trigger] s[w]).points < x.points,
        p == 0 || s[p - 1].points >= x.points,
    ensures
        insert_pts(s, x) == s.take(p) + seq![x] + s.skip(p),
    decreases s.len(),
{
    if s.len() == 0 {
        assert(insert_pts(s, x) =~= s.take(p) + seq![x] + s.skip(p));
    } else if s.last().points >= x.points {
        assert(p == s.len());
        assert(insert_pts(s, x) =~= s.take(p) + seq![x] + s.skip(p));
    } else {
        assert(p < s.len());
        lemma_insert_pts_at(s.drop_last(), x, p);
        assert(s.drop_last().take(p) =~= s.take(p));
        assert(s.drop_last().skip(p).push(s.last()) =~= s.skip(p));
        assert(insert_pts(s, x) =~= s.take(p) + seq![x] + s.skip(p));
    }
}

/// The same characterization for the ranking insertion.
proof fn lemma_insert_ranked_at(cache: Seq<(CacheKey, CacheValue)>, s: Seq<int>, x: int, p: int)
    requires
        0 <= p <= s.len(),
        forall|w: int| p <= w < s.len() ==> cache[#[trigger] s[w]].1.value < cache[x].1.value,
        p == 0 || cache[s[p - 1]].1.value >= cache[x].1.value,
    ensures
        insert_ranked(cache, s, x) == s.take(p) + seq![x] + s.skip(p),
    decreases s.len(),
{
    if s.len() == 0 {
        assert(insert_ranked(cache, s, x) =~= s.take(p) + seq![x] + s.skip(p));
    } else if cache[s.last()].1.value >= cache[x].1.value {
        assert(s[s.len() - 1] == s.last());
        assert(p == s.len());
        assert(insert_ranked(cache, s, x) =~= s.take(p) + seq![x] + s.skip(p));
    } else {
        assert(s[s.len() - 1] == s.last());
        assert(p < s.len());
        lemma_insert_ranked_at(cache, s.drop_last(), x, p);
        assert(s.drop_last().take(p) =~= s.take(p));
        assert(s.drop_last().skip(p).push(s.last()) =~= s.skip(p));
        assert(insert_ranked(cache, s, x) =~= s.take(p) + seq![x] + s.skip(p));
    }
}

/// Sorts a lineup's players by projected points descending, stably.
#[verifier::loop_isolation(false)]
fn sort_players_by_points(v: Vec<Player>) -> (r: Vec<Player>)
    ensures
        models(r@) == sort_pts(models(v@)),
{
    let ghost vm = models(v@);
    let mut r: Vec<Player> = Vec::new();
    let mut j: usize = 0;
    while j < v.len()
        invariant
            j <= v@.len(),
            vm == models(v@),
            models(r@) == sort_pts(vm.take(j as int)),
            r@.len() == j,
        decreases v@.len() - j,
    {
        let x = clone_player(&v[j]);
        let mut p: usize = r.len();
        while p > 0 && r[p - 1].projected_points < x.projected_points
            invariant
                p <= r@.len(),
                forall|w: int| p <= w < r@.len() ==> (#[trigger] models(r@)[w]).points
                    < x@.points,
            decreases p,
        {
            proof {
                assert(models(r@)[p - 1] == r@[p - 1]@);
            }
            p -= 1;
        }
        proof {
            if p > 0 {
                assert(models(r@)[p - 1] == r@[p - 1]@);
            }
            lemma_insert_pts_at(models(r@), x@, p as int);
            assert(vm.take(j + 1int).drop_last() =~= vm.take(j as int));
            assert(vm.take(j + 1int).last() == vm[j as int]);
            assert(vm[j as int] == v@[j as int]@);
            assert(models(r@.insert(p as int, x)) =~= models(r@).take(p as int) + seq![x@]
                + models(r@).skip(p as int));
        }
        r.insert(p, x);
        j += 1;
    }
    proof {
        assert(vm.take(v@.len() as int) =~= vm);
    }
    r
}

impl Optimizer {
    /// Scans the cache for the feasible entries that settle the full search
    /// (the context's whole budget and whole constraint vector), ranks them
    /// by value descending (stable: an earlier-cached result precedes a
    /// later equal-valued one), drops every entry repeating an
    /// already-ranked choice set, and materializes the first `take_n` into
    /// lineups, each re-sorted by projected points for presentation.
    ///
    /// Every returned lineup fits the context's budget, holds exactly as
    /// many items as the requirements total, covers every category's
    /// requirement, repeats no item id, and consists of catalog items; the
    /// lineups are pairwise distinct and come best total first. On a cache
    /// holding the top-level entry (as one left by a completed search), the
    /// first lineup carries exactly the search's best value, and lineups
    /// come back exactly when that search is feasible.
    #[verifier::loop_isolation(false)]
    #[verifier::rlimit(100)]
    pub fn rank(&self, take_n: usize) -> (r: Vec<Lineup>)
        requires
            self.wf(),
            crate::player_pool::distinct_ids(models(self.context.items@)),
        ensures
            ({
                let rk = ranked_idxs(self.cache@, self.context.weight, self.context.categories@);
                let pk = distinct_picks(self.cache@, rk);
                let cm = counts_model(self.context.categories@);
                let top = top_result(self.context);
                let has_top = exists|i: int|
                    0 <= i < self.cache@.len() && key_matches(
                        (#[trigger] self.cache@[i]).0,
                        self.context.items@.len() as usize,
                        self.context.weight,
                        self.context.categories@,
                    );
                &&& r@.len() == (if take_n <= pk.len() {
                    take_n as int
                } else {
                    pk.len() as int
                })
                &&& r@.len() > 0 ==> top.feasible
                &&& has_top && take_n > 0 ==> (r@.len() > 0 <==> top.feasible)
                &&& has_top && r@.len() > 0 ==> seq_points_sum(r@[0]@) == top.value
                &&& forall|k: int| 0 <= k < r@.len() ==> (#[trigger] r@[k])@ == sort_pts(
                    lineup_models(self.context.items@, self.cache@[pk[k]].1.chosen@),
                )
                &&& forall|k: int| 0 <= k < r@.len() ==> seq_price_sum((#[trigger] r@[k])@)
                    <= self.context.weight as int
                &&& forall|k: int| 0 <= k < r@.len() ==> seq_points_sum((#[trigger] r@[k])@)
                    == self.cache@[pk[k]].1.value as int
                &&& forall|k: int| 0 <= k < r@.len() ==> (#[trigger] r@[k])@.len() == sum_counts(
                    cm,
                )
                &&& forall|k: int, c: int|
                    0 <= k < r@.len() && 0 <= c < cm.len() ==> #[trigger] seq_cat_count(
                        r@[k]@,
                        c,
                    ) >= cm[c]
                &&& forall|k: int, i: int|
                    0 <= k < r@.len() && 0 <= i < r@[k]@.len() ==> #[trigger] models(
                        self.context.items@,
                    ).contains(r@[k]@[i])
                &&& forall|k: int| 0 <= k < r@.len() ==> crate::player_pool::distinct_ids(
                    (#[trigger] r@[k])@,
                )
                &&& forall|k: int| 0 <= k < r@.len() ==> (#[trigger] r@[k]).wf()
                &&& forall|k: int| 0 <= k < r@.len() ==> pts_sorted((#[trigger] r@[k])@)
                &&& forall|k1: int, k2: int|
                    0 <= k1 < k2 < r@.len() ==> seq_points_sum((#[trigger] r@[k1])@)
                        >= seq_points_sum((#[trigger] r@[k2])@)
                &&& forall|k1: int, k2: int|
                    0 <= k1 < k2 < r@.len() ==> (#[trigger] r@[k1])@ != (#[trigger] r@[k2])@
            }),
    {
        let ghost cache_s = self.cache@;
        let ghost items_s = self.context.items@;
        let ghost ms = models(items_s);
        let ghost wgt = self.context.weight;
        let ghost catsv = self.context.categories@;
        let ghost cm = counts_model(catsv);
        proof {
            lemma_complete_idxs_valid(cache_s, wgt, catsv);
            lemma_ranked_idxs_valid(cache_s, complete_idxs(cache_s, wgt, catsv));
        }
        // Retain the complete feasible entries, in caching order.
        let mut feas: Vec<usize> = Vec::new();
        let mut i: usize = 0;
        while i < self.cache.len()
            invariant
                i <= cache_s.len(),
                feas@.map_values(|u: usize| u as int) == complete_idxs(
                    cache_s.take(i as int),
                    wgt,
                    catsv,
                ),
                forall|w: int| 0 <= w < feas@.len() ==> (#[trigger] feas@[w]) < i,
            decreases cache_s.len() - i,
        {
            proof {
                assert(cache_s.take(i + 1int).drop_last() =~= cache_s.take(i as int));
                assert(cache_s.take(i + 1int).last() == cache_s[i as int]);
            }
            let keep = {
                let e = &self.cache[i];
                e.1.feasible && e.0.weight == self.context.weight && u32_vec_eq(
                    &e.0.categories,
                    &self.context.categories,
                )
            };
            if keep {
                feas.push(i);
                proof {
                    assert(feas@.map_values(|u: usize| u as int) =~= complete_idxs(
                        cache_s.take(i + 1int),
                        wgt,
                        catsv,
                    ));
                }
            }
            i += 1;
        }
        proof {
            assert(cache_s.take(cache_s.len() as int) =~= cache_s);
        }
        let ghost fx = complete_idxs(cache_s, wgt, catsv);
        // Rank them by value descending, stably.
        let mut ranked: Vec<usize> = Vec::new();
        let mut j: usize = 0;
        while j < feas.len()
            invariant
                j <= feas@.len(),
                fx == complete_idxs(cache_s, wgt, catsv),
                feas@.map_values(|u: usize| u as int) == fx,
                forall|w: int| 0 <= w < feas@.len() ==> (#[trigger] feas@[w]) < cache_s.len(),
                ranked@.map_values(|u: usize| u as int) == ranked_idxs_of(
                    cache_s,
                    fx.take(j as int),
                ),
                ranked@.len() == j,
                forall|w: int| 0 <= w < ranked@.len() ==> (#[trigger] ranked@[w])
                    < cache_s.len(),
                forall|a: int, b: int|
                    0 <= a < b < ranked@.len() ==> cache_s[#[trigger] ranked@[a] as int].1.value
                        >= cache_s[#[trigger] ranked@[b] as int].1.value,
            decreases feas@.len() - j,
        {
            let x = feas[j];
            proof {
                assert(feas@.map_values(|u: usize| u as int)[j as int] == x as int);
            }
            let mut p: usize = ranked.len();
            while p > 0 && self.cache[ranked[p - 1]].1.value < self.cache[x].1.value
                invariant
                    p <= ranked@.len(),
                    forall|w: int| p <= w < ranked@.len() ==> cache_s[#[trigger] ranked@[w] as int].1.value < cache_s[x as int].1.value,
                decreases p,
            {
                p -= 1;
            }
            let ghost rm = ranked@.map_values(|u: usize| u as int);
            proof {
                assert forall|w: int| p <= w < rm.len() implies cache_s[#[trigger] rm[w]].1.value
                    < cache_s[x as int].1.value by {
                    assert(rm[w] == ranked@[w] as int);
                }
                if p > 0 {
                    assert(rm[p - 1] == ranked@[p - 1] as int);
                }
                lemma_insert_ranked_at(cache_s, rm, x as int, p as int);
                assert(fx.take(j + 1int).drop_last() =~= fx.take(j as int));
                assert(fx.take(j + 1int).last() == fx[j as int]);
                assert(fx[j as int] == x as int);
                assert(ranked@.insert(p as int, x).map_values(|u: usize| u as int) =~= rm.take(
                    p as int,
                ) + seq![x as int] + rm.skip(p as int));
            }
            let ghost ranked_old = ranked@;
            ranked.insert(p, x);
            proof {
                assert forall|a: int, b: int|
                    0 <= a < b < ranked@.len() implies cache_s[#[trigger] ranked@[a] as int].1.value
                        >= cache_s[#[trigger] ranked@[b] as int].1.value by {
                    if a < p && b < p {
                        assert(ranked@[a] == ranked_old[a] && ranked@[b] == ranked_old[b]);
                    } else if a < p && b == p {
                        assert(ranked@[a] == ranked_old[a] && ranked@[b] == x);
                    } else if a < p && b > p {
                        assert(ranked@[a] == ranked_old[a] && ranked@[b] == ranked_old[b - 1]);
                    } else if a == p && b > p {
                        assert(ranked@[a] == x && ranked@[b] == ranked_old[b - 1]);
                    } else {
                        assert(ranked@[a] == ranked_old[a - 1] && ranked@[b] == ranked_old[b
                            - 1]);
                    }
                }
            }
            j += 1;
        }
        proof {
            assert(fx.take(fx.len() as int) =~= fx);
        }
        let ghost rk = ranked_idxs(cache_s, wgt, catsv);
        proof {
            assert(ranked@.map_values(|u: usize| u as int) == rk);
            assert forall|k1: int, k2: int|
                0 <= k1 < k2 < rk.len() implies cache_s[#[trigger] rk[k1]].1.value
                    >= cache_s[#[trigger] rk[k2]].1.value by {
                assert(rk[k1] == ranked@[k1] as int);
                assert(rk[k2] == ranked@[k2] as int);
            }
            lemma_distinct_picks_props(cache_s, rk);
        }
        // Drop entries repeating an already-ranked choice set.
        let mut picked: Vec<usize> = Vec::new();
        let mut j2: usize = 0;
        while j2 < ranked.len()
            invariant
                j2 <= ranked@.len(),
                rk == ranked_idxs(cache_s, wgt, catsv),
                ranked@.map_values(|u: usize| u as int) == rk,
                forall|w: int| 0 <= w < ranked@.len() ==> (#[trigger] ranked@[w])
                    < cache_s.len(),
                picked@.map_values(|u: usize| u as int) == distinct_picks(
                    cache_s,
                    rk.take(j2 as int),
                ),
                forall|w: int| 0 <= w < picked@.len() ==> (#[trigger] picked@[w])
                    < cache_s.len(),
            decreases ranked@.len() - j2,
        {
            let x = ranked[j2];
            proof {
                assert(ranked@.map_values(|u: usize| u as int)[j2 as int] == x as int);
            }
            let ghost pm = picked@.map_values(|u: usize| u as int);
            let mut dup = false;
            let mut w2: usize = 0;
            while w2 < picked.len()
                invariant
                    w2 <= picked@.len(),
                    pm == picked@.map_values(|u: usize| u as int),
                    forall|w: int| 0 <= w < picked@.len() ==> (#[trigger] picked@[w])
                        < cache_s.len(),
                    x < cache_s.len(),
                    dup <==> exists|ww: int|
                        0 <= ww < w2 && cache_s[#[trigger] pm[ww]].1.chosen@ == cache_s[x as int].1.chosen@,
                decreases picked@.len() - w2,
            {
                proof {
                    assert(pm[w2 as int] == picked@[w2 as int] as int);
                }
                if crate::common::usize_vec_eq(
                    &self.cache[picked[w2]].1.chosen,
                    &self.cache[x].1.chosen,
                ) {
                    dup = true;
                }
                w2 += 1;
            }
            proof {
                assert(rk.take(j2 + 1int).drop_last() =~= rk.take(j2 as int));
                assert(rk.take(j2 + 1int).last() == rk[j2 as int]);
                assert(rk[j2 as int] == x as int);
                let pre = distinct_picks(cache_s, rk.take(j2 as int));
                assert(dup <==> exists|ww: int|
                    0 <= ww < pre.len() && cache_s[#[trigger] pre[ww]].1.chosen@ == cache_s[x as int].1.chosen@) by {
                    assert(pm == pre);
                    if dup {
                        let ww = choose|ww: int|
                            0 <= ww < picked@.len() && cache_s[#[trigger] pm[ww]].1.chosen@
                                == cache_s[x as int].1.chosen@;
                        assert(pre[ww] == pm[ww]);
                    }
                    if exists|ww: int|
                        0 <= ww < pre.len() && cache_s[#[trigger] pre[ww]].1.chosen@
                            == cache_s[x as int].1.chosen@ {
                        let ww = choose|ww: int|
                            0 <= ww < pre.len() && cache_s[#[trigger] pre[ww]].1.chosen@
                                == cache_s[x as int].1.chosen@;
                        assert(pm[ww] == pre[ww]);
                    }
                }
            }
            if !dup {
                picked.push(x);
            }
            proof {
                assert(picked@.map_values(|u: usize| u as int) =~= distinct_picks(
                    cache_s,
                    rk.take(j2 + 1int),
                ));
            }
            j2 += 1;
        }
        proof {
            assert(rk.take(rk.len() as int) =~= rk);
        }
        let ghost pk = distinct_picks(cache_s, rk);
        proof {
            assert(picked@.map_values(|u: usize| u as int) == pk);
            assert forall|w: int| 0 <= w < picked@.len() implies 0 <= (#[trigger] pk[w])
                < cache_s.len() && complete_entry(cache_s[pk[w]], wgt, catsv) by {
                assert(pk[w] == picked@[w] as int);
                assert(rk.contains(pk[w]));
                let u = choose|u: int| 0 <= u < rk.len() && rk[u] == pk[w];
                assert(fx.contains(rk[u]));
                let v = choose|v: int| 0 <= v < fx.len() && fx[v] == rk[u];
            }
        }
        // Materialize the top distinct entries.
        let limit = if take_n <= picked.len() {
            take_n
        } else {
            picked.len()
        };
        let mut out: Vec<Lineup> = Vec::new();
        let mut k: usize = 0;
        while k < limit
            invariant
                k <= limit,
                limit <= picked@.len(),
                picked@.len() == pk.len(),
                picked@.map_values(|u: usize| u as int) == pk,
                forall|w: int| 0 <= w < pk.len() ==> 0 <= (#[trigger] pk[w]) < cache_s.len()
                    && complete_entry(cache_s[pk[w]], wgt, catsv),
                out@.len() == k,
                forall|kk: int| 0 <= kk < k ==> (#[trigger] out@[kk])@ == sort_pts(
                    lineup_models(items_s, cache_s[pk[kk]].1.chosen@),
                ),
                forall|kk: int| 0 <= kk < k ==> seq_price_sum((#[trigger] out@[kk])@)
                    <= wgt as int,
                forall|kk: int| 0 <= kk < k ==> seq_points_sum((#[trigger] out@[kk])@)
                    == cache_s[pk[kk]].1.value as int,
                forall|kk: int| 0 <= kk < k ==> (#[trigger] out@[kk])@.len() == sum_counts(cm),
                forall|kk: int, c: int|
                    0 <= kk < k && 0 <= c < cm.len() ==> #[trigger] seq_cat_count(
                        out@[kk]@,
                        c,
                    ) >= cm[c],
                forall|kk: int, ii: int|
                    0 <= kk < k && 0 <= ii < out@[kk]@.len() ==> #[trigger] ms.contains(
                        out@[kk]@[ii],
                    ),
                forall|kk: int| 0 <= kk < k ==> crate::player_pool::distinct_ids(
                    (#[trigger] out@[kk])@,
                ),
                forall|kk: int| 0 <= kk < k ==> (#[trigger] out@[kk]).wf(),
                forall|kk: int| 0 <= kk < k ==> pts_sorted((#[trigger] out@[kk])@),
                forall|k1: int, k2: int|
                    0 <= k1 < k2 < k ==> (#[trigger] out@[k1])@ != (#[trigger] out@[k2])@,
            decreases limit - k,
        {
            let idx = picked[k];
            let ghost entry = cache_s[idx as int];
            let ghost ch = entry.1.chosen@;
            let ghost key_n = entry.0.n as nat;
            let ghost sub = solve(ms, key_n, wgt as int, cm);
            proof {
                assert(pk[k as int] == picked@[k as int] as int);
                assert(entry_inv(self.context, cache_s[idx as int]));
                assert(counts_model(entry.0.categories@) == cm);
                lemma_solve_basic(ms, key_n, wgt as int, cm);
                lemma_solve_sound(ms, key_n, wgt as int, cm);
                assert(index_set(ch) == sub.chosen);
                assert forall|w: int| 0 <= w < ch.len() implies (#[trigger] ch[w]) < key_n by {
                    assert(index_set(ch).contains(ch[w] as int));
                }
            }
            let mut list: Vec<Player> = Vec::new();
            let mut w: usize = 0;
            let chosen_len = self.cache[idx].1.chosen.len();
            while w < chosen_len
                invariant
                    w <= ch.len(),
                    chosen_len == ch.len(),
                    ch == cache_s[idx as int].1.chosen@,
                    idx < cache_s.len(),
                    forall|ww: int| 0 <= ww < ch.len() ==> (#[trigger] ch[ww]) < key_n,
                    key_n <= items_s.len(),
                    list@.len() == w,
                    forall|ww: int| 0 <= ww < w ==> (#[trigger] list@[ww])@ == items_s[ch[ww] as int]@,
                decreases ch.len() - w,
            {
                let pos = self.cache[idx].1.chosen[w];
                list.push(clone_player(&self.context.items[pos]));
                w += 1;
            }
            proof {
                assert(models(list@) =~= lineup_models(items_s, ch));
            }
            let sorted_list = sort_players_by_points(list);
            let lu = Lineup::new(sorted_list);
            proof {
                let pre = lineup_models(items_s, ch);
                lemma_materialize(items_s, ch, key_n);
                lemma_sort_pts_multiset(pre);
                lemma_multiset_eq_sums(pre, sort_pts(pre));
                assert(crate::player_pool::distinct_ids(pre)) by {
                    assert forall|a: int, b: int|
                        0 <= a < b < pre.len() implies (#[trigger] pre[a]).id != (
                    #[trigger] pre[b]).id by {
                        assert(pre[a] == items_s[ch[a] as int]@);
                        assert(pre[b] == items_s[ch[b] as int]@);
                        assert(ch[a] < ch[b]);
                        assert(ms[ch[a] as int] == items_s[ch[a] as int]@);
                        assert(ms[ch[b] as int] == items_s[ch[b] as int]@);
                    }
                }
                lemma_multiset_eq_distinct(pre, sort_pts(pre));
                lemma_sort_pts_sorted(pre);
                assert(lu@ == sort_pts(pre));
                assert(seq_price_sum(lu@) == chosen_price_sum(ms, sub.chosen, key_n));
                assert(seq_price_sum(lu@) <= wgt as int);
                assert(seq_points_sum(lu@) == entry.1.value as int);
                assert(lu@.len() == sum_counts(cm)) by {
                    assert(sort_pts(pre).len() == pre.len());
                    assert(pre.len() == ch.len());
                    assert(ch.len() == chosen_card(sub.chosen, key_n));
                }
                assert forall|c: int| 0 <= c < cm.len() implies seq_cat_count(lu@, c)
                    >= cm[c] by {
                    assert(seq_cat_count(pre, c) == chosen_count(ms, sub.chosen, key_n, c));
                    assert(seq_cat_count(lu@, c) == seq_cat_count(pre, c));
                }
                assert forall|ii: int| 0 <= ii < lu@.len() implies ms.contains(lu@[ii]) by {
                    broadcast use vstd::seq_lib::group_to_multiset_ensures;

                    assert(lu@.contains(lu@[ii]));
                    assert(lu@.to_multiset().count(lu@[ii]) > 0);
                    assert(pre.to_multiset().count(lu@[ii]) > 0);
                    assert(pre.contains(lu@[ii]));
                    let ww = choose|ww: int| 0 <= ww < pre.len() && pre[ww] == lu@[ii];
                    assert(pre[ww] == items_s[ch[ww] as int]@);
                    assert(ms[ch[ww] as int] == items_s[ch[ww] as int]@);
                }
                assert(lu.wf()) by {
                    assert forall|ii: int| 0 <= ii < lu@.len() implies 0 <= (
                    #[trigger] lu@[ii]).points <= MAX_PROJECTED_POINTS && 0 <= lu@[ii].price
                        < 0x1_0000_0000 by {
                        broadcast use vstd::seq_lib::group_to_multiset_ensures;

                        assert(lu@.contains(lu@[ii]));
                        assert(lu@.to_multiset().count(lu@[ii]) > 0);
                        assert(pre.to_multiset().count(lu@[ii]) > 0);
                        assert(pre.contains(lu@[ii]));
                        let ww = choose|ww: int| 0 <= ww < pre.len() && pre[ww] == lu@[ii];
                        assert(pre[ww] == items_s[ch[ww] as int]@);
                    }
                    assert(lu@.len() <= MAX_POOL_SIZE) by {
                        lemma_sum_counts_zero(cm);
                        assert(chosen_card(sub.chosen, key_n) <= key_n as int) by {
                            lemma_chosen_card_le(sub.chosen, key_n);
                        }
                    }
                }
                assert forall|k1: int|
                    0 <= k1 < k implies (#[trigger] out@[k1])@ != lu@ by {
                    let e1 = cache_s[pk[k1]];
                    let ch1 = e1.1.chosen@;
                    let pre1 = lineup_models(items_s, ch1);
                    assert(entry_inv(self.context, cache_s[pk[k1]]));
                    assert(counts_model(e1.0.categories@) == cm);
                    let sub1 = solve(ms, e1.0.n as nat, wgt as int, cm);
                    lemma_solve_basic(ms, e1.0.n as nat, wgt as int, cm);
                    assert(sorted_strict(ch1));
                    assert forall|ww: int| 0 <= ww < ch1.len() implies ((#[trigger] ch1[ww]) as int)
                        < items_s.len() by {
                        assert(index_set(ch1).contains(ch1[ww] as int));
                    }
                    if out@[k1]@ == lu@ {
                        lemma_sort_pts_multiset(pre1);
                        assert(pre1.to_multiset() == pre.to_multiset());
                        lemma_lineup_models_injective(items_s, ch1, ch);
                        assert(cache_s[pk[k1]].1.chosen@ == cache_s[pk[k as int]].1.chosen@);
                    }
                }
            }
            out.push(lu);
            k += 1;
        }
        proof {
            let has_top = exists|i: int|
                0 <= i < cache_s.len() && key_matches(
                    (#[trigger] cache_s[i]).0,
                    items_s.len() as usize,
                    wgt,
                    catsv,
                );
            let top = top_result(self.context);
            if out@.len() > 0 {
                assert(complete_entry(cache_s[pk[0]], wgt, catsv));
                assert(entry_inv(self.context, cache_s[pk[0]]));
                assert(top.feasible);
            }
            if has_top {
                let t = choose|i: int|
                    0 <= i < cache_s.len() && key_matches(
                        (#[trigger] cache_s[i]).0,
                        items_s.len() as usize,
                        wgt,
                        catsv,
                    );
                assert(entry_inv(self.context, cache_s[t]));
                assert(counts_model(cache_s[t].0.categories@) == cm);
                assert(cache_s[t].1.value as int == top.value && cache_s[t].1.feasible
                    == top.feasible);
                if top.feasible {
                    assert(complete_entry(cache_s[t], wgt, catsv));
                    assert(fx.contains(t));
                    assert(rk.contains(t));
                    assert(pk.len() > 0);
                    if take_n > 0 {
                        assert(out@.len() > 0);
                    }
                }
                if out@.len() > 0 {
                    // The first lineup's total is exactly the search's best
                    // value: at least the cached top-level entry's (ranking
                    // puts the best first), and at most it (a shorter
                    // prefix's optimum never beats the full pool's).
                    assert(pk[0] == rk[0]);
                    let u = choose|u: int| 0 <= u < rk.len() && rk[u] == t;
                    assert(cache_s[rk[0]].1.value >= cache_s[t].1.value) by {
                        if u > 0 {
                            assert(cache_s[#[trigger] rk[0]].1.value
                                >= cache_s[#[trigger] rk[u]].1.value);
                        }
                    }
                    let e0 = cache_s[pk[0]];
                    assert(entry_inv(self.context, cache_s[pk[0]]));
                    assert(counts_model(e0.0.categories@) == cm);
                    let sub0 = solve(ms, e0.0.n as nat, wgt as int, cm);
                    assert(e0.1.value as int == sub0.value && sub0.feasible);
                    assert forall|ii: int| 0 <= ii < ms.len() implies (
                    #[trigger] ms[ii]).price >= 0 by {
                        assert(ms[ii] == items_s[ii]@);
                    }
                    lemma_prefix_value_le(ms, e0.0.n as nat, items_s.len() as nat, wgt as int, cm);
                    assert(sub0.value <= top.value);
                    assert(seq_points_sum(out@[0]@) == top.value);
                }
            }
        }
        out
    }
}

/// A choice set over the first `n` positions holds at most `n` items.
proof fn lemma_chosen_card_le(chosen: Set<int>, n: nat)
    ensures
        0 <= chosen_card(chosen, n) <= n,
    decreases n,
{
    if n > 0 {
        lemma_chosen_card_le(chosen, (n - 1) as nat);
    }
}

/// The distinct ranking keeps positions of the ranked list, keeps their
/// value order, repeats no choice set, and keeps the best-ranked position
/// first.
proof fn lemma_distinct_picks_props(cache: Seq<(CacheKey, CacheValue)>, s: Seq<int>)
    requires
        forall|a: int, b: int|
            0 <= a < b < s.len() ==> cache[#[trigger] s[a]].1.value >= cache[#[trigger] s[b]].1.value,
    ensures
        forall|w: int| 0 <= w < distinct_picks(cache, s).len() ==> s.contains(
            #[trigger] distinct_picks(cache, s)[w],
        ),
        forall|a: int, b: int|
            0 <= a < b < distinct_picks(cache, s).len() ==> cache[#[trigger] distinct_picks(
                cache,
                s,
            )[a]].1.value >= cache[#[trigger] distinct_picks(cache, s)[b]].1.value,
        forall|a: int, b: int|
            0 <= a < b < distinct_picks(cache, s).len() ==> cache[#[trigger] distinct_picks(
                cache,
                s,
            )[a]].1.chosen@ != cache[#[trigger] distinct_picks(cache, s)[b]].1.chosen@,
        s.len() > 0 ==> distinct_picks(cache, s).len() > 0 && distinct_picks(cache, s)[0]
            == s[0],
    decreases s.len(),
{
    if s.len() > 0 {
        lemma_distinct_picks_props(cache, s.drop_last());
        let pre = distinct_picks(cache, s.drop_last());
        let cur = distinct_picks(cache, s);
        assert forall|w: int| 0 <= w < cur.len() implies s.contains(#[trigger] cur[w]) by {
            if w < pre.len() {
                assert(cur[w] == pre[w]);
                assert(s.drop_last().contains(pre[w]));
                let u = choose|u: int|
                    0 <= u < s.drop_last().len() && s.drop_last()[u] == pre[w];
                assert(s[u] == pre[w]);
            } else {
                assert(cur[w] == s.last());
                assert(s[s.len() - 1] == s.last());
            }
        }
        assert forall|a: int, b: int|
            0 <= a < b < cur.len() implies cache[#[trigger] cur[a]].1.value
                >= cache[#[trigger] cur[b]].1.value by {
            if b < pre.len() {
                assert(cur[a] == pre[a] && cur[b] == pre[b]);
            } else {
                assert(cur[a] == pre[a] && cur[b] == s.last());
                assert(s.drop_last().contains(pre[a]));
                let u = choose|u: int|
                    0 <= u < s.drop_last().len() && s.drop_last()[u] == pre[a];
                assert(s[u] == pre[a]);
                assert(cache[#[trigger] s[u]].1.value >= cache[#[trigger] s[s.len()
                    - 1]].1.value);
            }
        }
        assert forall|a: int, b: int|
            0 <= a < b < cur.len() implies cache[#[trigger] cur[a]].1.chosen@
                != cache[#[trigger] cur[b]].1.chosen@ by {
            if b < pre.len() {
                assert(cur[a] == pre[a] && cur[b] == pre[b]);
            } else {
                assert(cur[a] == pre[a] && cur[b] == s.last());
            }
        }
        if s.len() == 1 {
            assert(s.drop_last().len() == 0);
            assert(pre.len() == 0);
            assert(cur[0] == s[0]);
        } else {
            assert(s.drop_last().len() > 0);
            assert(pre[0] == s.drop_last()[0]);
            assert(cur[0] == pre[0]);
            assert(s.drop_last()[0] == s[0]);
        }
    }
}

/// A shorter catalog prefix's optimum never beats a longer one's: whatever
/// selection settles the prefix is still available over the whole pool.
pub proof fn lemma_prefix_value_le(
    items: Seq<ItemModel>,
    n1: nat,
    n2: nat,
    budget: int,
    cats: Seq<int>,
)
    requires
        items_wf(items),
        n1 <= n2 <= items.len(),
        budget >= 0,
        forall|i: int| 0 <= i < cats.len() ==> #[trigger] cats[i] >= 0,
        forall|i: int| 0 <= i < items.len() ==> (#[trigger] items[i]).price >= 0,
    ensures
        solve(items, n1, budget, cats).feasible ==> solve(items, n2, budget, cats).feasible
            && solve(items, n2, budget, cats).value >= solve(items, n1, budget, cats).value,
{
    let r1 = solve(items, n1, budget, cats);
    if r1.feasible {
        lemma_dp_achievable(items, n1, budget, cats);
        lemma_solve_sound(items, n1, budget, cats);
        lemma_solve_basic(items, n1, budget, cats);
        let assign = choose|assign: Map<int, int>|
            #[trigger] valid_selection(items, n1, budget, cats, r1.chosen, assign);
        assert(valid_selection(items, n2, budget, cats, r1.chosen, assign)) by {
            assert forall|i: int| #[trigger] r1.chosen.contains(i) implies i < n1 by {}
            lemma_sums_range(items, r1.chosen, n1, n2);
            lemma_assigned_range(r1.chosen, assign, n1, n2);
            assert forall|c: int| 0 <= c < cats.len() implies assigned_count(
                r1.chosen,
                assign,
                n2,
                c,
            ) == #[trigger] cats[c] by {
                assert(assigned_count(r1.chosen, assign, n1, c) == cats[c]);
            }
        }
        lemma_dp_complete(items, n2, budget, cats, r1.chosen, assign);
        lemma_sums_range(items, r1.chosen, n1, n2);
    }
}

/// Two strictly increasing position lists holding the same positions are
/// the same list.
proof fn lemma_sorted_strict_unique(s1: Seq<usize>, s2: Seq<usize>)
    requires
        sorted_strict(s1),
        sorted_strict(s2),
        index_set(s1) == index_set(s2),
    ensures
        s1 == s2,
    decreases s1.len(),
{
    if s1.len() == 0 {
        if s2.len() > 0 {
            assert(index_set(s2).contains(s2[0] as int)) by {
                assert((#[trigger] s2[0]) as int == s2[0] as int);
            }
            let w = choose|w: int| 0 <= w < s1.len() && (#[trigger] s1[w]) as int == s2[0] as int;
        }
        assert(s1 =~= s2);
    } else if s2.len() == 0 {
        assert(index_set(s1).contains(s1[0] as int)) by {
            assert((#[trigger] s1[0]) as int == s1[0] as int);
        }
        let w = choose|w: int| 0 <= w < s2.len() && (#[trigger] s2[w]) as int == s1[0] as int;
    } else {
        let l1 = s1.last();
        let l2 = s2.last();
        assert(index_set(s1).contains(l1 as int)) by {
            assert((#[trigger] s1[s1.len() - 1]) as int == l1 as int);
        }
        assert(index_set(s2).contains(l2 as int)) by {
            assert((#[trigger] s2[s2.len() - 1]) as int == l2 as int);
        }
        let w1 = choose|w: int| 0 <= w < s2.len() && (#[trigger] s2[w]) as int == l1 as int;
        let w2 = choose|w: int| 0 <= w < s1.len() && (#[trigger] s1[w]) as int == l2 as int;
        assert(l1 <= l2) by {
            if w1 < s2.len() - 1 {
                assert(s2[w1] < s2[s2.len() - 1]);
            }
        }
        assert(l2 <= l1) by {
            if w2 < s1.len() - 1 {
                assert(s1[w2] < s1[s1.len() - 1]);
            }
        }
        assert(l1 == l2);
        assert(index_set(s1.drop_last()) =~= index_set(s2.drop_last())) by {
            assert forall|i: int|
                index_set(s1.drop_last()).contains(i) == index_set(s2.drop_last()).contains(
                    i,
                ) by {
                lemma_index_set_drop_last(s1, i);
                lemma_index_set_drop_last(s2, i);
            }
        }
        lemma_sorted_strict_unique(s1.drop_last(), s2.drop_last());
        assert(s1 =~= s2) by {
            assert(s1.drop_last() == s2.drop_last());
            assert forall|w: int| 0 <= w < s1.len() implies s1[w] == s2[w] by {
                if w < s1.len() - 1 {
                    assert(s1.drop_last()[w] == s2.drop_last()[w]);
                }
            }
        }
    }
}

/// In a strictly increasing list, a position is listed before the last
/// entry exactly when it is listed at all and is not the last entry.
proof fn lemma_index_set_drop_last(s: Seq<usize>, i: int)
    requires
        sorted_strict(s),
        s.len() > 0,
    ensures
        index_set(s.drop_last()).contains(i) <==> (index_set(s).contains(i) && i != s.last() as int),
{
    if index_set(s.drop_last()).contains(i) {
        let w = choose|w: int|
            0 <= w < s.drop_last().len() && (#[trigger] s.drop_last()[w]) as int == i;
        assert(s[w] as int == i);
        assert(s[w] < s.last());
    }
    if index_set(s).contains(i) && i != s.last() as int {
        let w = choose|w: int| 0 <= w < s.len() && (#[trigger] s[w]) as int == i;
        assert(w < s.len() - 1);
        assert(s.drop_last()[w] as int == i);
    }
}

/// Two strictly increasing choice lists over a catalog without repeated ids
/// that materialize to the same items (in any order) are the same list.
proof fn lemma_lineup_models_injective(items: Seq<Player>, ch1: Seq<usize>, ch2: Seq<usize>)
    requires
        crate::player_pool::distinct_ids(models(items)),
        sorted_strict(ch1),
        sorted_strict(ch2),
        forall|w: int| 0 <= w < ch1.len() ==> ((#[trigger] ch1[w]) as int) < items.len(),
        forall|w: int| 0 <= w < ch2.len() ==> ((#[trigger] ch2[w]) as int) < items.len(),
        lineup_models(items, ch1).to_multiset() == lineup_models(items, ch2).to_multiset(),
    ensures
        ch1 == ch2,
{
    broadcast use vstd::seq_lib::group_to_multiset_ensures;

    let ms = models(items);
    let l1 = lineup_models(items, ch1);
    let l2 = lineup_models(items, ch2);
    assert(index_set(ch1) =~= index_set(ch2)) by {
        assert forall|i: int|
            index_set(ch1).contains(i) == index_set(ch2).contains(i) by {
            if index_set(ch1).contains(i) {
                let w = choose|w: int| 0 <= w < ch1.len() && (#[trigger] ch1[w]) as int == i;
                assert(l1[w] == items[i]@);
                assert(l1.contains(items[i]@));
                assert(l1.to_multiset().count(items[i]@) > 0);
                assert(l2.to_multiset().count(items[i]@) > 0);
                assert(l2.contains(items[i]@));
                let u = choose|u: int| 0 <= u < l2.len() && l2[u] == items[i]@;
                assert(items[ch2[u] as int]@ == items[i]@);
                assert(ms[ch2[u] as int] == items[ch2[u] as int]@ && ms[i] == items[i]@);
                if ch2[u] as int != i {
                    if (ch2[u] as int) < i {
                        assert(ms[ch2[u] as int].id != ms[i].id);
                    } else {
                        assert(ms[i].id != ms[ch2[u] as int].id);
                    }
                }
                assert((#[trigger] ch2[u]) as int == i);
            }
            if index_set(ch2).contains(i) {
                let w = choose|w: int| 0 <= w < ch2.len() && (#[trigger] ch2[w]) as int == i;
                assert(l2[w] == items[i]@);
                assert(l2.contains(items[i]@));
                assert(l2.to_multiset().count(items[i]@) > 0);
                assert(l1.to_multiset().count(items[i]@) > 0);
                assert(l1.contains(items[i]@));
                let u = choose|u: int| 0 <= u < l1.len() && l1[u] == items[i]@;
                assert(items[ch1[u] as int]@ == items[i]@);
                assert(ms[ch1[u] as int] == items[ch1[u] as int]@ && ms[i] == items[i]@);
                if ch1[u] as int != i {
                    if (ch1[u] as int) < i {
                        assert(ms[ch1[u] as int].id != ms[i].id);
                    } else {
                        assert(ms[i].id != ms[ch1[u] as int].id);
                    }
                }
                assert((#[trigger] ch1[u]) as int == i);
            }
        }
    }
    lemma_sorted_strict_unique(ch1, ch2);
}


/// The total of the per-category member counts over categories `[0, cap)`.
pub open spec fn count_total(
    items: Seq<ItemModel>,
    chosen: Set<int>,
    n: nat,
    cap: int,
) -> int
    decreases cap,
{
    if cap <= 0 {
        0
    } else {
        count_total(items, chosen, n, cap - 1) + chosen_count(items, chosen, n, cap - 1)
    }
}

/// How many of the categories `[0, cap)` an item belongs to.
pub open spec fn range_cat_card(m: ItemModel, cap: int) -> int
    decreases cap,
{
    if cap <= 0 {
        0
    } else {
        range_cat_card(m, cap - 1) + if m.cats.contains(cap - 1) {
            1int
        } else {
            0int
        }
    }
}

/// An item that belongs to at most one category among `[0, cap)` contributes
/// at most one to the total.
proof fn lemma_range_cat_card_le_one(m: ItemModel, cap: int)
    requires
        forall|c1: int, c2: int|
            0 <= c1 < cap && 0 <= c2 < cap && m.cats.contains(c1) && m.cats.contains(c2) ==> c1
                == c2,
    ensures
        0 <= range_cat_card(m, cap) <= 1,
    decreases cap,
{
    if cap > 0 {
        lemma_range_cat_card_le_one(m, cap - 1);
        if m.cats.contains(cap - 1) && range_cat_card(m, cap - 1) > 0 {
            lemma_range_cat_card_witness(m, cap - 1);
        }
    }
}

/// A positive category total has a member category below the cap.
proof fn lemma_range_cat_card_witness(m: ItemModel, cap: int)
    requires
        range_cat_card(m, cap) > 0,
    ensures
        exists|c: int| 0 <= c < cap && m.cats.contains(c),
    decreases cap,
{
    if cap > 0 {
        if m.cats.contains(cap - 1) {
        } else {
            lemma_range_cat_card_witness(m, cap - 1);
        }
    }
}

/// Peeling the last item off the count total.
proof fn lemma_count_total_step(items: Seq<ItemModel>, chosen: Set<int>, n: nat, cap: int)
    requires
        n >= 1,
    ensures
        count_total(items, chosen, n, cap) == count_total(items, chosen, (n - 1) as nat, cap)
            + if chosen.contains(n - 1) && n <= items.len() {
            range_cat_card(items[n - 1], cap)
        } else {
            0int
        },
    decreases cap,
{
    if cap > 0 {
        lemma_count_total_step(items, chosen, n, cap - 1);
    }
}

/// With every item in at most one category, the category totals cannot
/// exceed the number of chosen items.
proof fn lemma_count_total_le_card(items: Seq<ItemModel>, chosen: Set<int>, n: nat, cap: int)
    requires
        forall|i: int, c1: int, c2: int|
            0 <= i < items.len() && 0 <= c1 < cap && 0 <= c2 < cap && (
            #[trigger] items[i].cats.contains(c1)) && (#[trigger] items[i].cats.contains(c2))
                ==> c1 == c2,
        n <= items.len(),
    ensures
        count_total(items, chosen, n, cap) <= chosen_card(chosen, n),
    decreases n,
{
    if n == 0 {
        lemma_count_total_zero(items, chosen, n, cap);
    } else {
        lemma_count_total_le_card(items, chosen, (n - 1) as nat, cap);
        lemma_count_total_step(items, chosen, n, cap);
        if chosen.contains(n - 1) {
            lemma_range_cat_card_le_one(items[n - 1], cap);
        }
    }
}

/// The count total over zero items is zero.
proof fn lemma_count_total_zero(items: Seq<ItemModel>, chosen: Set<int>, n: nat, cap: int)
    requires
        n == 0,
    ensures
        count_total(items, chosen, n, cap) == 0,
    decreases cap,
{
    if cap > 0 {
        lemma_count_total_zero(items, chosen, n, cap - 1);
    }
}

/// Cellwise-dominating counts with one strict cell make the total strictly
/// larger than the requirement sum.
proof fn lemma_count_total_ge_sum(
    items: Seq<ItemModel>,
    chosen: Set<int>,
    n: nat,
    cats: Seq<int>,
    cap: int,
    c0: int,
)
    requires
        0 <= cap <= cats.len(),
        forall|c: int| 0 <= c < cats.len() ==> chosen_count(items, chosen, n, c)
            >= #[trigger] cats[c],
        0 <= c0 < cats.len(),
        chosen_count(items, chosen, n, c0) > cats[c0],
    ensures
        count_total(items, chosen, n, cap) >= sum_counts(cats.take(cap)) + if c0 < cap {
            1int
        } else {
            0int
        },
    decreases cap,
{
    if cap > 0 {
        lemma_count_total_ge_sum(items, chosen, n, cats, cap - 1, c0);
        assert(cats.take(cap).drop_last() =~= cats.take(cap - 1));
        assert(cats.take(cap).last() == cats[cap - 1]);
    } else {
        assert(cats.take(0) =~= Seq::<int>::empty());
    }
}

/// When every item belongs to at most one declared category, a feasible
/// search fills each category's requirement exactly: the lineup holds
/// exactly `cats[c]` members of every declared category `c`.
pub proof fn lemma_feasible_exact_counts(
    items: Seq<ItemModel>,
    n: nat,
    budget: int,
    cats: Seq<int>,
)
    requires
        items_wf(items),
        n <= items.len(),
        budget >= 0,
        forall|i: int| 0 <= i < cats.len() ==> #[trigger] cats[i] >= 0,
        forall|i: int, c1: int, c2: int|
            0 <= i < items.len() && 0 <= c1 < cats.len() && 0 <= c2 < cats.len() && (
            #[trigger] items[i].cats.contains(c1)) && (#[trigger] items[i].cats.contains(c2))
                ==> c1 == c2,
    ensures
        solve(items, n, budget, cats).feasible ==> forall|c: int|
            0 <= c < cats.len() ==> chosen_count(
                items,
                solve(items, n, budget, cats).chosen,
                n,
                c,
            ) == #[trigger] cats[c],
{
    let r = solve(items, n, budget, cats);
    if r.feasible {
        lemma_solve_sound(items, n, budget, cats);
        assert forall|c: int| 0 <= c < cats.len() implies chosen_count(items, r.chosen, n, c)
            == #[trigger] cats[c] by {
            if chosen_count(items, r.chosen, n, c) > cats[c] {
                lemma_count_total_ge_sum(items, r.chosen, n, cats, cats.len() as int, c);
                lemma_count_total_le_card(items, r.chosen, n, cats.len() as int);
                assert(cats.take(cats.len() as int) =~= cats);
            }
        }
    }
}

/// Two searches over equal pools, budgets and constraint vectors settle on
/// the same result: a search's outcome is a function of its inputs alone,
/// so running it twice on fresh caches returns the same best value.
pub proof fn lemma_search_deterministic(ctx1: OptimizerContext, ctx2: OptimizerContext)
    requires
        models(ctx1.items@) == models(ctx2.items@),
        ctx1.weight == ctx2.weight,
        counts_model(ctx1.categories@) == counts_model(ctx2.categories@),
    ensures
        top_result(ctx1) == top_result(ctx2),
{
    assert(ctx1.items@.len() == models(ctx1.items@).len());
    assert(ctx2.items@.len() == models(ctx2.items@).len());
}

/// How many of the first `n` positions are selected and assigned to
/// category `c`.
pub open spec fn assigned_count(sel: Set<int>, assign: Map<int, int>, n: nat, c: int) -> int
    decreases n,
{
    if n == 0 {
        0
    } else {
        assigned_count(sel, assign, (n - 1) as nat, c) + if sel.contains(n - 1) && assign[n - 1]
            == c {
            1int
        } else {
            0int
        }
    }
}

/// A valid selection of the 0/1 integer program: a set of positions among
/// the first `n`, each assigned to a declared category it belongs to, whose
/// total price fits the budget and which fills every category's requirement
/// exactly.
pub open spec fn valid_selection(
    items: Seq<ItemModel>,
    n: nat,
    budget: int,
    cats: Seq<int>,
    sel: Set<int>,
    assign: Map<int, int>,
) -> bool {
    &&& forall|i: int| #[trigger] sel.contains(i) ==> 0 <= i < n
    &&& forall|i: int| #[trigger] sel.contains(i) ==> 0 <= assign[i] < cats.len()
        && items[i].cats.contains(assign[i])
    &&& chosen_price_sum(items, sel, n) <= budget
    &&& forall|c: int| 0 <= c < cats.len() ==> assigned_count(sel, assign, n, c)
        == #[trigger] cats[c]
}

/// Selections agreeing below `n`, under assignments agreeing on the
/// selection, have the same assigned counts.
proof fn lemma_assigned_agree(
    s1: Set<int>,
    s2: Set<int>,
    a1: Map<int, int>,
    a2: Map<int, int>,
    n: nat,
)
    requires
        forall|i: int| 0 <= i < n ==> (s1.contains(i) <==> s2.contains(i)),
        forall|i: int| 0 <= i < n && s1.contains(i) ==> a1[i] == a2[i],
    ensures
        forall|c: int| #[trigger] assigned_count(s1, a1, n, c) == assigned_count(s2, a2, n, c),
    decreases n,
{
    if n > 0 {
        lemma_assigned_agree(s1, s2, a1, a2, (n - 1) as nat);
        assert forall|c: int| #[trigger] assigned_count(s1, a1, n, c) == assigned_count(
            s2,
            a2,
            n,
            c,
        ) by {
            assert(assigned_count(s1, a1, (n - 1) as nat, c) == assigned_count(
                s2,
                a2,
                (n - 1) as nat,
                c,
            ));
        }
    }
}

/// Assigned counts are settled by the positions below any bound past the
/// whole selection.
proof fn lemma_assigned_range(sel: Set<int>, assign: Map<int, int>, k: nat, n: nat)
    requires
        k <= n,
        forall|i: int| #[trigger] sel.contains(i) ==> i < k,
    ensures
        forall|c: int| #[trigger] assigned_count(sel, assign, n, c) == assigned_count(
            sel,
            assign,
            k,
            c,
        ),
    decreases n,
{
    if n > k {
        lemma_assigned_range(sel, assign, k, (n - 1) as nat);
        assert forall|c: int| #[trigger] assigned_count(sel, assign, n, c) == assigned_count(
            sel,
            assign,
            k,
            c,
        ) by {
            assert(assigned_count(sel, assign, (n - 1) as nat, c) == assigned_count(
                sel,
                assign,
                k,
                c,
            ));
        }
    }
}

/// A selected position contributes to its assigned category's count.
proof fn lemma_assigned_pos(sel: Set<int>, assign: Map<int, int>, n: nat, i: int)
    requires
        sel.contains(i),
        0 <= i < n,
    ensures
        assigned_count(sel, assign, n, assign[i]) >= 1,
    decreases n,
{
    lemma_assigned_nonneg(sel, assign, (n - 1) as nat);
    let c = assign[i];
    assert(assigned_count(sel, assign, n, c) == assigned_count(sel, assign, (n - 1) as nat, c)
        + if sel.contains(n - 1) && assign[n - 1] == c {
        1int
    } else {
        0int
    });
    if i < n - 1 {
        lemma_assigned_pos(sel, assign, (n - 1) as nat, i);
    } else {
        assert(sel.contains(n - 1) && assign[n - 1] == c);
    }
}

/// Assigned counts are never negative.
proof fn lemma_assigned_nonneg(sel: Set<int>, assign: Map<int, int>, n: nat)
    ensures
        forall|c: int| #[trigger] assigned_count(sel, assign, n, c) >= 0,
    decreases n,
{
    if n > 0 {
        lemma_assigned_nonneg(sel, assign, (n - 1) as nat);
        assert forall|c: int| #[trigger] assigned_count(sel, assign, n, c) >= 0 by {
            assert(assigned_count(sel, assign, (n - 1) as nat, c) >= 0);
        }
    }
}

/// Each category's assigned count is covered by the supply of that category.
proof fn lemma_assigned_le_supply(
    items: Seq<ItemModel>,
    sel: Set<int>,
    assign: Map<int, int>,
    n: nat,
    c: int,
)
    requires
        n <= items.len(),
        forall|i: int| #[trigger] sel.contains(i) ==> 0 <= i && items[i].cats.contains(
            assign[i],
        ),
    ensures
        assigned_count(sel, assign, n, c) <= count_in_cat(items, n, c),
    decreases n,
{
    if n > 0 {
        lemma_assigned_le_supply(items, sel, assign, (n - 1) as nat, c);
    }
}

/// Price and points sums over a choice set are non-negative when every item
/// price and point total is.
proof fn lemma_chosen_sums_nonneg(items: Seq<ItemModel>, sel: Set<int>, n: nat)
    requires
        forall|i: int| 0 <= i < items.len() ==> (#[trigger] items[i]).price >= 0,
    ensures
        chosen_price_sum(items, sel, n) >= 0,
    decreases n,
{
    if n > 0 {
        lemma_chosen_sums_nonneg(items, sel, (n - 1) as nat);
    }
}

/// Completeness of the search: every valid selection of the 0/1 program
/// witnesses feasibility, and its total projected points never exceed the
/// search's best value.
pub proof fn lemma_dp_complete(
    items: Seq<ItemModel>,
    n: nat,
    budget: int,
    cats: Seq<int>,
    sel: Set<int>,
    assign: Map<int, int>,
)
    requires
        n <= items.len(),
        forall|i: int| 0 <= i < items.len() ==> (#[trigger] items[i]).price >= 0,
        valid_selection(items, n, budget, cats, sel, assign),
    ensures
        solve(items, n, budget, cats).feasible,
        solve(items, n, budget, cats).value >= chosen_points_sum(items, sel, n),
    decreases n,
{
    lemma_assigned_nonneg(sel, assign, n);
    assert(supply_ok(items, n, cats)) by {
        assert forall|c: int| 0 <= c < cats.len() implies cats[c] <= count_in_cat(
            items,
            n,
            c,
        ) by {
            lemma_assigned_le_supply(items, sel, assign, n, c);
        }
    }
    lemma_sum_counts_zero(cats);
    if n == 0 {
        assert(chosen_points_sum(items, sel, n) == 0);
    } else if sum_counts(cats) == 0 {
        assert(sel =~= Set::<int>::empty()) by {
            assert forall|i: int| !(#[trigger] sel.contains(i)) by {
                if sel.contains(i) {
                    lemma_assigned_pos(sel, assign, n, i);
                    assert(cats[assign[i]] >= 1);
                }
            }
        }
        lemma_chosen_sums_empty(items, sel, n);
    } else {
        if !sel.contains(n - 1) {
            assert(valid_selection(items, (n - 1) as nat, budget, cats, sel, assign)) by {
                assert forall|c: int| 0 <= c < cats.len() implies assigned_count(
                    sel,
                    assign,
                    (n - 1) as nat,
                    c,
                ) == #[trigger] cats[c] by {
                    assert(assigned_count(sel, assign, n, c) == cats[c]);
                }
            }
            lemma_dp_complete(items, (n - 1) as nat, budget, cats, sel, assign);
            lemma_step_reject(items, n, budget, cats);
            lemma_branch_feasible_mono(items, n, budget, cats, 0, cats.len());
            assert(solve_branch(items, n, budget, cats, 0) == solve(
                items,
                (n - 1) as nat,
                budget,
                cats,
            ));
        } else {
            let c0 = assign[n - 1];
            let price = items[n - 1].price;
            lemma_chosen_sums_nonneg(items, sel.remove(n - 1), n);
            let sel2 = sel.remove(n - 1);
            let cats2 = cats.update(c0, cats[c0] - 1);
            lemma_sums_agree(items, sel2, sel, (n - 1) as nat);
            assert(chosen_price_sum(items, sel, n) == chosen_price_sum(
                items,
                sel2,
                (n - 1) as nat,
            ) + price);
            assert(chosen_points_sum(items, sel, n) == chosen_points_sum(
                items,
                sel2,
                (n - 1) as nat,
            ) + items[n - 1].points);
            lemma_chosen_sums_nonneg(items, sel2, (n - 1) as nat);
            assert(price <= budget);
            lemma_assigned_pos(sel, assign, n, n - 1);
            assert(cats[c0] >= 1);
            assert(eligible(items, n, budget, cats, c0));
            assert(valid_selection(
                items,
                (n - 1) as nat,
                budget - price,
                cats2,
                sel2,
                assign,
            )) by {
                lemma_assigned_agree(sel2, sel, assign, assign, (n - 1) as nat);
                assert forall|c: int| 0 <= c < cats2.len() implies assigned_count(
                    sel2,
                    assign,
                    (n - 1) as nat,
                    c,
                ) == #[trigger] cats2[c] by {
                    assert(assigned_count(sel2, assign, (n - 1) as nat, c) == assigned_count(
                        sel,
                        assign,
                        (n - 1) as nat,
                        c,
                    ));
                    assert(assigned_count(sel, assign, n, c) == cats[c]);
                }
            }
            lemma_dp_complete(items, (n - 1) as nat, budget - price, cats2, sel2, assign);
            lemma_step_take(items, n, budget, cats, c0);
            let take = solve(items, (n - 1) as nat, budget - price, cats2);
            let prev = solve_branch(items, n, budget, cats, c0 as nat);
            assert(solve_branch(items, n, budget, cats, (c0 + 1) as nat).feasible
                && solve_branch(items, n, budget, cats, (c0 + 1) as nat).value >= items[n
                - 1].points + take.value);
            lemma_branch_feasible_mono(items, n, budget, cats, (c0 + 1) as nat, cats.len());
        }
    }
}

/// Achievability of the search's result: a feasible search's chosen set is a
/// valid selection under some category assignment.
pub proof fn lemma_dp_achievable(items: Seq<ItemModel>, n: nat, budget: int, cats: Seq<int>)
    requires
        items_wf(items),
        n <= items.len(),
        budget >= 0,
        forall|i: int| 0 <= i < cats.len() ==> #[trigger] cats[i] >= 0,
    ensures
        solve(items, n, budget, cats).feasible ==> exists|assign: Map<int, int>|
            #[trigger] valid_selection(
                items,
                n,
                budget,
                cats,
                solve(items, n, budget, cats).chosen,
                assign,
            ),
    decreases n, cats.len() + 1,
{
    let r = solve(items, n, budget, cats);
    if r.feasible {
        if n == 0 || sum_counts(cats) == 0 {
            lemma_sum_counts_zero(cats);
            let assign = Map::<int, int>::empty();
            assert(valid_selection(items, n, budget, cats, r.chosen, assign)) by {
                lemma_chosen_sums_empty(items, r.chosen, n);
                assert forall|c: int| 0 <= c < cats.len() implies assigned_count(
                    r.chosen,
                    assign,
                    n,
                    c,
                ) == #[trigger] cats[c] by {
                    lemma_assigned_empty(r.chosen, assign, n);
                    if n == 0 {
                        lemma_count_le(items, n, c);
                    }
                }
            }
        } else {
            lemma_branch_achievable(items, n, budget, cats, cats.len());
        }
    }
}

/// Assigned counts over an empty selection are zero.
proof fn lemma_assigned_empty(sel: Set<int>, assign: Map<int, int>, n: nat)
    requires
        sel == Set::<int>::empty(),
    ensures
        forall|c: int| #[trigger] assigned_count(sel, assign, n, c) == 0,
    decreases n,
{
    if n > 0 {
        lemma_assigned_empty(sel, assign, (n - 1) as nat);
        assert forall|c: int| #[trigger] assigned_count(sel, assign, n, c) == 0 by {
            assert(assigned_count(sel, assign, (n - 1) as nat, c) == 0);
        }
    }
}

/// Achievability for the per-category fold.
proof fn lemma_branch_achievable(
    items: Seq<ItemModel>,
    n: nat,
    budget: int,
    cats: Seq<int>,
    k: nat,
)
    requires
        items_wf(items),
        1 <= n <= items.len(),
        budget >= 0,
        forall|i: int| 0 <= i < cats.len() ==> #[trigger] cats[i] >= 0,
    ensures
        solve_branch(items, n, budget, cats, k).feasible ==> exists|assign: Map<int, int>|
            #[trigger] valid_selection(
                items,
                n,
                budget,
                cats,
                solve_branch(items, n, budget, cats, k).chosen,
                assign,
            ),
    decreases n, k,
{
    let r = solve_branch(items, n, budget, cats, k);
    if r.feasible {
        if k == 0 {
            lemma_dp_achievable(items, (n - 1) as nat, budget, cats);
            let r0 = solve(items, (n - 1) as nat, budget, cats);
            lemma_solve_basic(items, (n - 1) as nat, budget, cats);
            let assign = choose|assign: Map<int, int>|
                #[trigger] valid_selection(items, (n - 1) as nat, budget, cats, r0.chosen, assign);
            assert(valid_selection(items, n, budget, cats, r.chosen, assign)) by {
                assert(!r0.chosen.contains(n - 1));
                assert(chosen_price_sum(items, r0.chosen, n) == chosen_price_sum(
                    items,
                    r0.chosen,
                    (n - 1) as nat,
                ));
                assert forall|c: int| 0 <= c < cats.len() implies assigned_count(
                    r0.chosen,
                    assign,
                    n,
                    c,
                ) == #[trigger] cats[c] by {
                    assert(assigned_count(r0.chosen, assign, (n - 1) as nat, c) == cats[c]);
                }
            }
        } else {
            lemma_branch_achievable(items, n, budget, cats, (k - 1) as nat);
            let prev = solve_branch(items, n, budget, cats, (k - 1) as nat);
            let c0 = k - 1;
            if eligible(items, n, budget, cats, c0) {
                let cats2 = cats.update(c0, cats[c0] - 1);
                let price = items[n - 1].price;
                let take = solve(items, (n - 1) as nat, budget - price, cats2);
                if take.feasible && (!prev.feasible || items[n - 1].points + take.value
                    >= prev.value) {
                    lemma_dp_achievable(items, (n - 1) as nat, budget - price, cats2);
                    lemma_solve_basic(items, (n - 1) as nat, budget - price, cats2);
                    let a0 = choose|assign: Map<int, int>|
                        #[trigger] valid_selection(
                            items,
                            (n - 1) as nat,
                            budget - price,
                            cats2,
                            take.chosen,
                            assign,
                        );
                    let assign = a0.insert(n - 1, c0);
                    let sel = take.chosen.insert(n - 1);
                    assert(r.chosen == sel);
                    assert(valid_selection(items, n, budget, cats, sel, assign)) by {
                        lemma_sums_agree(items, sel, take.chosen, (n - 1) as nat);
                        assert(chosen_price_sum(items, sel, n) == chosen_price_sum(
                            items,
                            take.chosen,
                            (n - 1) as nat,
                        ) + price);
                        lemma_assigned_agree(sel, take.chosen, assign, a0, (n - 1) as nat);
                        assert forall|c: int| 0 <= c < cats.len() implies assigned_count(
                            sel,
                            assign,
                            n,
                            c,
                        ) == #[trigger] cats[c] by {
                            assert(assigned_count(sel, assign, (n - 1) as nat, c)
                                == assigned_count(take.chosen, a0, (n - 1) as nat, c));
                            assert(assigned_count(take.chosen, a0, (n - 1) as nat, c)
                                == cats2[c]);
                            assert(sel.contains(n - 1) && assign[n - 1] == c0);
                        }
                        assert forall|i: int| #[trigger] sel.contains(i) implies 0 <= assign[i]
                            < cats.len() && items[i].cats.contains(assign[i]) by {
                            if i != n - 1 {
                                assert(take.chosen.contains(i));
                                assert(a0[i] == assign[i]);
                            }
                        }
                    }
                }
            }
        }
    }
}

/// The search solves the 0/1 integer program exactly: a feasible search's
/// best value is achieved by a valid selection, no valid selection exceeds
/// it, and an infeasible search admits no valid selection at all. On small
/// inputs this is the cross-check against the linear-programming
/// formulation's optimal objective value.
pub proof fn lemma_dp_matches_lp_optimum(
    items: Seq<ItemModel>,
    n: nat,
    budget: int,
    cats: Seq<int>,
)
    requires
        items_wf(items),
        n <= items.len(),
        budget >= 0,
        forall|i: int| 0 <= i < cats.len() ==> #[trigger] cats[i] >= 0,
        forall|i: int| 0 <= i < items.len() ==> (#[trigger] items[i]).price >= 0,
    ensures
        solve(items, n, budget, cats).feasible ==> exists|sel: Set<int>, assign: Map<int, int>|
            #[trigger] valid_selection(items, n, budget, cats, sel, assign) && chosen_points_sum(
                items,
                sel,
                n,
            ) == solve(items, n, budget, cats).value,
        forall|sel: Set<int>, assign: Map<int, int>|
            #[trigger] valid_selection(items, n, budget, cats, sel, assign) ==> solve(
                items,
                n,
                budget,
                cats,
            ).feasible && chosen_points_sum(items, sel, n) <= solve(items, n, budget, cats).value,
{
    let r = solve(items, n, budget, cats);
    if r.feasible {
        lemma_dp_achievable(items, n, budget, cats);
        lemma_solve_sound(items, n, budget, cats);
        let assign = choose|assign: Map<int, int>|
            #[trigger] valid_selection(items, n, budget, cats, r.chosen, assign);
        assert(valid_selection(items, n, budget, cats, r.chosen, assign)
            && chosen_points_sum(items, r.chosen, n) == r.value);
    }
    assert forall|sel: Set<int>, assign: Map<int, int>|
        #[trigger] valid_selection(items, n, budget, cats, sel, assign) implies r.feasible
        && chosen_points_sum(items, sel, n) <= r.value by {
        lemma_dp_complete(items, n, budget, cats, sel, assign);
    }
}

} // verus!
