//! The alternative formulation of the search as a 0/1 integer program: one
//! binary decision variable per item, an objective maximizing the
//! value-weighted sum, one equality constraint per roster slot and one
//! budget inequality. The model is plain data; an external mixed-integer
//! solver consumes it and hands back a variable assignment, which is decoded
//! here.

use vstd::prelude::*;

use crate::category_mapper::{lookup, CategoryMap};
use crate::common::{BuilderState, ItemModel, LineupError};
use crate::lineup_optimizer::models;
use crate::player_pool::{group_of, PlayerPool};
use vstd::string::StrSliceExecFns;

verus! {

/// The ids of a sequence of items, in order.
pub open spec fn ids_of(s: Seq<ItemModel>) -> Seq<u64> {
    s.map_values(|m: ItemModel| m.id)
}

/// An equality constraint: the decision variables of the listed items must
/// sum to the exact count.
#[derive(Debug)]
pub struct LpSlotConstraint {
    pub member_ids: Vec<u64>,
    pub exact_count: u32,
}

/// The 0/1 integer program for one contest: binary variables (one per item,
/// named by id), objective coefficients, per-slot equality constraints and
/// the budget inequality.
#[derive(Debug)]
pub struct LpModel {
    pub variables: Vec<u64>,
    pub objective: Vec<(u64, u64)>,
    pub slot_constraints: Vec<LpSlotConstraint>,
    pub budget_terms: Vec<(u64, u32)>,
    pub budget_limit: u32,
}

/// The LP formulation of a catalog's search problem.
pub struct LpOptimizer {
    pub player_pool: PlayerPool,
    pub problem: LpModel,
}

/// The objective pairs of a catalog: each item's id with its projected
/// points.
pub open spec fn objective_of(s: Seq<ItemModel>) -> Seq<(u64, u64)> {
    s.map_values(|m: ItemModel| (m.id, m.points as u64))
}

/// The budget pairs of a catalog: each item's id with its price.
pub open spec fn budget_terms_of(s: Seq<ItemModel>) -> Seq<(u64, u32)> {
    s.map_values(|m: ItemModel| (m.id, m.price as u32))
}

impl LpOptimizer {
    /// Starts an empty formulation over a catalog.
    pub fn new(player_pool: PlayerPool) -> (r: LpOptimizer)
        ensures
            r.player_pool == player_pool,
            r.problem.variables@.len() == 0,
            r.problem.objective@.len() == 0,
            r.problem.slot_constraints@.len() == 0,
            r.problem.budget_terms@.len() == 0,
    {
        LpOptimizer {
            player_pool,
            problem: LpModel {
                variables: Vec::new(),
                objective: Vec::new(),
                slot_constraints: Vec::new(),
                budget_terms: Vec::new(),
                budget_limit: 0,
            },
        }
    }

    /// Builds the whole model from the gathered state: variables and
    /// objective from the catalog, one exact-count constraint per roster
    /// slot, and the budget inequality from the salary cap.
    #[verifier::loop_isolation(false)]
    pub fn initialize(
        &mut self,
        builder_state: &BuilderState,
        mapped_indices: &CategoryMap,
    ) -> (r: Result<(), LineupError>)
        ensures
            final(self).player_pool == old(self).player_pool,
            ({
                let pool = old(self).player_pool;
                match r {
                    Ok(()) => {
                        &&& builder_state.roster_slots is Some
                        &&& builder_state.salary_cap is Some
                        &&& final(self).problem.variables@ == ids_of(pool@)
                        &&& final(self).problem.objective@ == objective_of(pool@)
                        &&& final(self).problem.budget_terms@ == budget_terms_of(pool@)
                        &&& final(self).problem.budget_limit
                            == builder_state.salary_cap->Some_0
                        &&& ({
                            let sl = builder_state.roster_slots->Some_0@;
                            &&& final(self).problem.slot_constraints@.len() == sl.len()
                            &&& forall|k: int|
                                0 <= k < sl.len() ==> (lookup(
                                    mapped_indices@,
                                    (#[trigger] sl[k]).key@,
                                ) matches Some(c) && final(self).problem.slot_constraints@[k].member_ids@ == ids_of(
                                    group_of(pool@, c),
                                ) && final(self).problem.slot_constraints@[k].exact_count
                                    == sl[k].count)
                        })
                    },
                    Err(e) => e == LineupError::MissingInput && (builder_state.roster_slots
                        is None || builder_state.salary_cap is None) || e
                        == LineupError::UnresolvableCategory && (
                    builder_state.roster_slots matches Some(sl) && exists|k: int|
                        0 <= k < sl@.len() && lookup(mapped_indices@, (#[trigger] sl@[k]).key@)
                            is None),
                }
            }),
    {
        let slots = match &builder_state.roster_slots {
            Some(s) => s,
            None => {
                return Err(LineupError::MissingInput);
            },
        };
        let cap = match builder_state.salary_cap {
            Some(c) => c,
            None => {
                return Err(LineupError::MissingInput);
            },
        };
        let ghost pool_v = self.player_pool@;
        let all = self.player_pool.get_all();
        let mut variables: Vec<u64> = Vec::new();
        let mut objective: Vec<(u64, u64)> = Vec::new();
        let mut budget_terms: Vec<(u64, u32)> = Vec::new();
        let mut i: usize = 0;
        while i < all.len()
            invariant
                i <= all@.len(),
                models(all@) == pool_v,
                variables@.len() == i,
                objective@.len() == i,
                budget_terms@.len() == i,
                forall|w: int| 0 <= w < i ==> #[trigger] variables@[w] == all@[w]@.id,
                forall|w: int| 0 <= w < i ==> #[trigger] objective@[w] == (
                    all@[w]@.id,
                    all@[w]@.points as u64,
                ),
                forall|w: int| 0 <= w < i ==> #[trigger] budget_terms@[w] == (
                    all@[w]@.id,
                    all@[w]@.price as u32,
                ),
            decreases all@.len() - i,
        {
            let id = all[i].id;
            variables.push(id);
            objective.push((id, all[i].projected_points));
            budget_terms.push((id, all[i].price));
            i += 1;
        }
        proof {
            assert(variables@ =~= ids_of(pool_v));
            assert(objective@ =~= objective_of(pool_v));
            assert(budget_terms@ =~= budget_terms_of(pool_v));
        }
        let mut slot_constraints: Vec<LpSlotConstraint> = Vec::new();
        let mut k: usize = 0;
        while k < slots.len()
            invariant
                k <= slots@.len(),
                pool_v == self.player_pool@,
                self.player_pool == old(self).player_pool,
                slot_constraints@.len() == k,
                forall|w: int|
                    0 <= w < k ==> (lookup(mapped_indices@, (#[trigger] slots@[w]).key@) matches
                        Some(c) && slot_constraints@[w].member_ids@ == ids_of(
                        group_of(pool_v, c),
                    ) && slot_constraints@[w].exact_count == slots@[w].count),
            decreases slots@.len() - k,
        {
            let c = match mapped_indices.get(slots[k].key.as_str()) {
                Some(c) => c,
                None => {
                    proof {
                        let sl = builder_state.roster_slots->Some_0@;
                        assert(lookup(mapped_indices@, (#[trigger] sl[k as int]).key@)
                            is None);
                    }
                    return Err(LineupError::UnresolvableCategory);
                },
            };
            let group = self.player_pool.get_group(&c);
            let mut member_ids: Vec<u64> = Vec::new();
            let mut w: usize = 0;
            while w < group.len()
                invariant
                    w <= group@.len(),
                    models(group@) == group_of(pool_v, c as int),
                    member_ids@.len() == w,
                    forall|u: int| 0 <= u < w ==> #[trigger] member_ids@[u] == group@[u]@.id,
                decreases group@.len() - w,
            {
                member_ids.push(group[w].id);
                w += 1;
            }
            proof {
                assert(member_ids@ =~= ids_of(group_of(pool_v, c as int)));
            }
            slot_constraints.push(
                LpSlotConstraint { member_ids, exact_count: slots[k].count },
            );
            k += 1;
        }
        self.problem = LpModel {
            variables,
            objective,
            slot_constraints,
            budget_terms,
            budget_limit: cap,
        };
        Ok(())
    }
}

/// The numeric value of a decimal digit string.
pub open spec fn dec_val(s: Seq<char>) -> int
    decreases s.len(),
{
    if s.len() == 0 {
        0
    } else {
        dec_val(s.drop_last()) * 10 + (s.last() as int - 48)
    }
}

/// Every character is a decimal digit.
pub open spec fn all_digits(s: Seq<char>) -> bool {
    forall|i: int| 0 <= i < s.len() ==> 48 <= (#[trigger] s[i]) as int <= 57
}

/// A digit string's value is non-negative and only grows along prefixes.
proof fn lemma_dec_val_monotone(s: Seq<char>, j: int)
    requires
        all_digits(s),
        0 <= j <= s.len(),
    ensures
        dec_val(s) >= dec_val(s.take(j)) >= 0,
    decreases s.len() - j,
{
    if j == s.len() {
        assert(s.take(j) =~= s);
        lemma_dec_val_nonneg(s);
    } else {
        lemma_dec_val_monotone(s, j + 1);
        assert(s.take(j + 1).drop_last() =~= s.take(j));
        lemma_dec_val_nonneg(s.take(j));
        assert(48 <= s[j] as int <= 57);
        assert(s.take(j + 1).last() == s[j]);
    }
}

/// A digit string's value is non-negative.
proof fn lemma_dec_val_nonneg(s: Seq<char>)
    requires
        all_digits(s),
    ensures
        dec_val(s) >= 0,
    decreases s.len(),
{
    if s.len() > 0 {
        assert(all_digits(s.drop_last())) by {
            assert(forall|i: int| 0 <= i < s.len() - 1 ==> s.drop_last()[i] == s[i]);
        }
        lemma_dec_val_nonneg(s.drop_last());
        assert(48 <= s[s.len() - 1] as int <= 57);
    }
}

/// Decodes a solver variable name of the form `P_<id>`. Returns the id
/// exactly when the name has that form and the digits fit a `u64`.
#[verifier::loop_isolation(false)]
pub fn parse_var_id(name: &str) -> (r: Option<u64>)
    ensures
        ({
            let ok = name@.len() >= 3 && name@[0] == 'P' && name@[1] == '_' && all_digits(
                name@.skip(2),
            ) && dec_val(name@.skip(2)) <= u64::MAX;
            match r {
                Some(v) => ok && v as int == dec_val(name@.skip(2)),
                None => !ok,
            }
        }),
{
    let len = name.unicode_len();
    if len < 3 {
        return None;
    }
    if name.get_char(0) != 'P' || name.get_char(1) != '_' {
        return None;
    }
    let ghost digits = name@.skip(2);
    let mut val: u64 = 0;
    let mut i: usize = 2;
    while i < len
        invariant
            2 <= i <= len,
            len == name@.len(),
            digits == name@.skip(2),
            all_digits(digits.take(i - 2)),
            val as int == dec_val(digits.take(i - 2)),
        decreases len - i,
    {
        let c = name.get_char(i) as u32;
        if c < 48 || c > 57 {
            proof {
                assert(name@[i as int] == digits[i - 2]);
                assert(!all_digits(digits));
            }
            return None;
        }
        let d = (c - 48) as u64;
        proof {
            assert(digits.take(i - 1).drop_last() =~= digits.take(i - 2));
            assert(digits.take(i - 1).last() == digits[i - 2]);
            assert(digits[i - 2] == name@[i as int]);
            assert(all_digits(digits.take(i - 1)));
        }
        if val > (u64::MAX - d) / 10 {
            proof {
                assert(val as int * 10 + d > u64::MAX) by {
                    assert(val as int >= (u64::MAX - d) / 10 + 1);
                    assert(((u64::MAX - d) / 10 + 1) * 10 >= u64::MAX - d + 1)
                        by (nonlinear_arith);
                }
                assert(dec_val(digits.take(i - 1)) > u64::MAX);
                lemma_dec_val_monotone_partial(digits, i - 1);
            }
            return None;
        }
        val = val * 10 + d;
        i += 1;
    }
    proof {
        assert(digits.take(len - 2) =~= digits);
    }
    Some(val)
}

/// If a digit prefix of a string already exceeds a bound, and the remaining
/// characters are unknown, the whole string either is not all digits or
/// exceeds the bound.
proof fn lemma_dec_val_monotone_partial(s: Seq<char>, j: int)
    requires
        0 <= j <= s.len(),
        all_digits(s.take(j)),
        dec_val(s.take(j)) > u64::MAX,
    ensures
        !(all_digits(s) && dec_val(s) <= u64::MAX),
{
    if all_digits(s) {
        lemma_dec_val_monotone(s, j);
    }
}

impl LpOptimizer {
    /// Decodes a solver's variable assignment into the chosen item ids: the
    /// id of every variable assigned true, in assignment order. A variable
    /// name that does not parse back to an id is a malformed record.
    pub fn solve(&self, var_values: Vec<(String, bool)>) -> (r: Result<Vec<u64>, LineupError>)
        ensures
            ({
                match r {
                    Ok(ids) => {
                        &&& forall|w: int|
                            0 <= w < var_values@.len() && (#[trigger] var_values@[w]).1
                                ==> parse_ok(var_values@[w].0@)
                        &&& ids@ == chosen_ids(var_values@)
                    },
                    Err(e) => e == LineupError::MalformedRecord && exists|w: int|
                        0 <= w < var_values@.len() && (#[trigger] var_values@[w]).1 && !parse_ok(
                            var_values@[w].0@,
                        ),
                }
            }),
    {
        let mut ids: Vec<u64> = Vec::new();
        let mut w: usize = 0;
        while w < var_values.len()
            invariant
                w <= var_values@.len(),
                forall|u: int|
                    0 <= u < w && (#[trigger] var_values@[u]).1 ==> parse_ok(
                        var_values@[u].0@,
                    ),
                ids@ == chosen_ids(var_values@.take(w as int)),
            decreases var_values@.len() - w,
        {
            proof {
                assert(var_values@.take(w + 1int).drop_last() =~= var_values@.take(w as int));
                assert(var_values@.take(w + 1int).last() == var_values@[w as int]);
            }
            if var_values[w].1 {
                match parse_var_id(var_values[w].0.as_str()) {
                    Some(id) => {
                        proof {
                            assert(chosen_ids(var_values@.take(w + 1int)) =~= ids@.push(id));
                        }
                        ids.push(id);
                    },
                    None => {
                        return Err(LineupError::MalformedRecord);
                    },
                }
            }
            w += 1;
        }
        proof {
            assert(var_values@.take(var_values@.len() as int) =~= var_values@);
        }
        Ok(ids)
    }
}

/// The name parses back to an id.
pub open spec fn parse_ok(name: Seq<char>) -> bool {
    name.len() >= 3 && name[0] == 'P' && name[1] == '_' && all_digits(name.skip(2)) && dec_val(
        name.skip(2),
    ) <= u64::MAX
}

/// The ids of the variables assigned true, in assignment order.
pub open spec fn chosen_ids(vals: Seq<(String, bool)>) -> Seq<u64>
    decreases vals.len(),
{
    if vals.len() == 0 {
        Seq::empty()
    } else {
        let pre = chosen_ids(vals.drop_last());
        if vals.last().1 {
            pre.push(dec_val(vals.last().0@.skip(2)) as u64)
        } else {
            pre
        }
    }
}

} // verus!
