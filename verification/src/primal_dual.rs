//! The primal-dual budgeted-allocation solver.
//!
//! Agents declare budgets and place bids on items (`set_budget`, `set_bid`);
//! `solve` drives every agent to the "paid for" state by reconciling item
//! ownership against per-item price ledgers and deepening the discount
//! `alpha` of agents that stay over their slack-adjusted budget threshold;
//! `make_valid_assignment` rounds the loop's over-budget-tolerant temporary
//! allocation into a strictly budget-feasible `Assignment`.
//!
//! All dual arithmetic is exact fixed-point arithmetic with denominator
//! `SCALE`: `alpha` and `epsilon` are stored in units of `1 / SCALE`, and the
//! global maximum bid-to-budget ratio `beta` is kept as an exact fraction
//! `beta_num / beta_den`, so the feasibility predicate is a division-free
//! integer comparison.

use vstd::prelude::*;
use vstd::set_lib::lemma_len_subset;
use vstd::set_lib::lemma_int_range;
use vstd::set_lib::set_int_range;
use crate::assignment::Assignment;
use crate::price_ledger::entry_le;
use crate::price_ledger::PriceEntry;
use crate::price_ledger::PriceLedger;

verus! {

/// Fixed-point denominator for `alpha` and `epsilon`: 2^20.
pub const SCALE: u64 = 1048576;

/// The largest representable bid value (`u32::MAX`).
pub const MAX_BID: u64 = 4294967295;

/// Defensive cap on the number of passes of the convergence loop; exceeding
/// it is surfaced as `SolveError::NonConvergence` instead of a silent
/// partial result.
pub const ROUND_CAP: u64 = 1000000;

/// A fatal condition raised by `solve`. Numeric faults cannot arise: all
/// value arithmetic is exact integer arithmetic, proved in range, so the
/// only fatal condition left is the defensive iteration cap.
#[derive(Clone, Copy, Debug, PartialEq, Eq, Structural)]
pub enum SolveError {
    /// The defensive iteration cap was exceeded before every agent reached
    /// the paid-for state simultaneously.
    NonConvergence,
}

/// Sum, as an unbounded integer, of `row[items[k]]` over all positions `k`.
/// This is the consumption that a list of held or assigned items induces for
/// the agent whose bid row is `row`.
pub open spec fn sum_bids(row: Seq<u32>, items: Seq<usize>) -> int
    decreases items.len(),
{
    if items.len() == 0 {
        0
    } else {
        row[items[0] as int] + sum_bids(row, items.drop_first())
    }
}

/// `n1/d1 <= n2/d2` as exact rationals, cross-multiplied (meaningful for
/// positive denominators).
pub open spec fn ratio_le(n1: int, d1: int, n2: int, d2: int) -> bool {
    n1 * d2 <= n2 * d1
}

/// `bn / bd` is exactly the maximum bid-to-budget ratio over the accepted
/// bids `hist` (each record is a bid and the budget at acceptance time):
/// it dominates every record and is attained by one of them, and it is the
/// fixed fraction 0/1 while no bid has been accepted.
pub open spec fn beta_is_max(bn: u32, bd: u32, hist: Seq<(u32, u32)>) -> bool {
    &&& forall|k: int|
        0 <= k < hist.len() ==> ratio_le(
            (#[trigger] hist[k]).0 as int,
            hist[k].1 as int,
            bn as int,
            bd as int,
        )
    &&& if hist.len() == 0 {
        bn == 0 && bd == 1
    } else {
        exists|k: int| 0 <= k < hist.len() && (#[trigger] hist[k]).0 == bn && hist[k].1 == bd
    }
}

/// The "adequately paid for" test: consumption `c` is within `U * b`, where
/// `b` is the budget and `U = ((1 - a)(4 - beta) + beta) / ((1 - a)(4 - beta))`
/// is the slack multiplier, with `a = alpha/SCALE` and `beta = bn/bd`.
/// Clearing the (positive) denominators `SCALE * bd` turns the comparison
/// into this exact integer inequality; when `alpha` has reached `SCALE`
/// (a discount of 1) the threshold is unbounded and the test holds.
pub open spec fn paid_within(c: int, b: int, a: int, bn: int, bd: int) -> bool {
    c * ((SCALE as int - a) * (4 * bd - bn)) <= b * ((SCALE as int - a) * (4 * bd - bn)
        + SCALE as int * bn)
}

/// The discount update rule in fixed point: the first update sets `alpha`
/// to `epsilon`; every later update adds `epsilon * (1 - alpha)` — the exact
/// form of multiplying by `1 + epsilon * (1 - alpha) / alpha` — rounded up
/// so that the discount strictly grows until it reaches 1 (`SCALE`).
pub open spec fn next_alpha(alpha: int, nu: int, epsilon: int) -> int {
    if nu == 0 {
        epsilon
    } else {
        alpha + (epsilon * (SCALE as int - alpha) + (SCALE as int - 1)) / (SCALE as int)
    }
}

/// The items, in ascending order, among the first `m` whose seed-dominant
/// agent is `a`: exactly what initialization hands to agent `a`.
pub open spec fn seeded_items(ma: Seq<Option<usize>>, a: int, m: int) -> Seq<usize>
    decreases m,
{
    if m <= 0 {
        Seq::empty()
    } else if ma[m - 1] matches Some(x) && x as int == a {
        seeded_items(ma, a, m - 1).push((m - 1) as usize)
    } else {
        seeded_items(ma, a, m - 1)
    }
}

/// The solver. Fields are public so that the specification functions below
/// can speak about them directly; mutating them from outside voids the
/// well-formedness that the operations require.
pub struct PrimalDual {
    pub num_agents: usize,
    pub num_items: usize,
    /// Accuracy parameter in units of `1 / SCALE`; in `(0, 1]`.
    pub epsilon: u64,
    /// Declared budget per agent.
    pub budgets: Vec<u32>,
    /// Consumption per agent: the sum of its bids on the items it currently
    /// holds in the temporary allocation.
    pub consumptions: Vec<u64>,
    /// Maximum bid-to-budget ratio over all accepted bids, as the exact
    /// fraction `beta_num / beta_den` (0/1 before any bid is accepted).
    pub beta_num: u32,
    pub beta_den: u32,
    /// Per item, the lazily revalidated price ledger.
    pub item_agent: Vec<PriceLedger>,
    /// Discount per agent, in units of `1 / SCALE`; grows from 0 toward
    /// `SCALE`.
    pub alpha: Vec<u64>,
    /// Temporary allocation: the items each agent currently holds.
    pub assignment_temp: Vec<Vec<usize>>,
    /// Seed cache: the agent currently believed dominant for each item.
    pub max_agent: Vec<Option<usize>>,
    /// Bid matrix: `data[agent][item]` is the accepted bid, 0 if none.
    pub data: Vec<Vec<u32>>,
    /// Update counter per agent: bumped exactly once per `alpha` change.
    pub num_update: Vec<u64>,
    /// History of accepted bids as (bid, budget at acceptance) records.
    pub accepted: Ghost<Seq<(u32, u32)>>,
}

impl PrimalDual {
    pub open spec fn n(self) -> int {
        self.num_agents as int
    }

    pub open spec fn m(self) -> int {
        self.num_items as int
    }

    pub open spec fn dims_ok(self) -> bool {
        &&& self.budgets@.len() == self.n()
        &&& self.consumptions@.len() == self.n()
        &&& self.alpha@.len() == self.n()
        &&& self.num_update@.len() == self.n()
        &&& self.assignment_temp@.len() == self.n()
        &&& self.data@.len() == self.n()
        &&& forall|a: int| 0 <= a < self.n() ==> (#[trigger] self.data@[a])@.len() == self.m()
        &&& self.item_agent@.len() == self.m()
        &&& self.max_agent@.len() == self.m()
    }

    /// Whether agent `a` passes the paid-for feasibility test in the current
    /// state.
    pub open spec fn paid(self, a: int) -> bool {
        paid_within(
            self.consumptions@[a] as int,
            self.budgets@[a] as int,
            self.alpha@[a] as int,
            self.beta_num as int,
            self.beta_den as int,
        )
    }

    /// Structural well-formedness: dimensions, parameter ranges, the link
    /// between `beta` and the accepted-bid history, the validity of every
    /// accepted bid, and the range of every ledger entry and seed cache.
    pub open spec fn base_wf(self) -> bool {
        &&& self.dims_ok()
        &&& 0 < self.epsilon <= SCALE
        &&& self.m() <= 0x1_0000_0000
        &&& forall|a: int| 0 <= a < self.n() ==> (#[trigger] self.alpha@[a]) <= SCALE
        &&& forall|a: int|
            0 <= a < self.n() ==> (#[trigger] self.num_update@[a]) as int <= self.alpha@[a] as int
                + 1
        &&& forall|a: int|
            0 <= a < self.n() ==> ((#[trigger] self.num_update@[a]) == 0 ==> self.alpha@[a] == 0)
        &&& 1 <= self.beta_den
        &&& self.beta_num <= self.beta_den
        &&& beta_is_max(self.beta_num, self.beta_den, self.accepted@)
        &&& forall|k: int|
            0 <= k < self.accepted@.len() ==> 0 < (#[trigger] self.accepted@[k]).0
                <= self.accepted@[k].1
        &&& forall|i: int, k: int|
            0 <= i < self.m() && 0 <= k < self.item_agent@[i].entries@.len() ==> self.entry_ok(
                i,
                (#[trigger] self.item_agent@[i].entries@[k]),
            )
        &&& forall|a: int, i: int|
            0 <= a < self.n() && 0 <= i < self.m() && (#[trigger] self.data@[a]@[i]) > 0
                ==> exists|k: int|
                0 <= k < self.item_agent@[i].entries@.len() && ((#[trigger] self.item_agent@[
                i].entries@[k]).agent as int) == a
        &&& forall|i: int|
            0 <= i < self.m() ==> ((#[trigger] self.max_agent@[i]) matches Some(a) ==> a
                < self.num_agents && self.item_agent@[i].entries@.len() >= 1 && self.data@[
            a as int]@[i] > 0)
    }

    /// Validity of one ledger entry for item `i`: its agent is a real bidder
    /// on the item; the entry's stamp is never newer than the agent's update
    /// counter; a freshly stamped entry stores exactly the agent's current
    /// effective price; and a stored price never undershoots the current
    /// effective price, because effective prices only decay as discounts
    /// grow. Together these make lazy revalidation sound: the maximal
    /// freshly stamped entry belongs to the agent with the highest current
    /// effective price among all of the item's bidders.
    pub open spec fn entry_ok(self, i: int, e: PriceEntry) -> bool {
        &&& (e.agent as int) < self.n()
        &&& self.data@[e.agent as int]@[i] > 0
        &&& e.stamp <= self.num_update@[e.agent as int]
        &&& (e.stamp == self.num_update@[e.agent as int] ==> e.price as int == self.spec_price(
            e.agent as int,
            i,
        ))
        &&& e.price as int >= self.spec_price(e.agent as int, i)
    }

    /// Well-formedness of the temporary allocation: held items are in range
    /// and have a non-empty ledger, no item is held twice (by any agent or
    /// pair of agents), and each agent's consumption is exactly the sum of
    /// its bids on its held items.
    pub open spec fn held_wf(self) -> bool {
        &&& forall|a: int, k: int|
            0 <= a < self.n() && 0 <= k < self.assignment_temp@[a]@.len() ==> ((
            #[trigger] self.assignment_temp@[a]@[k]) as int) < self.m()
                && self.item_agent@[self.assignment_temp@[a]@[k] as int].entries@.len() >= 1
                && self.data@[a]@[self.assignment_temp@[a]@[k] as int] > 0
        &&& forall|a1: int, k1: int, a2: int, k2: int|
            #![trigger self.assignment_temp@[a1]@[k1], self.assignment_temp@[a2]@[k2]]
            0 <= a1 < self.n() && 0 <= k1 < self.assignment_temp@[a1]@.len() && 0 <= a2 < self.n()
                && 0 <= k2 < self.assignment_temp@[a2]@.len() && (a1 != a2 || k1 != k2)
                ==> self.assignment_temp@[a1]@[k1] != self.assignment_temp@[a2]@[k2]
        &&& forall|a: int|
            0 <= a < self.n() ==> (#[trigger] self.consumptions@[a]) as int == sum_bids(
                self.data@[a]@,
                self.assignment_temp@[a]@,
            )
    }

    pub open spec fn wf(self) -> bool {
        self.base_wf() && self.held_wf()
    }

    /// No item is held and nothing has been consumed: the state between
    /// construction and `solve`.
    pub open spec fn fresh_state(self) -> bool {
        &&& forall|a: int| 0 <= a < self.n() ==> (#[trigger] self.assignment_temp@[a])@.len() == 0
        &&& forall|a: int| 0 <= a < self.n() ==> (#[trigger] self.consumptions@[a]) == 0u64
    }

    /// Constructs a solver for `num_agents` agents and `num_items` items
    /// with accuracy parameter `epsilon / SCALE`, which must lie in (0, 1].
    /// The item count is capped at 2^32 so that every consumption sum fits
    /// in 64 bits and every feasibility comparison fits in 128 bits.
    pub fn new(num_agents: usize, num_items: usize, epsilon: u64) -> (r: PrimalDual)
        requires
            0 < epsilon <= SCALE,
            num_items as int <= 0x1_0000_0000,
        ensures
            r.wf(),
            r.fresh_state(),
            r.num_agents == num_agents,
            r.num_items == num_items,
            r.epsilon == epsilon,
            forall|a: int| 0 <= a < num_agents ==> (#[trigger] r.budgets@[a]) == 0u32,
            forall|a: int| 0 <= a < num_agents ==> (#[trigger] r.alpha@[a]) == 0u64,
            forall|a: int| 0 <= a < num_agents ==> (#[trigger] r.num_update@[a]) == 0u64,
            forall|a: int, i: int|
                0 <= a < num_agents && 0 <= i < num_items ==> (#[trigger] r.data@[a]@[i])
                    == 0u32,
            forall|i: int| 0 <= i < num_items ==> (#[trigger] r.max_agent@[i]) is None,
            forall|i: int| 0 <= i < num_items ==> (#[trigger] r.item_agent@[i]).entries@.len() == 0,
            r.beta_num == 0,
            r.beta_den == 1,
            r.accepted@ == Seq::<(u32, u32)>::empty(),
    {
        let mut budgets: Vec<u32> = Vec::new();
        let mut consumptions: Vec<u64> = Vec::new();
        let mut alpha: Vec<u64> = Vec::new();
        let mut num_update: Vec<u64> = Vec::new();
        let mut assignment_temp: Vec<Vec<usize>> = Vec::new();
        let mut data: Vec<Vec<u32>> = Vec::new();
        let mut a: usize = 0;
        while a < num_agents
            invariant
                a <= num_agents,
                budgets@.len() == a,
                consumptions@.len() == a,
                alpha@.len() == a,
                num_update@.len() == a,
                assignment_temp@.len() == a,
                data@.len() == a,
                forall|k: int| 0 <= k < a ==> (#[trigger] budgets@[k]) == 0u32,
                forall|k: int| 0 <= k < a ==> (#[trigger] consumptions@[k]) == 0u64,
                forall|k: int| 0 <= k < a ==> (#[trigger] alpha@[k]) == 0u64,
                forall|k: int| 0 <= k < a ==> (#[trigger] num_update@[k]) == 0u64,
                forall|k: int| 0 <= k < a ==> (#[trigger] assignment_temp@[k])@.len() == 0,
                forall|k: int| 0 <= k < a ==> (#[trigger] data@[k])@.len() == num_items,
                forall|k: int, i: int|
                    0 <= k < a && 0 <= i < num_items ==> (#[trigger] data@[k]@[i]) == 0u32,
            decreases num_agents - a,
        {
            budgets.push(0u32);
            consumptions.push(0u64);
            alpha.push(0u64);
            num_update.push(0u64);
            assignment_temp.push(Vec::new());
            let mut row: Vec<u32> = Vec::new();
            let mut i: usize = 0;
            while i < num_items
                invariant
                    i <= num_items,
                    row@.len() == i,
                    forall|k: int| 0 <= k < i ==> (#[trigger] row@[k]) == 0u32,
                decreases num_items - i,
            {
                row.push(0u32);
                i = i + 1;
            }
            data.push(row);
            a = a + 1;
        }
        let mut item_agent: Vec<PriceLedger> = Vec::new();
        let mut max_agent: Vec<Option<usize>> = Vec::new();
        let mut i: usize = 0;
        while i < num_items
            invariant
                i <= num_items,
                item_agent@.len() == i,
                max_agent@.len() == i,
                forall|k: int| 0 <= k < i ==> (#[trigger] item_agent@[k]).entries@.len() == 0,
                forall|k: int| 0 <= k < i ==> (#[trigger] max_agent@[k]) is None,
            decreases num_items - i,
        {
            item_agent.push(PriceLedger::new());
            max_agent.push(None);
            i = i + 1;
        }
        PrimalDual {
            num_agents,
            num_items,
            epsilon,
            budgets,
            consumptions,
            beta_num: 0u32,
            beta_den: 1u32,
            item_agent,
            alpha,
            assignment_temp,
            max_agent,
            data,
            num_update,
            accepted: Ghost(Seq::empty()),
        }
    }

    /// Sets `agent_id`'s budget. A budget may be set at any time; the bids
    /// already accepted keep the budget that was current at their acceptance.
    pub fn set_budget(&mut self, agent_id: usize, budget: u32)
        requires
            old(self).wf(),
            agent_id < old(self).num_agents,
        ensures
            final(self).wf(),
            final(self).budgets@ == old(self).budgets@.update(agent_id as int, budget),
            *final(self) == (PrimalDual { budgets: final(self).budgets, ..*old(self) }),
            old(self).fresh_state() ==> final(self).fresh_state(),
    {
        self.budgets[agent_id] = budget;
        proof {
            assert forall|a: int, i: int|
                0 <= a < self.n() && 0 <= i < self.m() && (#[trigger] self.data@[a]@[i])
                    > 0 implies exists|k: int|
                0 <= k < self.item_agent@[i].entries@.len() && ((#[trigger] self.item_agent@[
                i].entries@[k]).agent as int) == a by {
                let k0 = choose|k: int|
                    0 <= k < old(self).item_agent@[i].entries@.len() && ((#[trigger] old(
                        self,
                    ).item_agent@[i].entries@[k]).agent as int) == a;
                assert((self.item_agent@[i].entries@[k0].agent as int) == a);
            }
        }
    }

    /// Registers a bid by `agent_id` on `item_id`. The bid is accepted if
    /// and only if `0 < bid <= budget(agent_id)` and no bid by this agent on
    /// this item has been accepted before — bids are immutable once
    /// accepted. Otherwise the call is a silent no-op that leaves the whole
    /// solver unchanged. On acceptance the bid is recorded in the bid
    /// matrix, a price entry is pushed on the item's ledger, the item's
    /// seed-dominant agent is replaced only by a strictly larger bid (the
    /// first writer wins ties), and `beta` grows to the bid's ratio if that
    /// ratio is strictly larger.
    pub fn set_bid(&mut self, agent_id: usize, item_id: usize, bid: u32)
        requires
            old(self).wf(),
            old(self).fresh_state(),
            agent_id < old(self).num_agents,
            item_id < old(self).num_items,
        ensures
            final(self).wf(),
            final(self).fresh_state(),
            !(0 < bid <= old(self).budgets@[agent_id as int] && old(self).data@[
                agent_id as int]@[item_id as int] == 0) ==> *final(self) == *old(self),
            (0 < bid <= old(self).budgets@[agent_id as int] && old(self).data@[agent_id as int]@[
                item_id as int] == 0) ==> {
                &&& final(self).accepted@ == old(self).accepted@.push(
                    (bid, old(self).budgets@[agent_id as int]),
                )
                &&& final(self).data@[agent_id as int]@ == old(self).data@[agent_id as int]@.update(
                    item_id as int,
                    bid,
                )
                &&& forall|a: int|
                    0 <= a < old(self).n() && a != agent_id ==> (#[trigger] final(self).data@[a])
                        == old(self).data@[a]
                &&& final(self).item_agent@[item_id as int].entries@ == old(
                    self,
                ).item_agent@[item_id as int].entries@.push(
                    (PriceEntry {
                        price: ((bid as u64) * SCALE) as u64,
                        stamp: 0u64,
                        agent: agent_id,
                    }),
                )
                &&& forall|i: int|
                    0 <= i < old(self).m() && i != item_id
                        ==> (#[trigger] final(self).item_agent@[i]) == old(self).item_agent@[i]
                &&& (old(self).max_agent@[item_id as int] is None ==> final(self).max_agent@
                    == old(self).max_agent@.update(item_id as int, Some(agent_id)))
                &&& (old(self).max_agent@[item_id as int] matches Some(prev)
                    ==> final(self).max_agent@ == (if bid > final(self).data@[prev as int]@[
                    item_id as int] {
                        old(self).max_agent@.update(item_id as int, Some(agent_id))
                    } else {
                        old(self).max_agent@
                    }))
            },
            // `beta` is monotonically non-decreasing and stays the exact
            // maximum ratio over the accepted history.
            ratio_le(
                old(self).beta_num as int,
                old(self).beta_den as int,
                final(self).beta_num as int,
                final(self).beta_den as int,
            ),
            beta_is_max(final(self).beta_num, final(self).beta_den, final(self).accepted@),
            final(self).budgets == old(self).budgets,
            final(self).alpha == old(self).alpha,
            final(self).num_update == old(self).num_update,
            final(self).consumptions == old(self).consumptions,
            final(self).assignment_temp == old(self).assignment_temp,
            final(self).num_agents == old(self).num_agents,
            final(self).num_items == old(self).num_items,
            final(self).epsilon == old(self).epsilon,
    {
        if bid == 0 {
            return ;
        }
        if bid > self.budgets[agent_id] {
            return ;
        }
        if self.data[agent_id][item_id] > 0 {
            return ;
        }
        let budget_at = self.budgets[agent_id];
        self.data[agent_id][item_id] = bid;
        self.item_agent[item_id].push(
            PriceEntry { price: (bid as u64) * SCALE, stamp: 0u64, agent: agent_id },
        );
        match self.max_agent[item_id] {
            None => {
                self.max_agent[item_id] = Some(agent_id);
            },
            Some(prev) => {
                let max_bid = self.data[prev][item_id];
                if bid > max_bid {
                    self.max_agent[item_id] = Some(agent_id);
                }
            },
        }
        let ghost old_beta_num = self.beta_num;
        let ghost old_beta_den = self.beta_den;
        proof {
            lemma_mul_le(bid as int, MAX_BID as int, self.beta_den as int, MAX_BID as int);
            lemma_mul_le(self.beta_num as int, MAX_BID as int, budget_at as int, MAX_BID as int);
        }
        if (bid as u64) * (self.beta_den as u64) > (self.beta_num as u64) * (budget_at as u64) {
            self.beta_num = bid;
            self.beta_den = budget_at;
        }
        proof {
            self.accepted@ = self.accepted@.push((bid, budget_at));
        }
        proof {
            let hist = self.accepted@;
            let prior = hist.drop_last();
            assert(prior =~= old(self).accepted@);
            assert(hist.last() == (bid, budget_at));
            assert forall|k: int|
                0 <= k < hist.len() implies ratio_le(
                (#[trigger] hist[k]).0 as int,
                hist[k].1 as int,
                self.beta_num as int,
                self.beta_den as int,
            ) by {
                if k < hist.len() - 1 {
                    assert(hist[k] == old(self).accepted@[k]);
                    if self.beta_num != old_beta_num || self.beta_den != old_beta_den {
                        lemma_ratio_le_trans(
                            hist[k].0 as int,
                            hist[k].1 as int,
                            old_beta_num as int,
                            old_beta_den as int,
                            self.beta_num as int,
                            self.beta_den as int,
                        );
                    }
                }
            }
            if self.beta_num == old_beta_num && self.beta_den == old_beta_den {
                assert(ratio_le(
                    bid as int,
                    budget_at as int,
                    self.beta_num as int,
                    self.beta_den as int,
                ));
                if old(self).accepted@.len() == 0 {
                    assert(old_beta_num == 0 && old_beta_den == 1);
                    assert(bid as int * 1 <= 0 * budget_at as int);
                    assert(false);
                }
                let k0 = choose|k: int|
                    0 <= k < old(self).accepted@.len() && (#[trigger] old(self).accepted@[k]).0
                        == old_beta_num && old(self).accepted@[k].1 == old_beta_den;
                assert(hist[k0] == old(self).accepted@[k0]);
            } else {
                assert(hist[hist.len() - 1].0 == self.beta_num);
            }
        }
        proof {
            let it = item_id as int;
            let ag = agent_id as int;
            let entries = self.item_agent@[it].entries@;
            let e_new = entries[entries.len() - 1];
            assert(self.data@[ag]@ == old(self).data@[ag]@.update(it, bid));
            assert forall|i: int, k: int|
                0 <= i < self.m() && 0 <= k < self.item_agent@[i].entries@.len() implies self.entry_ok(
                i,
                (#[trigger] self.item_agent@[i].entries@[k]),
            ) by {
                let e = self.item_agent@[i].entries@[k];
                if i == it && k == entries.len() - 1 {
                    assert(e.price == (bid as u64) * SCALE);
                    if e.stamp == self.num_update@[ag] {
                        assert(self.alpha@[ag] == 0);
                    }
                    lemma_mul_le(
                        bid as int,
                        bid as int,
                        SCALE as int - self.alpha@[ag] as int,
                        SCALE as int,
                    );
                } else {
                    assert(old(self).entry_ok(i, e));
                    assert(!(e.agent as int == ag && i == it));
                    assert(self.data@[e.agent as int]@[i] == old(self).data@[e.agent as int]@[i]);
                }
            }
            assert forall|a: int, i: int|
                0 <= a < self.n() && 0 <= i < self.m() && (#[trigger] self.data@[a]@[i])
                    > 0 implies exists|k: int|
                0 <= k < self.item_agent@[i].entries@.len() && ((#[trigger] self.item_agent@[
                i].entries@[k]).agent as int) == a by {
                if a == ag && i == it {
                    assert((self.item_agent@[it].entries@[entries.len() - 1].agent as int) == a);
                } else {
                    assert(old(self).data@[a]@[i] > 0);
                    let k0 = choose|k: int|
                        0 <= k < old(self).item_agent@[i].entries@.len() && ((#[trigger] old(
                            self,
                        ).item_agent@[i].entries@[k]).agent as int) == a;
                    assert((self.item_agent@[i].entries@[k0].agent as int) == a);
                }
            }
        }
    }

    /// Effective price of `agent`'s bid on `item` under the agent's current
    /// discount, in fixed point: bid * (SCALE - alpha).
    pub open spec fn spec_price(self, agent: int, item: int) -> int {
        self.data@[agent]@[item] as int * (SCALE as int - self.alpha@[agent] as int)
    }

    fn calc_price(&self, agent_id: usize, item_id: usize) -> (r: u64)
        requires
            self.dims_ok(),
            agent_id < self.num_agents,
            item_id < self.num_items,
            self.alpha@[agent_id as int] <= SCALE,
        ensures
            r as int == self.spec_price(agent_id as int, item_id as int),
    {
        let bid = self.data[agent_id][item_id];
        let factor = SCALE - self.alpha[agent_id];
        proof {
            lemma_mul_le(bid as int, MAX_BID as int, factor as int, SCALE as int);
        }
        (bid as u64) * factor
    }

    /// The feasibility test of the dual state: consumption within
    /// `U(agent) * budget(agent)`, decided exactly in 128-bit integers.
    fn is_paid_for(&self, agent_id: usize) -> (r: bool)
        requires
            self.base_wf(),
            agent_id < self.num_agents,
        ensures
            r == self.paid(agent_id as int),
    {
        let c = self.consumptions[agent_id] as u128;
        let b = self.budgets[agent_id] as u128;
        let alpha = self.alpha[agent_id];
        let bn = self.beta_num as u128;
        let bd = self.beta_den as u128;
        let f1 = (SCALE - alpha) as u128;
        let f2 = 4 * bd - bn;
        proof {
            lemma_mul_le(f1 as int, SCALE as int, f2 as int, 4 * MAX_BID as int);
            lemma_mul_le(
                c as int,
                u64::MAX as int,
                (f1 * f2) as int,
                SCALE as int * 4 * MAX_BID as int,
            );
            lemma_mul_le(SCALE as int, SCALE as int, bn as int, MAX_BID as int);
            lemma_mul_le(
                b as int,
                MAX_BID as int,
                (f1 * f2 + SCALE as int * bn) as int,
                SCALE as int * 4 * MAX_BID as int + SCALE as int * MAX_BID as int,
            );
            vstd::arithmetic::mul::lemma_mul_is_associative(c as int, f1 as int, f2 as int);
        }
        let lhs = c * (f1 * f2);
        let rhs = b * (f1 * f2 + (SCALE as u128) * bn);
        lhs <= rhs
    }

    /// Deepens `agent_id`'s discount: the first update sets `alpha` to
    /// `epsilon`; later updates add `epsilon * (1 - alpha)` (the exact
    /// fixed-point form of multiplying by `1 + epsilon * (1 - alpha) / alpha`),
    /// rounded up so that the discount strictly grows until it reaches 1.
    /// The update counter is bumped exactly once.
    fn update_alpha(&mut self, agent_id: usize)
        requires
            old(self).base_wf(),
            agent_id < old(self).num_agents,
            old(self).alpha@[agent_id as int] < SCALE,
        ensures
            final(self).base_wf(),
            old(self).alpha@[agent_id as int] < final(self).alpha@[agent_id as int],
            final(self).alpha@[agent_id as int] <= SCALE,
            final(self).num_update@[agent_id as int] == old(self).num_update@[agent_id as int]
                + 1,
            final(self).alpha@ == old(self).alpha@.update(
                agent_id as int,
                final(self).alpha@[agent_id as int],
            ),
            final(self).num_update@ == old(self).num_update@.update(
                agent_id as int,
                final(self).num_update@[agent_id as int],
            ),
            final(self).alpha@[agent_id as int] as int == next_alpha(
                old(self).alpha@[agent_id as int] as int,
                old(self).num_update@[agent_id as int] as int,
                old(self).epsilon as int,
            ),
            *final(self) == (PrimalDual {
                alpha: final(self).alpha,
                num_update: final(self).num_update,
                ..*old(self)
            }),
    {
        let a0 = self.alpha[agent_id];
        if self.num_update[agent_id] == 0 {
            self.alpha[agent_id] = self.epsilon;
        } else {
            let e = self.epsilon;
            proof {
                lemma_mul_le(e as int, SCALE as int, (SCALE - a0) as int, SCALE as int);
                assert(1 <= e as int * (SCALE - a0) as int) by (nonlinear_arith)
                    requires
                        1 <= e as int,
                        1 <= (SCALE - a0) as int,
                ;
            }
            let product = e * (SCALE - a0);
            let step = (product + (SCALE - 1)) / SCALE;
            proof {
                assert(step >= 1);
                assert(product as int <= SCALE as int * (SCALE - a0) as int) by (nonlinear_arith)
                    requires
                        e as int <= SCALE as int,
                        0 <= (SCALE - a0) as int,
                        product as int == e as int * (SCALE - a0) as int,
                ;
                assert(step as int <= (SCALE - a0) as int) by (nonlinear_arith)
                    requires
                        step as int == (product as int + (SCALE as int - 1)) / SCALE as int,
                        0 <= product as int <= SCALE as int * (SCALE - a0) as int,
                        0 <= (SCALE - a0) as int,
                ;
            }
            self.alpha[agent_id] = a0 + step;
        }
        let nu = self.num_update[agent_id];
        self.num_update[agent_id] = nu + 1;
        proof {
            let ag = agent_id as int;
            assert forall|i: int, k: int|
                0 <= i < self.m() && 0 <= k < self.item_agent@[i].entries@.len() implies self.entry_ok(
                i,
                (#[trigger] self.item_agent@[i].entries@[k]),
            ) by {
                let e = self.item_agent@[i].entries@[k];
                assert(old(self).entry_ok(i, e));
                if e.agent as int == ag {
                    lemma_mul_le(
                        old(self).data@[ag]@[i] as int,
                        old(self).data@[ag]@[i] as int,
                        SCALE as int - self.alpha@[ag] as int,
                        SCALE as int - old(self).alpha@[ag] as int,
                    );
                }
            }
            assert forall|a: int, i: int|
                0 <= a < self.n() && 0 <= i < self.m() && (#[trigger] self.data@[a]@[i])
                    > 0 implies exists|k: int|
                0 <= k < self.item_agent@[i].entries@.len() && ((#[trigger] self.item_agent@[
                i].entries@[k]).agent as int) == a by {
                let k0 = choose|k: int|
                    0 <= k < old(self).item_agent@[i].entries@.len() && ((#[trigger] old(
                        self,
                    ).item_agent@[i].entries@[k]).agent as int) == a;
                assert((self.item_agent@[i].entries@[k0].agent as int) == a);
            }
        }
    }

    /// Seeds the temporary allocation: every item that received at least one
    /// bid is handed to its seed-dominant agent, whose consumption grows by
    /// its bid on the item. Afterwards each agent holds exactly the items
    /// seeded to it, in ascending order, and (through `held_wf`) its
    /// consumption is exactly the sum of its bids on them; unbid items are
    /// held by nobody.
    fn initialize(&mut self)
        requires
            old(self).wf(),
            old(self).fresh_state(),
        ensures
            final(self).wf(),
            *final(self) == (PrimalDual {
                consumptions: final(self).consumptions,
                assignment_temp: final(self).assignment_temp,
                ..*old(self)
            }),
            forall|a: int|
                0 <= a < old(self).n() ==> (#[trigger] final(self).assignment_temp@[a])@
                    == seeded_items(old(self).max_agent@, a, old(self).m()),
    {
        let num_items = self.num_items;
        let mut item_id: usize = 0;
        while item_id < num_items
            invariant
                self.wf(),
                item_id <= num_items,
                num_items == self.num_items,
                *self == (PrimalDual {
                    consumptions: self.consumptions,
                    assignment_temp: self.assignment_temp,
                    ..*old(self)
                }),
                forall|a: int, k: int|
                    0 <= a < self.n() && 0 <= k < self.assignment_temp@[a]@.len() ==> ((
                    #[trigger] self.assignment_temp@[a]@[k]) as int) < item_id,
                forall|a: int|
                    0 <= a < self.n() ==> (#[trigger] self.assignment_temp@[a])@ == seeded_items(
                        old(self).max_agent@,
                        a,
                        item_id as int,
                    ),
            decreases num_items - item_id,
        {
            let chosen = self.max_agent[item_id];
            match chosen {
                None => {},
                Some(agent_id) => {
                    let bid = self.data[agent_id][item_id];
                    let ghost pre = *self;
                    proof {
                        let row = self.data@[agent_id as int]@;
                        let held = self.assignment_temp@[agent_id as int]@;
                        assert(held.no_duplicates());
                        lemma_unique_bounded_len(held, item_id as int);
                        lemma_sum_bids_bounds(row, held);
                        lemma_sum_bids_push(row, held, item_id);
                    }
                    self.assignment_temp[agent_id].push(item_id);
                    let c = self.consumptions[agent_id];
                    self.consumptions[agent_id] = c + (bid as u64);
                    proof {
                        assert forall|a1: int, k1: int, a2: int, k2: int|
                            #![trigger self.assignment_temp@[a1]@[k1], self.assignment_temp@[a2]@[k2]]
                            0 <= a1 < self.n() && 0 <= k1 < self.assignment_temp@[a1]@.len() && 0
                                <= a2 < self.n() && 0 <= k2 < self.assignment_temp@[a2]@.len() && (
                            a1 != a2 || k1 != k2) implies self.assignment_temp@[a1]@[k1]
                            != self.assignment_temp@[a2]@[k2] by {
                            if a1 == agent_id as int && k1 == self.assignment_temp@[a1]@.len() - 1 {
                                assert(self.assignment_temp@[a1]@[k1] == item_id);
                                assert((self.assignment_temp@[a2]@[k2] as int) < item_id as int);
                            } else if a2 == agent_id as int && k2 == self.assignment_temp@[a2]@.len()
                                - 1 {
                                assert(self.assignment_temp@[a2]@[k2] == item_id);
                                assert((self.assignment_temp@[a1]@[k1] as int) < item_id as int);
                            } else {
                                assert(self.assignment_temp@[a1]@[k1] == pre.assignment_temp@[a1]@[k1]);
                                assert(self.assignment_temp@[a2]@[k2] == pre.assignment_temp@[a2]@[k2]);
                            }
                        }
                    }
                },
            }
            proof {
                assert forall|a: int|
                    0 <= a < self.n() implies (#[trigger] self.assignment_temp@[a])@
                    == seeded_items(old(self).max_agent@, a, item_id + 1) by {
                    assert(old(self).max_agent@[item_id as int] == self.max_agent@[
                    item_id as int]);
                }
            }
            item_id = item_id + 1;
        }
    }

    /// Finds the item's current top bidder by lazy revalidation: pops the
    /// maximal ledger entry; a freshly stamped entry wins and is pushed back,
    /// a stale one is re-priced with its agent's current discount, re-stamped
    /// and re-pushed. On return the item's ledger holds a freshly stamped
    /// maximal entry owned by the returned agent.
    fn max_price_agent(&mut self, item_id: usize) -> (r: usize)
        requires
            old(self).base_wf(),
            item_id < old(self).num_items,
            old(self).item_agent@[item_id as int].entries@.len() >= 1,
        ensures
            r < old(self).num_agents,
            final(self).base_wf(),
            *final(self) == (PrimalDual { item_agent: final(self).item_agent, ..*old(self) }),
            final(self).item_agent@.len() == old(self).item_agent@.len(),
            forall|i: int|
                0 <= i < old(self).m() && i != item_id ==> (#[trigger] final(self).item_agent@[i])
                    == old(self).item_agent@[i],
            final(self).item_agent@[item_id as int].entries@.len() == old(
                self,
            ).item_agent@[item_id as int].entries@.len(),
            exists|j: int|
                #![trigger final(self).item_agent@[item_id as int].entries@[j]]
                {
                    &&& 0 <= j < final(self).item_agent@[item_id as int].entries@.len()
                    &&& final(self).item_agent@[item_id as int].entries@[j].agent == r
                    &&& final(self).item_agent@[item_id as int].entries@[j].stamp
                        == final(self).num_update@[r as int]
                    &&& forall|k: int|
                        0 <= k < final(self).item_agent@[item_id as int].entries@.len()
                            ==> entry_le(
                            final(self).item_agent@[item_id as int].entries@[k],
                            final(self).item_agent@[item_id as int].entries@[j],
                        )
                },
            // the returned agent is a bidder on the item and maximizes the
            // current effective price over all of the item's bidders
            old(self).data@[r as int]@[item_id as int] > 0,
            forall|a: int|
                0 <= a < old(self).n() && old(self).data@[a]@[item_id as int] > 0 ==> old(
                    self,
                ).spec_price(a, item_id as int) <= old(self).spec_price(r as int, item_id as int),
    {
        loop
            invariant
                self.base_wf(),
                item_id < self.num_items,
                self.item_agent@[item_id as int].entries@.len() >= 1,
                *self == (PrimalDual { item_agent: self.item_agent, ..*old(self) }),
                self.item_agent@.len() == old(self).item_agent@.len(),
                forall|i: int|
                    0 <= i < self.m() && i != item_id ==> (#[trigger] self.item_agent@[i]) == old(
                        self,
                    ).item_agent@[i],
                self.item_agent@[item_id as int].entries@.len() == old(
                    self,
                ).item_agent@[item_id as int].entries@.len(),
            decreases stale_count(self.item_agent@[item_id as int].entries@, self.num_update@),
        {
            let ghost pre = self.item_agent@[item_id as int].entries@;
            proof {
                lemma_stale_count_nonneg(pre, self.num_update@);
            }
            let e = self.item_agent[item_id].pop();
            let ghost j = choose|j: int|
                0 <= j < pre.len() && e == pre[j] && self.item_agent@[item_id as int].entries@
                    == pre.remove(j);
            proof {
                lemma_stale_count_remove(pre, self.num_update@, j);
                lemma_stale_count_push(
                    self.item_agent@[item_id as int].entries@,
                    self.num_update@,
                    e,
                );
            }
            let agent_id = e.agent;
            if e.stamp == self.num_update[agent_id] {
                let ghost mid = self.item_agent@[item_id as int].entries@;
                self.item_agent[item_id].push(e);
                proof {
                    let it = item_id as int;
                    let entries = self.item_agent@[it].entries@;
                    let jlast = entries.len() - 1;
                    assert(entries[jlast] == e);
                    assert forall|k: int| 0 <= k < entries.len() implies entry_le(
                        entries[k],
                        entries[jlast],
                    ) by {
                        if k < jlast {
                            assert(pre.contains(entries[k]));
                        }
                    }
                    // the fresh maximal entry prices the true top bidder
                    assert(self.entry_ok(it, e));
                    assert(e.price as int == self.spec_price(e.agent as int, it));
                    assert forall|a: int|
                        0 <= a < self.n() && self.data@[a]@[it] > 0 implies self.spec_price(a, it)
                        <= self.spec_price(agent_id as int, it) by {
                        let k0 = choose|k: int|
                            0 <= k < pre.len() && (((#[trigger] pre[k]).agent) as int) == a;
                        assert(self.entry_ok(it, pre[k0]));
                        assert(entry_le(pre[k0], e));
                    }
                    // every bidder keeps an entry
                    assert forall|a: int, i: int|
                        0 <= a < self.n() && 0 <= i < self.m() && (#[trigger] self.data@[a]@[i])
                            > 0 implies exists|k: int|
                        0 <= k < self.item_agent@[i].entries@.len() && ((
                        #[trigger] self.item_agent@[i].entries@[k]).agent as int) == a by {
                        if i == it {
                            lemma_agent_survives_pop_push(pre, j, e, a);
                            assert(self.item_agent@[it].entries@ == pre.remove(j).push(e));
                        } else {
                            let k0 = choose|k: int|
                                0 <= k < old(self).item_agent@[i].entries@.len() && ((
                                #[trigger] old(self).item_agent@[i].entries@[k]).agent as int)
                                    == a;
                            assert((self.item_agent@[i].entries@[k0].agent as int) == a);
                        }
                    }
                    // every entry is still valid
                    assert forall|i: int, k: int|
                        0 <= i < self.m() && 0 <= k
                            < self.item_agent@[i].entries@.len() implies self.entry_ok(
                        i,
                        (#[trigger] self.item_agent@[i].entries@[k]),
                    ) by {
                        if i == it && k < entries.len() - 1 {
                            assert(pre.contains(entries[k]));
                        }
                    }
                }
                return agent_id;
            }
            let stamp = self.num_update[agent_id];
            let price = self.calc_price(agent_id, item_id);
            let ghost mid = self.item_agent@[item_id as int].entries@;
            self.item_agent[item_id].push(PriceEntry { price, stamp, agent: agent_id });
            proof {
                let it = item_id as int;
                let fresh_e = (PriceEntry { price, stamp, agent: agent_id });
                assert forall|a: int, i: int|
                    0 <= a < self.n() && 0 <= i < self.m() && (#[trigger] self.data@[a]@[i])
                        > 0 implies exists|k: int|
                    0 <= k < self.item_agent@[i].entries@.len() && ((
                    #[trigger] self.item_agent@[i].entries@[k]).agent as int) == a by {
                    if i == it {
                        lemma_agent_survives_pop_push(pre, j, fresh_e, a);
                        assert(self.item_agent@[it].entries@ == pre.remove(j).push(fresh_e));
                    } else {
                        let k0 = choose|k: int|
                            0 <= k < old(self).item_agent@[i].entries@.len() && ((#[trigger] old(
                                self,
                            ).item_agent@[i].entries@[k]).agent as int) == a;
                        assert((self.item_agent@[i].entries@[k0].agent as int) == a);
                    }
                }
                assert forall|i: int, k: int|
                    0 <= i < self.m() && 0 <= k
                        < self.item_agent@[i].entries@.len() implies self.entry_ok(
                    i,
                    (#[trigger] self.item_agent@[i].entries@[k]),
                ) by {
                    if i == it && k < self.item_agent@[it].entries@.len() - 1 {
                        assert(mid.contains(self.item_agent@[it].entries@[k]));
                        assert(pre.contains(self.item_agent@[it].entries@[k]));
                    }
                }
                lemma_stale_count_push(
                    mid,
                    self.num_update@,
                    (PriceEntry { price, stamp, agent: agent_id }),
                );
                lemma_stale_count_nonneg(
                    self.item_agent@[item_id as int].entries@,
                    self.num_update@,
                );
                assert(mid == pre.remove(j));
                assert(stale_count(mid, self.num_update@) == stale_count(pre, self.num_update@)
                    - 1);
                assert(stale_count(self.item_agent@[item_id as int].entries@, self.num_update@)
                    < stale_count(pre, self.num_update@));
            }
        }
    }

    /// One inner step of the convergence loop for a single agent: scan the
    /// agent's held items once, keeping rightfully held items (rotating them
    /// to the back) and transferring wrongly held ones to their true top
    /// bidders; if the whole scan found every item rightfully and uniquely
    /// held yet the agent is still unpaid, evict items from the front; if the
    /// agent remains unpaid, deepen its discount. Repeats until the agent is
    /// paid for, which is guaranteed because its discount strictly grows
    /// toward 1, where the feasibility test always passes.
    fn process_agent(&mut self, agent_id: usize)
        requires
            old(self).wf(),
            agent_id < old(self).num_agents,
        ensures
            final(self).wf(),
            final(self).paid(agent_id as int),
            *final(self) == (PrimalDual {
                consumptions: final(self).consumptions,
                item_agent: final(self).item_agent,
                alpha: final(self).alpha,
                assignment_temp: final(self).assignment_temp,
                num_update: final(self).num_update,
                ..*old(self)
            }),
            forall|a: int|
                0 <= a < old(self).n() && a != agent_id ==> (#[trigger] final(self).alpha@[a])
                    == old(self).alpha@[a] && final(self).num_update@[a] == old(
                    self,
                ).num_update@[a],
            old(self).alpha@[agent_id as int] <= final(self).alpha@[agent_id as int],
            old(self).num_update@[agent_id as int] <= final(self).num_update@[agent_id as int],
            (final(self).num_update@[agent_id as int] == old(self).num_update@[agent_id as int])
                <==> (final(self).alpha@[agent_id as int] == old(self).alpha@[agent_id as int]),
    {
        loop
            invariant
                self.wf(),
                agent_id < self.num_agents,
                *self == (PrimalDual {
                    consumptions: self.consumptions,
                    item_agent: self.item_agent,
                    alpha: self.alpha,
                    assignment_temp: self.assignment_temp,
                    num_update: self.num_update,
                    ..*old(self)
                }),
                forall|a: int|
                    0 <= a < self.n() && a != agent_id ==> (#[trigger] self.alpha@[a]) == old(
                        self,
                    ).alpha@[a] && self.num_update@[a] == old(self).num_update@[a],
                old(self).alpha@[agent_id as int] <= self.alpha@[agent_id as int],
                old(self).num_update@[agent_id as int] <= self.num_update@[agent_id as int],
                (self.num_update@[agent_id as int] == old(self).num_update@[agent_id as int])
                    <==> (self.alpha@[agent_id as int] == old(self).alpha@[agent_id as int]),
            ensures
                self.wf(),
                self.paid(agent_id as int),
                *self == (PrimalDual {
                    consumptions: self.consumptions,
                    item_agent: self.item_agent,
                    alpha: self.alpha,
                    assignment_temp: self.assignment_temp,
                    num_update: self.num_update,
                    ..*old(self)
                }),
                forall|a: int|
                    0 <= a < self.n() && a != agent_id ==> (#[trigger] self.alpha@[a]) == old(
                        self,
                    ).alpha@[a] && self.num_update@[a] == old(self).num_update@[a],
                old(self).alpha@[agent_id as int] <= self.alpha@[agent_id as int],
                old(self).num_update@[agent_id as int] <= self.num_update@[agent_id as int],
                (self.num_update@[agent_id as int] == old(self).num_update@[agent_id as int])
                    <==> (self.alpha@[agent_id as int] == old(self).alpha@[agent_id as int]),
            decreases SCALE as int - self.alpha@[agent_id as int],
        {
            let paid0 = self.is_paid_for(agent_id);
            if paid0 {
                break ;
            }
            self.reconcile_and_evict(agent_id);
            let paid1 = self.is_paid_for(agent_id);
            if paid1 {
                break ;
            }
            proof {
                if self.alpha@[agent_id as int] == SCALE {
                    lemma_full_discount_is_paid(
                        self.consumptions@[agent_id as int] as int,
                        self.budgets@[agent_id as int] as int,
                        self.alpha@[agent_id as int] as int,
                        self.beta_num as int,
                        self.beta_den as int,
                    );
                }
            }
            self.update_alpha(agent_id);
        }
    }

    /// A single reconciliation scan over `agent_id`'s held items, followed by
    /// front eviction when the scan found every item rightfully and uniquely
    /// held. Leaves the agent's discount and update counter untouched.
    fn reconcile_and_evict(&mut self, agent_id: usize)
        requires
            old(self).wf(),
            agent_id < old(self).num_agents,
        ensures
            final(self).wf(),
            *final(self) == (PrimalDual {
                consumptions: final(self).consumptions,
                item_agent: final(self).item_agent,
                assignment_temp: final(self).assignment_temp,
                ..*old(self)
            }),
    {
        let num = self.assignment_temp[agent_id].len();
        let mut num_unique: usize = 0;
        let mut i: usize = 0;
        let ghost mut kept: int = 0;
        while i < num
            invariant
                self.wf(),
                agent_id < self.num_agents,
                i <= num,
                num_unique <= i,
                0 <= kept <= i,
                self.assignment_temp@[agent_id as int]@.len() == num - i + kept,
                *self == (PrimalDual {
                    consumptions: self.consumptions,
                    item_agent: self.item_agent,
                    assignment_temp: self.assignment_temp,
                    ..*old(self)
                }),
            decreases num - i,
        {
            let ghost pre = *self;
            let ghost held0 = self.assignment_temp@[agent_id as int]@;
            let item_id = self.assignment_temp[agent_id].remove(0);
            proof {
                assert(held0[0] == item_id);
                assert(self.assignment_temp@[agent_id as int]@ =~= held0.drop_first());
            }
            let max_agent_id = self.max_price_agent(item_id);
            if max_agent_id == agent_id {
                if self.item_agent[item_id].len() == 1 {
                    num_unique = num_unique + 1;
                }
                self.assignment_temp[agent_id].push(item_id);
                proof {
                    kept = kept + 1;
                    let row = pre.data@[agent_id as int]@;
                    lemma_sum_bids_push(row, held0.drop_first(), item_id);
                    assert(sum_bids(row, self.assignment_temp@[agent_id as int]@) == sum_bids(
                        row,
                        held0,
                    ));
                    self.lemma_rotate_wf(pre, agent_id as int, item_id);
                }
            } else {
                let bid_self = self.data[agent_id][item_id];
                let c = self.consumptions[agent_id];
                proof {
                    lemma_sum_bids_bounds(
                        pre.data@[agent_id as int]@,
                        held0.drop_first(),
                    );
                }
                self.consumptions[agent_id] = c - (bid_self as u64);
                let bid_max = self.data[max_agent_id][item_id];
                let ghost held_max0 = self.assignment_temp@[max_agent_id as int]@;
                self.assignment_temp[max_agent_id].insert(0, item_id);
                proof {
                    assert(self.assignment_temp@[max_agent_id as int]@ =~= seq![item_id]
                        + held_max0);
                    assert((seq![item_id] + held_max0).drop_first() =~= held_max0);
                    self.lemma_transfer_wf(pre, agent_id as int, max_agent_id as int, item_id);
                }
                let cm = self.consumptions[max_agent_id];
                proof {
                    let rowm = pre.data@[max_agent_id as int]@;
                    let heldm = self.assignment_temp@[max_agent_id as int]@;
                    assert(heldm.no_duplicates());
                    lemma_unique_bounded_len(heldm, self.m());
                    lemma_sum_bids_bounds(rowm, heldm);
                    assert(sum_bids(rowm, heldm) == rowm[item_id as int] + sum_bids(
                        rowm,
                        held_max0,
                    ));
                }
                self.consumptions[max_agent_id] = cm + (bid_max as u64);
                let paid_now = self.is_paid_for(agent_id);
                if paid_now {
                    return ;
                }
            }
            i = i + 1;
        }
        if num_unique == num {
            loop
                invariant
                self.wf(),
                agent_id < self.num_agents,
                *self == (PrimalDual {
                    consumptions: self.consumptions,
                    item_agent: self.item_agent,
                    assignment_temp: self.assignment_temp,
                    ..*old(self)
                }),
                decreases self.assignment_temp@[agent_id as int]@.len(),
            {
                if self.assignment_temp[agent_id].len() == 0 {
                    break ;
                }
                let paid_now = self.is_paid_for(agent_id);
                if paid_now {
                    break ;
                }
                let ghost pre = *self;
                let ghost held0 = self.assignment_temp@[agent_id as int]@;
                let item_id = self.assignment_temp[agent_id].remove(0);
                proof {
                    assert(held0[0] == item_id);
                    assert(self.assignment_temp@[agent_id as int]@ =~= held0.drop_first());
                    lemma_sum_bids_bounds(
                        pre.data@[agent_id as int]@,
                        held0.drop_first(),
                    );
                }
                let bid = self.data[agent_id][item_id];
                let c = self.consumptions[agent_id];
                self.consumptions[agent_id] = c - (bid as u64);
                proof {
                    self.lemma_evict_wf(pre, agent_id as int);
                }
            }
        }
    }

    /// Rotating a held item from the front to the back of the same agent's
    /// list preserves the allocation invariants.
    proof fn lemma_rotate_wf(self, pre: PrimalDual, a0: int, item: usize)
        requires
            pre.wf(),
            0 <= a0 < pre.n(),
            pre.assignment_temp@[a0]@.len() >= 1,
            item == pre.assignment_temp@[a0]@[0],
            self.assignment_temp@.len() == pre.assignment_temp@.len(),
            self.assignment_temp@[a0]@ == pre.assignment_temp@[a0]@.drop_first().push(item),
            forall|a: int|
                0 <= a < pre.n() && a != a0 ==> (#[trigger] self.assignment_temp@[a])
                    == pre.assignment_temp@[a],
            self.n() == pre.n(),
            self.m() == pre.m(),
        ensures
            forall|a1: int, k1: int, a2: int, k2: int|
                #![trigger self.assignment_temp@[a1]@[k1], self.assignment_temp@[a2]@[k2]]
                0 <= a1 < self.n() && 0 <= k1 < self.assignment_temp@[a1]@.len() && 0 <= a2
                    < self.n() && 0 <= k2 < self.assignment_temp@[a2]@.len() && (a1 != a2 || k1
                    != k2) ==> self.assignment_temp@[a1]@[k1] != self.assignment_temp@[a2]@[k2],
            forall|a: int, k: int|
                0 <= a < self.n() && 0 <= k < self.assignment_temp@[a]@.len() ==> ((
                #[trigger] self.assignment_temp@[a]@[k]) as int) < pre.m()
                    && pre.assignment_temp@.len() >= 0,
    {
        let f = |a: int, k: int| -> (int, int) {
            if a == a0 {
                if k < self.assignment_temp@[a0]@.len() - 1 {
                    (a, k + 1)
                } else {
                    (a, 0)
                }
            } else {
                (a, k)
            }
        };
        assert forall|a: int, k: int|
            0 <= a < self.n() && 0 <= k < self.assignment_temp@[a]@.len() implies ((
        #[trigger] self.assignment_temp@[a]@[k]) as int) < pre.m()
            && pre.assignment_temp@.len() >= 0 by {
            let (pa, pk) = f(a, k);
            assert(self.assignment_temp@[a]@[k] == pre.assignment_temp@[pa]@[pk]);
        }
        assert forall|a1: int, k1: int, a2: int, k2: int|
            #![trigger self.assignment_temp@[a1]@[k1], self.assignment_temp@[a2]@[k2]]
            0 <= a1 < self.n() && 0 <= k1 < self.assignment_temp@[a1]@.len() && 0 <= a2 < self.n()
                && 0 <= k2 < self.assignment_temp@[a2]@.len() && (a1 != a2 || k1
                != k2) implies self.assignment_temp@[a1]@[k1]
            != self.assignment_temp@[a2]@[k2] by {
            let (pa1, pk1) = f(a1, k1);
            let (pa2, pk2) = f(a2, k2);
            assert(self.assignment_temp@[a1]@[k1] == pre.assignment_temp@[pa1]@[pk1]);
            assert(self.assignment_temp@[a2]@[k2] == pre.assignment_temp@[pa2]@[pk2]);
        }
    }

    /// Moving the front item of one agent's list to the front of another
    /// agent's list preserves distinctness and ranges.
    proof fn lemma_transfer_wf(self, pre: PrimalDual, a0: int, a1: int, item: usize)
        requires
            pre.wf(),
            0 <= a0 < pre.n(),
            0 <= a1 < pre.n(),
            a0 != a1,
            pre.assignment_temp@[a0]@.len() >= 1,
            item == pre.assignment_temp@[a0]@[0],
            self.assignment_temp@.len() == pre.assignment_temp@.len(),
            self.assignment_temp@[a0]@ == pre.assignment_temp@[a0]@.drop_first(),
            self.assignment_temp@[a1]@ == seq![item] + pre.assignment_temp@[a1]@,
            forall|a: int|
                0 <= a < pre.n() && a != a0 && a != a1 ==> (#[trigger] self.assignment_temp@[a])
                    == pre.assignment_temp@[a],
            self.n() == pre.n(),
            self.m() == pre.m(),
            self.item_agent@.len() == pre.item_agent@.len(),
            forall|i: int|
                0 <= i < pre.m() ==> (#[trigger] self.item_agent@[i]).entries@.len()
                    == pre.item_agent@[i].entries@.len(),
        ensures
            forall|a1x: int, k1: int, a2x: int, k2: int|
                #![trigger self.assignment_temp@[a1x]@[k1], self.assignment_temp@[a2x]@[k2]]
                0 <= a1x < self.n() && 0 <= k1 < self.assignment_temp@[a1x]@.len() && 0 <= a2x
                    < self.n() && 0 <= k2 < self.assignment_temp@[a2x]@.len() && (a1x != a2x || k1
                    != k2) ==> self.assignment_temp@[a1x]@[k1] != self.assignment_temp@[a2x]@[k2],
            forall|a: int, k: int|
                0 <= a < self.n() && 0 <= k < self.assignment_temp@[a]@.len() ==> ((
                #[trigger] self.assignment_temp@[a]@[k]) as int) < self.m()
                    && self.item_agent@[self.assignment_temp@[a]@[k] as int].entries@.len() >= 1,
            self.assignment_temp@[a1]@.no_duplicates(),
    {
        let f = |a: int, k: int| -> (int, int) {
            if a == a0 {
                (a, k + 1)
            } else if a == a1 {
                if k == 0 {
                    (a0, 0)
                } else {
                    (a, k - 1)
                }
            } else {
                (a, k)
            }
        };
        assert forall|a: int, k: int|
            0 <= a < self.n() && 0 <= k < self.assignment_temp@[a]@.len() implies ((
        #[trigger] self.assignment_temp@[a]@[k]) as int) < self.m()
            && self.item_agent@[self.assignment_temp@[a]@[k] as int].entries@.len() >= 1 by {
            let (pa, pk) = f(a, k);
            assert(self.assignment_temp@[a]@[k] == pre.assignment_temp@[pa]@[pk]);
        }
        assert forall|a1x: int, k1: int, a2x: int, k2: int|
            #![trigger self.assignment_temp@[a1x]@[k1], self.assignment_temp@[a2x]@[k2]]
            0 <= a1x < self.n() && 0 <= k1 < self.assignment_temp@[a1x]@.len() && 0 <= a2x
                < self.n() && 0 <= k2 < self.assignment_temp@[a2x]@.len() && (a1x != a2x || k1
                != k2) implies self.assignment_temp@[a1x]@[k1]
            != self.assignment_temp@[a2x]@[k2] by {
            let (pa1, pk1) = f(a1x, k1);
            let (pa2, pk2) = f(a2x, k2);
            assert(self.assignment_temp@[a1x]@[k1] == pre.assignment_temp@[pa1]@[pk1]);
            assert(self.assignment_temp@[a2x]@[k2] == pre.assignment_temp@[pa2]@[pk2]);
        }
        assert forall|p: int, q: int|
            0 <= p < q < self.assignment_temp@[a1]@.len() implies self.assignment_temp@[a1]@[p]
            != self.assignment_temp@[a1]@[q] by {}
        assert(self.assignment_temp@[a1]@.no_duplicates());
    }

    /// Dropping the front item of an agent's list preserves distinctness and
    /// ranges.
    proof fn lemma_evict_wf(self, pre: PrimalDual, a0: int)
        requires
            pre.wf(),
            0 <= a0 < pre.n(),
            pre.assignment_temp@[a0]@.len() >= 1,
            self.assignment_temp@.len() == pre.assignment_temp@.len(),
            self.assignment_temp@[a0]@ == pre.assignment_temp@[a0]@.drop_first(),
            forall|a: int|
                0 <= a < pre.n() && a != a0 ==> (#[trigger] self.assignment_temp@[a])
                    == pre.assignment_temp@[a],
            self.n() == pre.n(),
            self.m() == pre.m(),
            self.item_agent@ == pre.item_agent@,
        ensures
            forall|a1: int, k1: int, a2: int, k2: int|
                #![trigger self.assignment_temp@[a1]@[k1], self.assignment_temp@[a2]@[k2]]
                0 <= a1 < self.n() && 0 <= k1 < self.assignment_temp@[a1]@.len() && 0 <= a2
                    < self.n() && 0 <= k2 < self.assignment_temp@[a2]@.len() && (a1 != a2 || k1
                    != k2) ==> self.assignment_temp@[a1]@[k1] != self.assignment_temp@[a2]@[k2],
            forall|a: int, k: int|
                0 <= a < self.n() && 0 <= k < self.assignment_temp@[a]@.len() ==> ((
                #[trigger] self.assignment_temp@[a]@[k]) as int) < self.m()
                    && self.item_agent@[self.assignment_temp@[a]@[k] as int].entries@.len() >= 1,
    {
        let f = |a: int, k: int| -> (int, int) {
            if a == a0 {
                (a, k + 1)
            } else {
                (a, k)
            }
        };
        assert forall|a: int, k: int|
            0 <= a < self.n() && 0 <= k < self.assignment_temp@[a]@.len() implies ((
        #[trigger] self.assignment_temp@[a]@[k]) as int) < self.m()
            && self.item_agent@[self.assignment_temp@[a]@[k] as int].entries@.len() >= 1 by {
            let (pa, pk) = f(a, k);
            assert(self.assignment_temp@[a]@[k] == pre.assignment_temp@[pa]@[pk]);
        }
        assert forall|a1: int, k1: int, a2: int, k2: int|
            #![trigger self.assignment_temp@[a1]@[k1], self.assignment_temp@[a2]@[k2]]
            0 <= a1 < self.n() && 0 <= k1 < self.assignment_temp@[a1]@.len() && 0 <= a2 < self.n()
                && 0 <= k2 < self.assignment_temp@[a2]@.len() && (a1 != a2 || k1
                != k2) implies self.assignment_temp@[a1]@[k1]
            != self.assignment_temp@[a2]@[k2] by {
            let (pa1, pk1) = f(a1, k1);
            let (pa2, pk2) = f(a2, k2);
            assert(self.assignment_temp@[a1]@[k1] == pre.assignment_temp@[pa1]@[pk1]);
            assert(self.assignment_temp@[a2]@[k2] == pre.assignment_temp@[pa2]@[pk2]);
        }
    }

    /// Runs initialization (seeding every bid-on item to its dominant agent)
    /// and then the convergence loop, processing unpaid agents until every
    /// agent is paid for simultaneously. Returns `Ok` at that fixed point;
    /// if the defensive cap of `ROUND_CAP` passes is exceeded first, the
    /// partial state is abandoned and `Err(NonConvergence)` is returned.
    /// Success is owed — and the state is left exactly as seeded — whenever
    /// the seeded allocation already passes every agent's feasibility test.
    /// Across the call every agent's discount and update counter are
    /// non-decreasing, and one moves exactly when the other does.
    pub fn solve(&mut self) -> (r: Result<(), SolveError>)
        requires
            old(self).wf(),
            old(self).fresh_state(),
        ensures
            final(self).wf(),
            r is Ok ==> forall|a: int| 0 <= a < old(self).n() ==> final(self).paid(a),
            // success is owed whenever the seeded allocation already passes
            // every agent's feasibility test (in particular for instances
            // with no agents, no bids, or no contention over any budget)
            (forall|a: int|
                0 <= a < old(self).n() ==> paid_within(
                    sum_bids(
                        old(self).data@[a]@,
                        seeded_items(old(self).max_agent@, a, old(self).m()),
                    ),
                    old(self).budgets@[a] as int,
                    old(self).alpha@[a] as int,
                    old(self).beta_num as int,
                    old(self).beta_den as int,
                )) ==> r is Ok,
            *final(self) == (PrimalDual {
                consumptions: final(self).consumptions,
                item_agent: final(self).item_agent,
                alpha: final(self).alpha,
                assignment_temp: final(self).assignment_temp,
                num_update: final(self).num_update,
                ..*old(self)
            }),
            forall|a: int|
                0 <= a < old(self).n() ==> old(self).alpha@[a]
                    <= (#[trigger] final(self).alpha@[a]),
            forall|a: int|
                0 <= a < old(self).n() ==> old(self).num_update@[a]
                    <= (#[trigger] final(self).num_update@[a]),
            forall|a: int|
                0 <= a < old(self).n() ==> (((#[trigger] final(self).num_update@[a])
                    == old(self).num_update@[a]) <==> (final(self).alpha@[a] == old(
                    self,
                ).alpha@[a])),
    {
        self.initialize();
        let ghost post_init = *self;
        let ghost hyp = forall|a: int|
            0 <= a < old(self).n() ==> paid_within(
                sum_bids(
                    old(self).data@[a]@,
                    seeded_items(old(self).max_agent@, a, old(self).m()),
                ),
                old(self).budgets@[a] as int,
                old(self).alpha@[a] as int,
                old(self).beta_num as int,
                old(self).beta_den as int,
            );
        proof {
            if hyp {
                assert forall|a: int| 0 <= a < post_init.n() implies post_init.paid(a) by {
                    assert(post_init.assignment_temp@[a]@ == seeded_items(
                        old(self).max_agent@,
                        a,
                        old(self).m(),
                    ));
                    assert(post_init.consumptions@[a] as int == sum_bids(
                        post_init.data@[a]@,
                        post_init.assignment_temp@[a]@,
                    ));
                }
            }
        }
        let mut rounds: u64 = 0;
        let mut pending = true;
        while pending
            invariant
                self.wf(),
                rounds <= ROUND_CAP,
                hyp == (forall|a: int|
                    0 <= a < old(self).n() ==> paid_within(
                        sum_bids(
                            old(self).data@[a]@,
                            seeded_items(old(self).max_agent@, a, old(self).m()),
                        ),
                        old(self).budgets@[a] as int,
                        old(self).alpha@[a] as int,
                        old(self).beta_num as int,
                        old(self).beta_den as int,
                    )),
                hyp ==> (pending ==> rounds == 0 && *self == post_init),
                hyp ==> *self == post_init,
                hyp ==> (forall|a: int| 0 <= a < post_init.n() ==> post_init.paid(a)),
                *self == (PrimalDual {
                    consumptions: self.consumptions,
                    item_agent: self.item_agent,
                    alpha: self.alpha,
                    assignment_temp: self.assignment_temp,
                    num_update: self.num_update,
                    ..*old(self)
                }),
                forall|a: int|
                    0 <= a < self.n() ==> old(self).alpha@[a] <= (#[trigger] self.alpha@[a]),
                forall|a: int|
                    0 <= a < self.n() ==> old(self).num_update@[a] <= (#[trigger] self.num_update@[a]),
                forall|a: int|
                    0 <= a < self.n() ==> (((#[trigger] self.num_update@[a]) == old(
                        self,
                    ).num_update@[a]) <==> (self.alpha@[a] == old(self).alpha@[a])),
                !pending ==> forall|a: int| 0 <= a < self.n() ==> self.paid(a),
            decreases ROUND_CAP - rounds,
        {
            if rounds == ROUND_CAP {
                return Err(SolveError::NonConvergence);
            }
            rounds = rounds + 1;
            pending = false;
            let ghost pass_start = *self;
            let num_agents = self.num_agents;
            let mut agent_id: usize = 0;
            while agent_id < num_agents
                invariant
                    self.wf(),
                    agent_id <= num_agents,
                    num_agents == self.num_agents,
                    *self == (PrimalDual {
                        consumptions: self.consumptions,
                        item_agent: self.item_agent,
                        alpha: self.alpha,
                        assignment_temp: self.assignment_temp,
                        num_update: self.num_update,
                        ..*old(self)
                    }),
                    forall|a: int|
                        0 <= a < self.n() ==> old(self).alpha@[a] <= (#[trigger] self.alpha@[a]),
                    forall|a: int|
                        0 <= a < self.n() ==> old(self).num_update@[a] <= (
                        #[trigger] self.num_update@[a]),
                    forall|a: int|
                        0 <= a < self.n() ==> (((#[trigger] self.num_update@[a]) == old(
                            self,
                        ).num_update@[a]) <==> (self.alpha@[a] == old(self).alpha@[a])),
                    !pending ==> *self == pass_start && (forall|a: int|
                        0 <= a < agent_id ==> self.paid(a)),
                    hyp == (forall|a: int|
                    0 <= a < old(self).n() ==> paid_within(
                        sum_bids(
                            old(self).data@[a]@,
                            seeded_items(old(self).max_agent@, a, old(self).m()),
                        ),
                        old(self).budgets@[a] as int,
                        old(self).alpha@[a] as int,
                        old(self).beta_num as int,
                        old(self).beta_den as int,
                    )),
                    hyp && rounds == 1 ==> pass_start == post_init,
                    hyp ==> (forall|a: int| 0 <= a < post_init.n() ==> post_init.paid(a)),
                    hyp ==> rounds == 1,
                    hyp ==> !pending,
                    hyp ==> *self == post_init,
                decreases num_agents - agent_id,
            {
                let p = self.is_paid_for(agent_id);
                if !p {
                    proof {
                        if hyp {
                            assert(*self == pass_start);
                            assert(pass_start == post_init);
                            assert(post_init.paid(agent_id as int));
                        }
                    }
                    pending = true;
                    let ghost before = *self;
                    self.process_agent(agent_id);
                    proof {
                        assert forall|a: int|
                            0 <= a < self.n() implies (((#[trigger] self.num_update@[a]) == old(
                            self,
                        ).num_update@[a]) <==> (self.alpha@[a] == old(self).alpha@[a])) by {
                            if a != agent_id {
                                assert(self.alpha@[a] == before.alpha@[a]);
                                assert(self.num_update@[a] == before.num_update@[a]);
                            }
                        }
                    }
                }
                agent_id = agent_id + 1;
            }
        }
        Ok(())
    }
}

/// Descending lexicographic order on (value, id) pairs, as used by the
/// rounding pass: larger values first, ties broken toward the larger id
/// (deterministically).
pub open spec fn pair_ge(x: (u32, usize), y: (u32, usize)) -> bool {
    x.0 > y.0 || (x.0 == y.0 && x.1 >= y.1)
}

/// Total bid value assigned to the first `n` agents of a final record.
pub open spec fn total_assigned(data: Seq<Vec<u32>>, asg: Seq<Vec<usize>>, n: int) -> int
    decreases n,
{
    if n <= 0 {
        0
    } else {
        total_assigned(data, asg, n - 1) + sum_bids(data[n - 1]@, asg[n - 1]@)
    }
}

/// Number of set flags.
pub open spec fn count_true(s: Seq<bool>) -> int
    decreases s.len(),
{
    if s.len() == 0 {
        0
    } else {
        (if s[0] {
            1int
        } else {
            0int
        }) + count_true(s.drop_first())
    }
}

/// Whether item `i` appears in some agent's list of the record.
pub open spec fn assigned_somewhere(asg: Seq<Vec<usize>>, i: int) -> bool {
    exists|a: int, k: int|
        0 <= a < asg.len() && 0 <= k < asg[a]@.len() && ((#[trigger] asg[a]@[k]) as int) == i
}

/// The items listed in a final record are in range, globally distinct
/// (each item is assigned to at most one agent, once), and the used flags
/// mark exactly the listed items.
pub open spec fn rounding_inv(asg: Seq<Vec<usize>>, used: Seq<bool>, m: int) -> bool {
    &&& forall|a: int, k: int|
        0 <= a < asg.len() && 0 <= k < asg[a]@.len() ==> (((#[trigger] asg[a]@[k]) as int) < m
            && used[asg[a]@[k] as int] == true)
    &&& forall|a1: int, k1: int, a2: int, k2: int|
        #![trigger asg[a1]@[k1], asg[a2]@[k2]]
        0 <= a1 < asg.len() && 0 <= k1 < asg[a1]@.len() && 0 <= a2 < asg.len() && 0 <= k2
            < asg[a2]@.len() && (a1 != a2 || k1 != k2) ==> asg[a1]@[k1] != asg[a2]@[k2]
    &&& forall|i: int| 0 <= i < used.len() ==> ((#[trigger] used[i]) ==> assigned_somewhere(asg, i))
}

proof fn lemma_count_true_zero(s: Seq<bool>)
    requires
        forall|k: int| 0 <= k < s.len() ==> !(#[trigger] s[k]),
    ensures
        count_true(s) == 0,
    decreases s.len(),
{
    if s.len() == 0 {
    } else {
        lemma_count_true_zero(s.drop_first());
    }
}

proof fn lemma_total_assigned_empty(data: Seq<Vec<u32>>, asg: Seq<Vec<usize>>, n: int)
    requires
        forall|a: int| 0 <= a < n ==> (#[trigger] asg[a])@.len() == 0,
    ensures
        total_assigned(data, asg, n) == 0,
    decreases n,
{
    if n <= 0 {
    } else {
        lemma_total_assigned_empty(data, asg, n - 1);
    }
}

proof fn lemma_count_true_bound(s: Seq<bool>)
    ensures
        0 <= count_true(s) <= s.len(),
    decreases s.len(),
{
    if s.len() == 0 {
    } else {
        lemma_count_true_bound(s.drop_first());
    }
}

proof fn lemma_count_true_update(s: Seq<bool>, i: int)
    requires
        0 <= i < s.len(),
        !s[i],
    ensures
        count_true(s.update(i, true)) == count_true(s) + 1,
    decreases s.len(),
{
    if i == 0 {
        assert(s.update(0, true)[0]);
        assert(s.update(0, true).drop_first() =~= s.drop_first());
    } else {
        assert(s.update(i, true)[0] == s[0]);
        assert(s.update(i, true).drop_first() =~= s.drop_first().update(i - 1, true));
        lemma_count_true_update(s.drop_first(), i - 1);
    }
}

proof fn lemma_total_assigned_frame(
    data: Seq<Vec<u32>>,
    asg1: Seq<Vec<usize>>,
    asg2: Seq<Vec<usize>>,
    n: int,
)
    requires
        forall|a: int| 0 <= a < n ==> (#[trigger] asg2[a])@ == asg1[a]@,
    ensures
        total_assigned(data, asg2, n) == total_assigned(data, asg1, n),
    decreases n,
{
    if n <= 0 {
    } else {
        lemma_total_assigned_frame(data, asg1, asg2, n - 1);
    }
}

/// Assigning one more item to agent `a0` grows the total by that item's bid.
proof fn lemma_total_assigned_push(
    data: Seq<Vec<u32>>,
    asg1: Seq<Vec<usize>>,
    asg2: Seq<Vec<usize>>,
    n: int,
    a0: int,
    item: usize,
)
    requires
        0 <= a0 < n,
        asg2[a0]@ == asg1[a0]@.push(item),
        forall|a: int| 0 <= a < n && a != a0 ==> (#[trigger] asg2[a])@ == asg1[a]@,
    ensures
        total_assigned(data, asg2, n) == total_assigned(data, asg1, n) + data[a0]@[item as int],
    decreases n,
{
    if n <= 0 {
    } else if a0 == n - 1 {
        lemma_sum_bids_push(data[n - 1]@, asg1[n - 1]@, item);
        lemma_total_assigned_frame(data, asg1, asg2, n - 1);
    } else {
        lemma_total_assigned_push(data, asg1, asg2, n - 1, a0, item);
    }
}

/// Swapping two positions of a sequence preserves its multiset of elements.
proof fn lemma_swap_multiset(s: Seq<(u32, usize)>, i: int, j: int)
    requires
        0 <= i < s.len(),
        0 <= j < s.len(),
    ensures
        s.update(i, s[j]).update(j, s[i]).to_multiset() == s.to_multiset(),
{
    broadcast use vstd::seq_lib::to_multiset_update;
    broadcast use vstd::seq_lib::group_to_multiset_ensures;

    if i == j {
        assert(s.update(i, s[j]).update(j, s[i]) =~= s);
    } else {
        let s1 = s.update(i, s[j]);
        assert(s1[j] == s[j]);
        assert(s.to_multiset().contains(s[i]));
        assert(s1.to_multiset().contains(s[j]));
        assert(s1.update(j, s[i]).to_multiset() =~= s.to_multiset());
    }
}

/// Adding a fresh (previously unused) item to one agent of a record that
/// satisfies the rounding invariant preserves the invariant once the item's
/// used flag is set.
proof fn lemma_assign_step(
    asg1: Seq<Vec<usize>>,
    asg2: Seq<Vec<usize>>,
    used1: Seq<bool>,
    used2: Seq<bool>,
    m: int,
    a0: int,
    item: usize,
)
    requires
        rounding_inv(asg1, used1, m),
        used1.len() == m,
        0 <= a0 < asg1.len(),
        (item as int) < m,
        !used1[item as int],
        asg2.len() == asg1.len(),
        asg2[a0]@ == asg1[a0]@.push(item),
        forall|a: int| 0 <= a < asg1.len() && a != a0 ==> (#[trigger] asg2[a]) == asg1[a],
        used2 == used1.update(item as int, true),
    ensures
        rounding_inv(asg2, used2, m),
{
    assert forall|a: int, k: int|
        0 <= a < asg2.len() && 0 <= k < asg2[a]@.len() implies (((#[trigger] asg2[a]@[k]) as int)
        < m && used2[asg2[a]@[k] as int] == true) by {
        if a == a0 && k == asg2[a]@.len() - 1 {
            assert(asg2[a]@[k] == item);
        } else {
            assert(asg2[a]@[k] == asg1[a]@[k]);
        }
    }
    assert forall|a1: int, k1: int, a2: int, k2: int|
        #![trigger asg2[a1]@[k1], asg2[a2]@[k2]]
        0 <= a1 < asg2.len() && 0 <= k1 < asg2[a1]@.len() && 0 <= a2 < asg2.len() && 0 <= k2
            < asg2[a2]@.len() && (a1 != a2 || k1 != k2) implies asg2[a1]@[k1]
        != asg2[a2]@[k2] by {
        if a1 == a0 && k1 == asg2[a1]@.len() - 1 {
            assert(asg2[a1]@[k1] == item);
            assert(asg2[a2]@[k2] == asg1[a2]@[k2]);
        } else if a2 == a0 && k2 == asg2[a2]@.len() - 1 {
            assert(asg2[a2]@[k2] == item);
            assert(asg2[a1]@[k1] == asg1[a1]@[k1]);
        } else {
            assert(asg2[a1]@[k1] == asg1[a1]@[k1]);
            assert(asg2[a2]@[k2] == asg1[a2]@[k2]);
        }
    }
    assert forall|i: int| 0 <= i < used2.len() && #[trigger] used2[i] implies assigned_somewhere(
        asg2,
        i,
    ) by {
        if i == item as int {
            assert(((asg2[a0]@[asg2[a0]@.len() - 1]) as int) == i);
        } else {
            assert(used1[i]);
            let (wa, wk) = choose|wa: int, wk: int|
                0 <= wa < asg1.len() && 0 <= wk < asg1[wa]@.len() && ((#[trigger] asg1[wa]@[
                wk]) as int) == i;
            assert(((asg2[wa]@[wk]) as int) == i);
        }
    }
}

/// Exec comparison equal to `pair_ge`.
fn pair_ge_exec(x: (u32, usize), y: (u32, usize)) -> (r: bool)
    ensures
        r == pair_ge(x, y),
{
    x.0 > y.0 || (x.0 == y.0 && x.1 >= y.1)
}

/// Sorts the pairs into descending lexicographic order by straight
/// selection, preserving the multiset of pairs.
fn sort_pairs_desc(v: &mut Vec<(u32, usize)>)
    ensures
        final(v)@.len() == old(v)@.len(),
        final(v)@.to_multiset() == old(v)@.to_multiset(),
        forall|p: int, q: int| 0 <= p <= q < final(v)@.len() ==> pair_ge(final(v)@[p], final(v)@[q]),
{
    let n = v.len();
    let mut i: usize = 0;
    while i < n
        invariant
            n == v@.len(),
            i <= n,
            v@.to_multiset() == old(v)@.to_multiset(),
            forall|p: int, q: int| 0 <= p <= q < i ==> pair_ge(v@[p], v@[q]),
            forall|p: int, q: int| 0 <= p < i <= q < n ==> pair_ge(v@[p], v@[q]),
        decreases n - i,
    {
        let mut best: usize = i;
        let mut k: usize = i + 1;
        while k < n
            invariant
                n == v@.len(),
                i <= best < k <= n,
                forall|t: int| i <= t < k ==> pair_ge(v@[best as int], v@[t]),
            decreases n - k,
        {
            if !pair_ge_exec(v[best], v[k]) {
                best = k;
            }
            k = k + 1;
        }
        let ghost pre = v@;
        let x = v[i];
        let y = v[best];
        v[i] = y;
        v[best] = x;
        proof {
            lemma_swap_multiset(pre, i as int, best as int);
            let ghost xi = pre[i as int];
            assert(v@ =~= pre.update(i as int, pre[best as int]).update(best as int, xi));
        }
        i = i + 1;
    }
}

impl PrimalDual {
    /// The rounding pass: produces a strictly budget-feasible `Assignment`
    /// from the loop's final temporary allocation and the original bids.
    /// First a per-agent greedy pass drains the agent's held items and
    /// accepts them in descending bid order while they fit in the remaining
    /// working budget; then every item left unused is offered to its
    /// affordable bidders (drained from the item's ledger) in descending bid
    /// order and assigned to the first that can still pay. In the returned
    /// record every agent's assigned bid sum fits its budget exactly, no
    /// item is assigned twice, items go only to agents with an accepted bid
    /// on them, the total consumption is exactly the sum of the assigned
    /// bids, and the result is maximal: an item left unassigned cannot be
    /// afforded by any of its bidders out of that bidder's residual budget.
    pub fn make_valid_assignment(&mut self) -> (r: Assignment)
        requires
            old(self).wf(),
        ensures
            r.budgets@ == old(self).budgets@,
            r.assignment@.len() == old(self).n(),
            forall|a: int|
                0 <= a < old(self).n() ==> sum_bids(
                    old(self).data@[a]@,
                    (#[trigger] r.assignment@[a])@,
                ) <= old(self).budgets@[a] as int,
            forall|a: int, k: int|
                0 <= a < old(self).n() && 0 <= k < r.assignment@[a]@.len() ==> ((
                #[trigger] r.assignment@[a]@[k]) as int) < old(self).m(),
            forall|a1: int, k1: int, a2: int, k2: int|
                #![trigger r.assignment@[a1]@[k1], r.assignment@[a2]@[k2]]
                0 <= a1 < old(self).n() && 0 <= k1 < r.assignment@[a1]@.len() && 0 <= a2 < old(
                    self,
                ).n() && 0 <= k2 < r.assignment@[a2]@.len() && (a1 != a2 || k1 != k2)
                    ==> r.assignment@[a1]@[k1] != r.assignment@[a2]@[k2],
            r.total_consumption as int == total_assigned(
                old(self).data@,
                r.assignment@,
                old(self).n(),
            ),
            // an item is only ever assigned to an agent holding an accepted
            // (hence positive) bid on it
            forall|a: int, k: int|
                0 <= a < old(self).n() && 0 <= k < r.assignment@[a]@.len() ==> old(self).data@[
                a]@[((#[trigger] r.assignment@[a]@[k]) as int)] > 0,
            // the assignment is maximal: an item left in nobody's list
            // cannot be afforded by any of its bidders out of that bidder's
            // residual budget
            forall|i: int, a: int|
                0 <= i < old(self).m() && 0 <= a < old(self).n() && !assigned_somewhere(
                    r.assignment@,
                    i,
                ) && (#[trigger] old(self).data@[a]@[i]) > 0 ==> old(self).budgets@[a] as int
                    - sum_bids(old(self).data@[a]@, r.assignment@[a]@) < old(self).data@[a]@[i],
            *final(self) == (PrimalDual {
                item_agent: final(self).item_agent,
                assignment_temp: final(self).assignment_temp,
                ..*old(self)
            }),
            forall|a: int|
                0 <= a < old(self).n() ==> (#[trigger] final(self).assignment_temp@[a])@.len()
                    == 0,
    {
        let num_agents = self.num_agents;
        let num_items = self.num_items;
        let mut temp_budgets: Vec<u32> = Vec::new();
        let mut a: usize = 0;
        while a < num_agents
            invariant
                a <= num_agents,
                *self == *old(self),
                old(self).wf(),
                num_agents == self.num_agents,
                temp_budgets@.len() == a,
                forall|k: int| 0 <= k < a ==> (#[trigger] temp_budgets@[k]) == self.budgets@[k],
            decreases num_agents - a,
        {
            temp_budgets.push(self.budgets[a]);
            a = a + 1;
        }
        let mut record = Assignment::new(num_agents);
        let mut a2: usize = 0;
        while a2 < num_agents
            invariant
                a2 <= num_agents,
                *self == *old(self),
                old(self).wf(),
                num_agents == self.num_agents,
                record.assignment@.len() == num_agents,
                record.budgets@.len() == num_agents,
                record.total_consumption == 0,
                forall|k: int| 0 <= k < num_agents ==> (#[trigger] record.assignment@[k])@.len() == 0,
                forall|k: int| 0 <= k < a2 ==> (#[trigger] record.budgets@[k]) == self.budgets@[k],
                forall|k: int| a2 <= k < num_agents ==> (#[trigger] record.budgets@[k]) == 0u32,
            decreases num_agents - a2,
        {
            record.set_budget(a2, self.budgets[a2]);
            a2 = a2 + 1;
        }
        let mut used_item: Vec<bool> = Vec::new();
        let mut i0: usize = 0;
        while i0 < num_items
            invariant
                i0 <= num_items,
                used_item@.len() == i0,
                forall|k: int| 0 <= k < i0 ==> !(#[trigger] used_item@[k]),
            decreases num_items - i0,
        {
            used_item.push(false);
            i0 = i0 + 1;
        }
        proof {
            assert(record.budgets@ =~= old(self).budgets@);
            assert(temp_budgets@ =~= old(self).budgets@);
            lemma_count_true_zero(used_item@);
            lemma_total_assigned_empty(old(self).data@, record.assignment@, num_agents as int);
            assert(rounding_core(*old(self), *self, record, temp_budgets@, used_item@));
            assert(temps_clean(*self, used_item@, 0));
        }

        // greedy pass
        let mut agent_id: usize = 0;
        while agent_id < num_agents
            invariant
                agent_id <= num_agents,
                old(self).wf(),
                num_agents == self.num_agents,
                num_items == self.num_items,
                rounding_core(*old(self), *self, record, temp_budgets@, used_item@),
                temps_clean(*self, used_item@, agent_id as int),
                self.item_agent == old(self).item_agent,
            decreases num_agents - agent_id,
        {
            let mut bid_items: Vec<(u32, usize)> = Vec::new();
            while self.assignment_temp[agent_id].len() > 0
                invariant
                    agent_id < num_agents,
                    old(self).wf(),
                    num_agents == self.num_agents,
                    num_items == self.num_items,
                    rounding_core(*old(self), *self, record, temp_budgets@, used_item@),
                    temps_clean(*self, used_item@, agent_id as int),
                    self.item_agent == old(self).item_agent,
                    forall|t: int|
                        0 <= t < bid_items@.len() ==> (((#[trigger] bid_items@[t]).1 as int)
                            < num_items && bid_items@[t].0 == old(self).data@[agent_id as int]@[
                        bid_items@[t].1 as int] && bid_items@[t].0 > 0 && !used_item@[bid_items@[t].1 as int]),
                    forall|t: int, ax: int, kx: int|
                        0 <= t < bid_items@.len() && 0 <= ax < num_agents && 0 <= kx
                            < self.assignment_temp@[ax]@.len() ==> (#[trigger] bid_items@[t]).1
                            != (#[trigger] self.assignment_temp@[ax]@[kx]),
                decreases self.assignment_temp@[agent_id as int]@.len(),
            {
                let ghost pre = *self;
                let ghost held0 = self.assignment_temp@[agent_id as int]@;
                let item_id = self.assignment_temp[agent_id].remove(0);
                proof {
                    assert(held0[0] == item_id);
                    assert(self.assignment_temp@[agent_id as int]@ =~= held0.drop_first());
                    assert forall|ax: int, kx: int|
                        0 <= ax < num_agents && 0 <= kx
                            < self.assignment_temp@[ax]@.len() implies (
                    #[trigger] self.assignment_temp@[ax]@[kx]) != item_id by {
                        if ax == agent_id as int {
                            assert(self.assignment_temp@[ax]@[kx] == pre.assignment_temp@[ax]@[kx
                                + 1]);
                        } else {
                            assert(self.assignment_temp@[ax]@[kx]
                                == pre.assignment_temp@[ax]@[kx]);
                        }
                    }
                    assert forall|a1: int, k1: int, a2: int, k2: int|
                        #![trigger self.assignment_temp@[a1]@[k1], self.assignment_temp@[a2]@[k2]]
                        0 <= a1 < self.n() && 0 <= k1 < self.assignment_temp@[a1]@.len() && 0 <= a2
                            < self.n() && 0 <= k2 < self.assignment_temp@[a2]@.len() && (a1 != a2
                            || k1 != k2) implies self.assignment_temp@[a1]@[k1]
                        != self.assignment_temp@[a2]@[k2] by {
                        let p1: int = if a1 == agent_id as int {
                            k1 + 1
                        } else {
                            k1
                        };
                        let p2: int = if a2 == agent_id as int {
                            k2 + 1
                        } else {
                            k2
                        };
                        assert(self.assignment_temp@[a1]@[k1] == pre.assignment_temp@[a1]@[p1]);
                        assert(self.assignment_temp@[a2]@[k2] == pre.assignment_temp@[a2]@[p2]);
                    }
                }
                let bid = self.data[agent_id][item_id];
                bid_items.push((bid, item_id));
            }
            let ghost pre_sort = bid_items@;
            sort_pairs_desc(&mut bid_items);
            proof {
                broadcast use vstd::seq_lib::group_to_multiset_ensures;

                assert forall|t: int|
                    0 <= t < bid_items@.len() implies (((#[trigger] bid_items@[t]).1 as int)
                    < num_items && bid_items@[t].0 == old(self).data@[agent_id as int]@[bid_items@[
                t].1 as int] && bid_items@[t].0 > 0 && (forall|ax: int, kx: int|
                    0 <= ax < num_agents && 0 <= kx < self.assignment_temp@[ax]@.len()
                        ==> bid_items@[t].1 != (#[trigger] self.assignment_temp@[ax]@[kx]))) by {
                    let x = bid_items@[t];
                    assert(bid_items@.contains(x));
                    assert(pre_sort.to_multiset().count(x) > 0);
                    assert(pre_sort.contains(x));
                    let u = choose|u: int| 0 <= u < pre_sort.len() && pre_sort[u] == x;
                    assert(pre_sort[u].1 == x.1 && pre_sort[u].0 == x.0);
                }
            }
            let mut j: usize = 0;
            while j < bid_items.len()
                invariant
                    agent_id < num_agents,
                    old(self).wf(),
                    num_agents == self.num_agents,
                    num_items == self.num_items,
                    j <= bid_items@.len(),
                    rounding_core(*old(self), *self, record, temp_budgets@, used_item@),
                    temps_clean(*self, used_item@, agent_id as int),
                    self.item_agent == old(self).item_agent,
                    self.assignment_temp@[agent_id as int]@.len() == 0,
                    forall|t: int|
                        0 <= t < bid_items@.len() ==> (((#[trigger] bid_items@[t]).1 as int)
                            < num_items && bid_items@[t].0 == old(self).data@[agent_id as int]@[
                        bid_items@[t].1 as int] && bid_items@[t].0 > 0),
                    forall|t: int, ax: int, kx: int|
                        0 <= t < bid_items@.len() && 0 <= ax < num_agents && 0 <= kx
                            < self.assignment_temp@[ax]@.len() ==> (#[trigger] bid_items@[t]).1
                            != (#[trigger] self.assignment_temp@[ax]@[kx]),
                decreases bid_items@.len() - j,
            {
                let bid = bid_items[j].0;
                let item_id = bid_items[j].1;
                if temp_budgets[agent_id] >= bid && !used_item[item_id] {
                    let ghost orig = *old(self);
                    let ghost cur = *self;
                    assign_round(
                        &mut record,
                        &mut temp_budgets,
                        &mut used_item,
                        agent_id,
                        item_id,
                        bid,
                        Ghost(orig),
                        Ghost(cur),
                    );
                    proof {
                        assert forall|ax: int, kx: int|
                            0 <= ax < cur.n() && 0 <= kx
                                < cur.assignment_temp@[ax]@.len() implies !used_item@[(
                        #[trigger] cur.assignment_temp@[ax]@[kx]) as int] by {
                            assert(bid_items@[j as int].1 != cur.assignment_temp@[ax]@[kx]);
                        }
                    }
                }
                j = j + 1;
            }
            agent_id = agent_id + 1;
        }

        // leftover redistribution
        let mut item_id: usize = 0;
        while item_id < num_items
            invariant
                item_id <= num_items,
                old(self).wf(),
                num_agents == self.num_agents,
                num_items == self.num_items,
                rounding_core(*old(self), *self, record, temp_budgets@, used_item@),
                temps_clean(*self, used_item@, num_agents as int),
                forall|ip: int|
                    item_id <= ip < num_items ==> (#[trigger] self.item_agent@[ip]) == old(
                        self,
                    ).item_agent@[ip],
                forall|ip: int, a: int|
                    0 <= ip < item_id && 0 <= a < num_agents && !used_item@[ip] && (#[trigger] old(
                        self,
                    ).data@[a]@[ip]) > 0 ==> (temp_budgets@[a] as int) < old(self).data@[a]@[
                    ip] as int,
            decreases num_items - item_id,
        {
            if !used_item[item_id] {
                proof {
                    let it = item_id as int;
                    assert(self.item_agent@[it] == old(self).item_agent@[it]);
                    assert forall|a: int|
                        0 <= a < num_agents && (#[trigger] old(self).data@[a]@[it])
                            > 0 implies exists|k: int|
                        0 <= k < self.item_agent@[it].entries@.len() && ((
                        #[trigger] self.item_agent@[it].entries@[k]).agent as int) == a by {
                        let k0 = choose|k: int|
                            0 <= k < old(self).item_agent@[it].entries@.len() && ((#[trigger] old(
                                self,
                            ).item_agent@[it].entries@[k]).agent as int) == a;
                        assert(((self.item_agent@[it].entries@[k0]).agent as int) == a);
                    }
                }
                let mut v: Vec<(u32, usize)> = Vec::new();
                while self.item_agent[item_id].len() > 0
                    invariant
                        item_id < num_items,
                        old(self).wf(),
                        num_agents == self.num_agents,
                        num_items == self.num_items,
                        rounding_core(*old(self), *self, record, temp_budgets@, used_item@),
                        temps_clean(*self, used_item@, num_agents as int),
                        forall|t: int|
                            0 <= t < v@.len() ==> (((#[trigger] v@[t]).1 as int) < num_agents && v@[
                            t].0 == old(self).data@[v@[t].1 as int]@[item_id as int] && v@[t].0
                                > 0),
                        forall|ip: int|
                            item_id < ip < num_items ==> (#[trigger] self.item_agent@[ip]) == old(
                                self,
                            ).item_agent@[ip],
                        forall|ip: int, a: int|
                            0 <= ip < item_id && 0 <= a < num_agents && !used_item@[ip] && (
                            #[trigger] old(self).data@[a]@[ip]) > 0 ==> (temp_budgets@[a] as int)
                                < old(self).data@[a]@[ip] as int,
                        // every bidder on the item still has a ledger entry,
                        // is already a collected candidate, or cannot afford
                        // its own bid
                        forall|a: int|
                            0 <= a < num_agents && (#[trigger] old(self).data@[a]@[
                            item_id as int]) > 0 ==> ((exists|k: int|
                                0 <= k < self.item_agent@[item_id as int].entries@.len() && ((
                                #[trigger] self.item_agent@[item_id as int].entries@[
                                k]).agent as int) == a) || (exists|t: int|
                                0 <= t < v@.len() && ((#[trigger] v@[t]).1 as int) == a) || (
                            temp_budgets@[a] as int) < old(self).data@[a]@[item_id as int] as int),
                    decreases self.item_agent@[item_id as int].entries@.len(),
                {
                    let ghost preh = self.item_agent@[item_id as int].entries@;
                    let ghost prev = v@;
                    let e = self.item_agent[item_id].pop();
                    let ghost jrem = choose|j: int|
                        0 <= j < preh.len() && e == preh[j] && self.item_agent@[
                        item_id as int].entries@ == preh.remove(j);
                    proof {
                        assert(preh.contains(e));
                        let u = choose|u: int| 0 <= u < preh.len() && preh[u] == e;
                        assert((e.agent as int) < num_agents);
                        assert forall|i: int, k: int|
                            0 <= i < self.m() && 0 <= k
                                < self.item_agent@[i].entries@.len() implies ((
                        #[trigger] self.item_agent@[i].entries@[k]).agent as int)
                            < self.n() by {
                            if i == item_id as int {
                                assert(preh.contains(self.item_agent@[i].entries@[k]));
                            }
                        }
                    }
                    let agent = e.agent;
                    let bid = self.data[agent][item_id];
                    if temp_budgets[agent] >= bid {
                        v.push((bid, agent));
                    }
                    proof {
                        let it = item_id as int;
                        assert forall|a: int|
                            0 <= a < num_agents && (#[trigger] old(self).data@[a]@[it])
                                > 0 implies ((exists|k: int|
                            0 <= k < self.item_agent@[it].entries@.len() && ((
                            #[trigger] self.item_agent@[it].entries@[k]).agent as int) == a) || (
                        exists|t: int|
                            0 <= t < v@.len() && ((#[trigger] v@[t]).1 as int) == a) || (
                        temp_budgets@[a] as int) < old(self).data@[a]@[it] as int) by {
                            if exists|k: int|
                                0 <= k < preh.len() && (((#[trigger] preh[k]).agent) as int) == a {
                                let k0 = choose|k: int|
                                    0 <= k < preh.len() && (((#[trigger] preh[k]).agent) as int)
                                        == a;
                                if k0 == jrem {
                                    if (temp_budgets@[a] as int) >= old(self).data@[a]@[it] {
                                        assert(((v@[v@.len() - 1]).1 as int) == a);
                                    }
                                } else if k0 < jrem {
                                    assert(self.item_agent@[it].entries@[k0] == preh[k0]);
                                } else {
                                    assert(self.item_agent@[it].entries@[k0 - 1] == preh[k0]);
                                }
                            } else if exists|t: int|
                                0 <= t < prev.len() && (((#[trigger] prev[t]).1) as int) == a {
                                let t0 = choose|t: int|
                                    0 <= t < prev.len() && (((#[trigger] prev[t]).1) as int) == a;
                                assert(((v@[t0]).1 as int) == a);
                            }
                        }
                    }
                }
                let ghost pre_sort = v@;
                sort_pairs_desc(&mut v);
                proof {
                    broadcast use vstd::seq_lib::group_to_multiset_ensures;

                    assert forall|t: int|
                        0 <= t < v@.len() implies (((#[trigger] v@[t]).1 as int) < num_agents && v@[
                    t].0 == old(self).data@[v@[t].1 as int]@[item_id as int] && v@[t].0 > 0) by {
                        let x = v@[t];
                        assert(v@.contains(x));
                        assert(pre_sort.to_multiset().count(x) > 0);
                        assert(pre_sort.contains(x));
                        let u = choose|u: int| 0 <= u < pre_sort.len() && pre_sort[u] == x;
                        assert(pre_sort[u].1 == x.1 && pre_sort[u].0 == x.0);
                    }
                    assert forall|a: int|
                        0 <= a < num_agents && (#[trigger] old(self).data@[a]@[item_id as int])
                            > 0 implies ((exists|t: int|
                        0 <= t < v@.len() && ((#[trigger] v@[t]).1 as int) == a) || (
                    temp_budgets@[a] as int) < old(self).data@[a]@[item_id as int] as int) by {
                        if exists|t: int|
                            0 <= t < pre_sort.len() && (((#[trigger] pre_sort[t]).1) as int)
                                == a {
                            let t0 = choose|t: int|
                                0 <= t < pre_sort.len() && (((#[trigger] pre_sort[t]).1) as int)
                                    == a;
                            let x = pre_sort[t0];
                            assert(pre_sort.contains(x));
                            assert(v@.to_multiset().count(x) > 0);
                            assert(v@.contains(x));
                            let t1 = choose|t: int| 0 <= t < v@.len() && v@[t] == x;
                            assert(((v@[t1]).1 as int) == a);
                        }
                    }
                }
                let ghost tb0 = temp_budgets@;
                let mut jj: usize = 0;
                let mut done = false;
                while jj < v.len() && !done
                    invariant
                        item_id < num_items,
                        old(self).wf(),
                        num_agents == self.num_agents,
                        num_items == self.num_items,
                        jj <= v@.len(),
                        rounding_core(*old(self), *self, record, temp_budgets@, used_item@),
                        temps_clean(*self, used_item@, num_agents as int),
                        forall|t: int|
                            0 <= t < v@.len() ==> (((#[trigger] v@[t]).1 as int) < num_agents && v@[
                            t].0 == old(self).data@[v@[t].1 as int]@[item_id as int] && v@[t].0
                                > 0),
                        forall|ip: int|
                            item_id < ip < num_items ==> (#[trigger] self.item_agent@[ip]) == old(
                                self,
                            ).item_agent@[ip],
                        forall|ip: int, a: int|
                            0 <= ip < item_id && 0 <= a < num_agents && !used_item@[ip] && (
                            #[trigger] old(self).data@[a]@[ip]) > 0 ==> (temp_budgets@[a] as int)
                                < old(self).data@[a]@[ip] as int,
                        forall|a: int|
                            0 <= a < num_agents && (#[trigger] old(self).data@[a]@[
                            item_id as int]) > 0 ==> ((exists|t: int|
                                0 <= t < v@.len() && ((#[trigger] v@[t]).1 as int) == a) || (tb0[
                            a] as int) < old(self).data@[a]@[item_id as int] as int),
                        !done ==> temp_budgets@ == tb0,
                        !done ==> !used_item@[item_id as int],
                        !done ==> (forall|t: int|
                            0 <= t < jj ==> ((temp_budgets@[(#[trigger] v@[t]).1 as int]) as int)
                                < v@[t].0 as int),
                        done ==> used_item@[item_id as int],
                    decreases v@.len() - jj,
                {
                    let bid = v[jj].0;
                    let agent = v[jj].1;
                    if temp_budgets[agent] >= bid && !used_item[item_id] {
                        let ghost orig = *old(self);
                        let ghost cur = *self;
                        assign_round(
                            &mut record,
                            &mut temp_budgets,
                            &mut used_item,
                            agent,
                            item_id,
                            bid,
                            Ghost(orig),
                            Ghost(cur),
                        );
                        done = true;
                    }
                    jj = jj + 1;
                }
                proof {
                    let it = item_id as int;
                    if !done {
                        assert forall|a: int|
                            0 <= a < num_agents && !used_item@[it] && (#[trigger] old(
                                self,
                            ).data@[a]@[it]) > 0 implies (temp_budgets@[a] as int) < old(
                            self,
                        ).data@[a]@[it] as int by {
                            if exists|t: int|
                                0 <= t < v@.len() && (((#[trigger] v@[t]).1) as int) == a {
                                let t0 = choose|t: int|
                                    0 <= t < v@.len() && (((#[trigger] v@[t]).1) as int) == a;
                                assert((temp_budgets@[(v@[t0]).1 as int] as int) < (v@[
                                t0]).0 as int);
                            }
                        }
                    }
                }
            }
            item_id = item_id + 1;
        }
        proof {
            assert forall|ax: int|
                0 <= ax < old(self).n() implies sum_bids(
                old(self).data@[ax]@,
                record.assignment@[ax]@,
            ) <= old(self).budgets@[ax] as int by {
                assert(sum_bids(old(self).data@[ax]@, record.assignment@[ax]@) + temp_budgets@[ax]
                    == old(self).budgets@[ax]);
            }
            assert forall|i: int, a: int|
                0 <= i < old(self).m() && 0 <= a < old(self).n() && !assigned_somewhere(
                    record.assignment@,
                    i,
                ) && (#[trigger] old(self).data@[a]@[i]) > 0 implies old(self).budgets@[a] as int
                - sum_bids(old(self).data@[a]@, record.assignment@[a]@) < old(self).data@[a]@[
            i] by {
                assert(!used_item@[i]);
                assert((temp_budgets@[a] as int) < old(self).data@[a]@[i] as int);
                assert(sum_bids(old(self).data@[a]@, record.assignment@[a]@) + temp_budgets@[a]
                    == old(self).budgets@[a]);
            }
        }
        record
    }

}

/// One accepted assignment inside the rounding pass: pays `bid` out of the
/// agent's working budget, appends the item to the record, and marks the
/// item used. The caller guarantees affordability, that the item is still
/// unused, and that `bid` is the agent's bid on the item; every clause of
/// the rounding-pass state is preserved.
fn assign_round(
    record: &mut Assignment,
    temp_budgets: &mut Vec<u32>,
    used_item: &mut Vec<bool>,
    agent_id: usize,
    item_id: usize,
    bid: u32,
    Ghost(orig): Ghost<PrimalDual>,
    Ghost(cur): Ghost<PrimalDual>,
)
    requires
        orig.wf(),
        rounding_core(orig, cur, *old(record), old(temp_budgets)@, old(used_item)@),
        (agent_id as int) < orig.n(),
        (item_id as int) < orig.m(),
        !old(used_item)@[item_id as int],
        old(temp_budgets)@[agent_id as int] >= bid,
        bid == orig.data@[agent_id as int]@[item_id as int],
        bid > 0,
    ensures
        rounding_core(orig, cur, *final(record), final(temp_budgets)@, final(used_item)@),
        final(used_item)@ == old(used_item)@.update(item_id as int, true),
        final(temp_budgets)@ == old(temp_budgets)@.update(
            agent_id as int,
            (old(temp_budgets)@[agent_id as int] - bid) as u32,
        ),
{
    proof {
        lemma_count_true_update(old(used_item)@, item_id as int);
        lemma_count_true_bound(old(used_item)@.update(item_id as int, true));
    }
    let tb_cur = temp_budgets[agent_id];
    temp_budgets[agent_id] = tb_cur - bid;
    let ghost asg1 = record.assignment@;
    record.assign(agent_id, item_id, bid);
    used_item[item_id] = true;
    proof {
        lemma_assign_step(
            asg1,
            record.assignment@,
            old(used_item)@,
            used_item@,
            orig.m(),
            agent_id as int,
            item_id,
        );
        lemma_total_assigned_push(
            orig.data@,
            asg1,
            record.assignment@,
            orig.n(),
            agent_id as int,
            item_id,
        );
        lemma_sum_bids_push(orig.data@[agent_id as int]@, asg1[agent_id as int]@, item_id);
        assert forall|a: int, k: int|
            0 <= a < orig.n() && 0 <= k < record.assignment@[a]@.len() implies orig.data@[a]@[((
        #[trigger] record.assignment@[a]@[k]) as int)] > 0 by {
            if a == agent_id as int && k == record.assignment@[a]@.len() - 1 {
                assert(record.assignment@[a]@[k] == item_id);
            } else {
                assert(record.assignment@[a]@[k] == asg1[a]@[k]);
            }
        }
    }
}

/// The running state of the rounding pass: the solver is unchanged except
/// for its ledgers and temporary allocation; the record under construction
/// satisfies the rounding invariant; each agent's assigned value plus its
/// remaining working budget equals its declared budget; and the total is
/// exactly the sum of all assigned bids, bounded by the used-item count.
pub open spec fn rounding_core(
    orig: PrimalDual,
    cur: PrimalDual,
    record: Assignment,
    temp_budgets: Seq<u32>,
    used: Seq<bool>,
) -> bool {
    &&& cur == (PrimalDual {
        item_agent: cur.item_agent,
        assignment_temp: cur.assignment_temp,
        ..orig
    })
    &&& cur.assignment_temp@.len() == orig.n()
    &&& cur.item_agent@.len() == orig.m()
    &&& forall|i: int, k: int|
        0 <= i < orig.m() && 0 <= k < cur.item_agent@[i].entries@.len() ==> (((
        #[trigger] cur.item_agent@[i].entries@[k]).agent as int) < orig.n() && orig.data@[
        cur.item_agent@[i].entries@[k].agent as int]@[i] > 0)
    &&& temp_budgets.len() == orig.n()
    &&& used.len() == orig.m()
    &&& record.assignment@.len() == orig.n()
    &&& record.budgets@ == orig.budgets@
    &&& rounding_inv(record.assignment@, used, orig.m())
    &&& forall|a: int|
        0 <= a < orig.n() ==> sum_bids(orig.data@[a]@, (#[trigger] record.assignment@[a])@)
            + temp_budgets[a] == orig.budgets@[a]
    &&& record.total_consumption as int == total_assigned(orig.data@, record.assignment@, orig.n())
    &&& record.total_consumption as int <= count_true(used) * (MAX_BID as int)
    &&& count_true(used) <= orig.m()
    &&& forall|a: int, k: int|
        0 <= a < orig.n() && 0 <= k < record.assignment@[a]@.len() ==> orig.data@[a]@[((
        #[trigger] record.assignment@[a]@[k]) as int)] > 0
}

/// The temporary allocation during the rounding pass: held items are in
/// range and still unused, no item is held twice, and the agents already
/// processed by the greedy pass are drained.
pub open spec fn temps_clean(cur: PrimalDual, used: Seq<bool>, drained: int) -> bool {
    &&& forall|a: int, k: int|
        0 <= a < cur.n() && 0 <= k < cur.assignment_temp@[a]@.len() ==> (((
        #[trigger] cur.assignment_temp@[a]@[k]) as int) < cur.m()
            && !used[cur.assignment_temp@[a]@[k] as int]
            && cur.data@[a]@[cur.assignment_temp@[a]@[k] as int] > 0)
    &&& forall|a1: int, k1: int, a2: int, k2: int|
        #![trigger cur.assignment_temp@[a1]@[k1], cur.assignment_temp@[a2]@[k2]]
        0 <= a1 < cur.n() && 0 <= k1 < cur.assignment_temp@[a1]@.len() && 0 <= a2 < cur.n() && 0
            <= k2 < cur.assignment_temp@[a2]@.len() && (a1 != a2 || k1 != k2)
            ==> cur.assignment_temp@[a1]@[k1] != cur.assignment_temp@[a2]@[k2]
    &&& forall|a: int| 0 <= a < drained ==> (#[trigger] cur.assignment_temp@[a])@.len() == 0
}

/// After a ledger pop (which removes the entry at one index) followed by a
/// push of an entry of the same agent as the popped one, every agent that
/// appeared among the entries still appears.
proof fn lemma_agent_survives_pop_push(pre: Seq<PriceEntry>, j: int, pushed: PriceEntry, a: int)
    requires
        0 <= j < pre.len(),
        pushed.agent == pre[j].agent,
        exists|k: int| 0 <= k < pre.len() && (((#[trigger] pre[k]).agent) as int) == a,
    ensures
        exists|k: int|
            0 <= k < pre.remove(j).push(pushed).len() && (((#[trigger] pre.remove(j).push(
                pushed,
            )[k]).agent) as int) == a,
{
    let post = pre.remove(j).push(pushed);
    let k0 = choose|k: int| 0 <= k < pre.len() && (((#[trigger] pre[k]).agent) as int) == a;
    if k0 == j {
        assert(post[post.len() - 1] == pushed);
    } else if k0 < j {
        assert(post[k0] == pre[k0]);
    } else {
        assert(post[k0 - 1] == pre[k0]);
    }
}

/// Number of stale entries in a ledger: entries whose stamp differs from
/// their agent's current update counter. Lazy revalidation refreshes one
/// stale entry per step and never creates a new one, so this is the
/// termination measure of the revalidation loop.
pub open spec fn stale_count(entries: Seq<PriceEntry>, nu: Seq<u64>) -> int
    decreases entries.len(),
{
    if entries.len() == 0 {
        0
    } else {
        (if entries[0].stamp != nu[entries[0].agent as int] {
            1int
        } else {
            0int
        }) + stale_count(entries.drop_first(), nu)
    }
}

proof fn lemma_stale_count_nonneg(entries: Seq<PriceEntry>, nu: Seq<u64>)
    ensures
        0 <= stale_count(entries, nu),
    decreases entries.len(),
{
    if entries.len() == 0 {
    } else {
        lemma_stale_count_nonneg(entries.drop_first(), nu);
    }
}

proof fn lemma_stale_count_push(entries: Seq<PriceEntry>, nu: Seq<u64>, e: PriceEntry)
    ensures
        stale_count(entries.push(e), nu) == stale_count(entries, nu) + (
        if e.stamp != nu[e.agent as int] {
            1int
        } else {
            0int
        }),
    decreases entries.len(),
{
    if entries.len() == 0 {
        assert(entries.push(e)[0] == e);
        assert(entries.push(e).drop_first() =~= Seq::<PriceEntry>::empty());
        assert(stale_count(entries.push(e), nu) == (if e.stamp != nu[e.agent as int] {
            1int
        } else {
            0int
        }) + stale_count(Seq::<PriceEntry>::empty(), nu));
    } else {
        assert(entries.push(e)[0] == entries[0]);
        assert(entries.push(e).drop_first() =~= entries.drop_first().push(e));
        lemma_stale_count_push(entries.drop_first(), nu, e);
        assert(stale_count(entries.push(e), nu) == (if entries[0].stamp != nu[entries[0].agent as int] {
            1int
        } else {
            0int
        }) + stale_count(entries.drop_first().push(e), nu));
    }
}

proof fn lemma_stale_count_remove(entries: Seq<PriceEntry>, nu: Seq<u64>, j: int)
    requires
        0 <= j < entries.len(),
    ensures
        stale_count(entries.remove(j), nu) == stale_count(entries, nu) - (
        if entries[j].stamp != nu[entries[j].agent as int] {
            1int
        } else {
            0int
        }),
    decreases entries.len(),
{
    if j == 0 {
        assert(entries.remove(0) =~= entries.drop_first());
    } else {
        assert(entries.remove(j)[0] == entries[0]);
        assert(entries.remove(j).drop_first() =~= entries.drop_first().remove(j - 1));
        lemma_stale_count_remove(entries.drop_first(), nu, j - 1);
    }
}

/// An agent whose consumption is within its plain budget is always paid
/// for: the slack multiplier `U` is at least 1.
pub proof fn lemma_within_budget_is_paid(c: int, b: int, a: int, bn: int, bd: int)
    requires
        0 <= c <= b,
        0 <= a <= SCALE,
        0 <= bn <= bd,
        1 <= bd,
    ensures
        paid_within(c, b, a, bn, bd),
{
    let f = (SCALE as int - a) * (4 * bd - bn);
    assert(0 <= f) by (nonlinear_arith)
        requires
            0 <= SCALE as int - a,
            0 <= 4 * bd - bn,
            f == (SCALE as int - a) * (4 * bd - bn),
    ;
    assert(c * f <= b * f) by (nonlinear_arith)
        requires
            0 <= c <= b,
            0 <= f,
    ;
    assert(0 <= b * (SCALE as int * bn)) by (nonlinear_arith)
        requires
            0 <= b,
            0 <= bn,
    ;
    assert(b * f + b * (SCALE as int * bn) == b * (f + SCALE as int * bn)) by (nonlinear_arith);
}

/// An agent whose discount has reached 1 (`alpha == SCALE`) is always paid
/// for: the feasibility threshold is unbounded there.
pub proof fn lemma_full_discount_is_paid(c: int, b: int, a: int, bn: int, bd: int)
    requires
        0 <= c,
        0 <= b,
        a == SCALE,
        0 <= bn <= bd,
        1 <= bd,
    ensures
        paid_within(c, b, a, bn, bd),
{
    let f = (SCALE as int - a) * (4 * bd - bn);
    assert(f == 0) by (nonlinear_arith)
        requires
            a == SCALE as int,
            f == (SCALE as int - a) * (4 * bd - bn),
    ;
    assert(c * f == 0) by (nonlinear_arith)
        requires
            f == 0,
    ;
    assert(0 <= b * (f + SCALE as int * bn)) by (nonlinear_arith)
        requires
            0 <= b,
            0 <= bn,
            f == 0,
    ;
}

/// Sum of bids over a pushed item list: the new item's bid is added.
proof fn lemma_sum_bids_push(row: Seq<u32>, items: Seq<usize>, i: usize)
    ensures
        sum_bids(row, items.push(i)) == sum_bids(row, items) + row[i as int],
    decreases items.len(),
{
    if items.len() == 0 {
        assert(items.push(i)[0] == i);
        assert(items.push(i).drop_first() =~= Seq::<usize>::empty());
        assert(sum_bids(row, items.push(i)) == row[i as int] + sum_bids(
            row,
            Seq::<usize>::empty(),
        ));
    } else {
        assert(items.push(i).drop_first() =~= items.drop_first().push(i));
        assert(items.push(i)[0] == items[0]);
        lemma_sum_bids_push(row, items.drop_first(), i);
        assert(sum_bids(row, items.push(i)) == row[items[0] as int] + sum_bids(
            row,
            items.drop_first().push(i),
        ));
    }
}

/// A sum of bids is non-negative and at most `MAX_BID` per item.
proof fn lemma_sum_bids_bounds(row: Seq<u32>, items: Seq<usize>)
    ensures
        0 <= sum_bids(row, items) <= items.len() * (MAX_BID as int),
    decreases items.len(),
{
    if items.len() == 0 {
    } else {
        lemma_sum_bids_bounds(row, items.drop_first());
    }
}

/// A duplicate-free sequence of indices below `n` has at most `n` elements.
proof fn lemma_unique_bounded_len(s: Seq<usize>, n: int)
    requires
        s.no_duplicates(),
        0 <= n,
        forall|k: int| 0 <= k < s.len() ==> ((#[trigger] s[k]) as int) < n,
    ensures
        s.len() <= n,
{
    let f = |x: usize| x as int;
    let t = s.map_values(f);
    assert(vstd::relations::injective(f));
    s.lemma_no_duplicates_injective(f);
    t.unique_seq_to_set();
    lemma_int_range(0, n);
    assert forall|x: int| t.to_set().contains(x) implies set_int_range(0, n).contains(x) by {
        let k = choose|k: int| 0 <= k < t.len() && t[k] == x;
        assert(s[k] as int == x);
    }
    lemma_len_subset(t.to_set(), set_int_range(0, n));
}

/// `x * y <= xb * yb` for non-negative values below the given bounds.
proof fn lemma_mul_le(x: int, xb: int, y: int, yb: int)
    requires
        0 <= x <= xb,
        0 <= y <= yb,
    ensures
        0 <= x * y <= xb * yb,
{
    assert(0 <= x * y <= xb * yb) by (nonlinear_arith)
        requires
            0 <= x <= xb,
            0 <= y <= yb,
    ;
}

/// Transitivity of the exact rational comparison, for positive denominators.
proof fn lemma_ratio_le_trans(n1: int, d1: int, n2: int, d2: int, n3: int, d3: int)
    requires
        d1 > 0,
        d2 > 0,
        d3 > 0,
        ratio_le(n1, d1, n2, d2),
        ratio_le(n2, d2, n3, d3),
    ensures
        ratio_le(n1, d1, n3, d3),
{
    assert(n1 * d3 <= n3 * d1) by (nonlinear_arith)
        requires
            d1 > 0,
            d2 > 0,
            d3 > 0,
            n1 * d2 <= n2 * d1,
            n2 * d3 <= n3 * d2,
    ;
}

} // verus!
