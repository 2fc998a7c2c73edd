//! The final, strictly budget-feasible allocation produced by the solver's
//! rounding pass. Once constructed it is only written through `set_budget`
//! and `assign`; the solver never mutates a finished record.

use vstd::prelude::*;

verus! {

/// An independent snapshot of a finished allocation: a copy of every agent's
/// budget, the ordered list of items assigned to each agent, and the total
/// consumption, which always equals the sum of all assigned bid values.
pub struct Assignment {
    /// Sum of the bid values of every assigned (agent, item) pair.
    pub total_consumption: u64,
    /// A snapshot of each agent's declared budget.
    pub budgets: Vec<u32>,
    /// `assignment[agent_id]` holds the item ids assigned to that agent,
    /// in assignment order.
    pub assignment: Vec<Vec<usize>>,
}

impl Assignment {
    /// A fresh record for `num_agents` agents: nothing assigned, no
    /// consumption, all budgets zero.
    pub fn new(num_agents: usize) -> (r: Assignment)
        ensures
            r.total_consumption == 0,
            r.budgets@.len() == num_agents,
            forall|a: int| 0 <= a < num_agents ==> r.budgets@[a] == 0u32,
            r.assignment@.len() == num_agents,
            forall|a: int| 0 <= a < num_agents ==> (#[trigger] r.assignment@[a])@.len() == 0,
    {
        let mut budgets: Vec<u32> = Vec::new();
        let mut assignment: Vec<Vec<usize>> = Vec::new();
        let mut a: usize = 0;
        while a < num_agents
            invariant
                a <= num_agents,
                budgets@.len() == a,
                forall|k: int| 0 <= k < a ==> budgets@[k] == 0u32,
                assignment@.len() == a,
                forall|k: int| 0 <= k < a ==> (#[trigger] assignment@[k])@.len() == 0,
            decreases num_agents - a,
        {
            budgets.push(0u32);
            assignment.push(Vec::new());
            a = a + 1;
        }
        Assignment { total_consumption: 0u64, budgets, assignment }
    }

    /// Records `budget` as the snapshot budget of `agent_id`.
    pub fn set_budget(&mut self, agent_id: usize, budget: u32)
        requires
            agent_id < old(self).budgets@.len(),
        ensures
            final(self).budgets@ == old(self).budgets@.update(agent_id as int, budget),
            final(self).total_consumption == old(self).total_consumption,
            final(self).assignment == old(self).assignment,
    {
        self.budgets[agent_id] = budget;
    }

    /// Appends `item_id` to `agent_id`'s list and adds `bid` (the value of
    /// that agent's bid on the item) to the total consumption.
    pub fn assign(&mut self, agent_id: usize, item_id: usize, bid: u32)
        requires
            agent_id < old(self).assignment@.len(),
            old(self).total_consumption + bid <= u64::MAX,
        ensures
            final(self).total_consumption == old(self).total_consumption + bid,
            final(self).assignment@.len() == old(self).assignment@.len(),
            final(self).assignment@[agent_id as int]@
                == old(self).assignment@[agent_id as int]@.push(item_id),
            forall|a: int|
                0 <= a < old(self).assignment@.len() && a != agent_id
                    ==> final(self).assignment@[a] == old(self).assignment@[a],
            final(self).budgets == old(self).budgets,
    {
        self.total_consumption = self.total_consumption + bid as u64;
        self.assignment[agent_id].push(item_id);
    }
}

} // verus!
