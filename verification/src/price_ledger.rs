//! Per-item max-priority structure over (effective price, staleness stamp,
//! agent) entries. The solver keeps one ledger per item and revalidates
//! entries lazily: an entry whose stamp no longer matches its agent's update
//! counter is stale, and is re-priced and re-stamped only when it surfaces as
//! the maximum.

use vstd::prelude::*;

verus! {

/// One ledger entry. Entries are ordered lexicographically by
/// (price, stamp, agent), which makes every comparison — including the
/// tie-break between equal effective prices — deterministic.
#[derive(Clone, Copy, PartialEq, Eq, Structural)]
pub struct PriceEntry {
    /// The bid discounted by the agent's alpha at stamping time,
    /// as a fixed-point number: bid * (SCALE - alpha).
    pub price: u64,
    /// The agent's update-counter value when this entry was (re)stamped.
    pub stamp: u64,
    /// The bidding agent.
    pub agent: usize,
}

/// Total lexicographic order on entries: price first, then stamp, then
/// agent id.
pub open spec fn entry_le(x: PriceEntry, y: PriceEntry) -> bool {
    x.price < y.price
        || (x.price == y.price && x.stamp < y.stamp)
        || (x.price == y.price && x.stamp == y.stamp && x.agent <= y.agent)
}

/// A max-priority structure over price entries.
pub struct PriceLedger {
    pub entries: Vec<PriceEntry>,
}

/// Exec comparison, equal to the specification order `entry_le`.
fn entry_le_exec(x: &PriceEntry, y: &PriceEntry) -> (r: bool)
    ensures
        r == entry_le(*x, *y),
{
    x.price < y.price
        || (x.price == y.price && x.stamp < y.stamp)
        || (x.price == y.price && x.stamp == y.stamp && x.agent <= y.agent)
}

impl PriceLedger {
    /// An empty ledger.
    pub fn new() -> (r: PriceLedger)
        ensures
            r.entries@.len() == 0,
    {
        PriceLedger { entries: Vec::new() }
    }

    /// Number of entries currently stored.
    pub fn len(&self) -> (r: usize)
        ensures
            r == self.entries@.len(),
    {
        self.entries.len()
    }

    /// Adds an entry.
    pub fn push(&mut self, e: PriceEntry)
        ensures
            final(self).entries@ == old(self).entries@.push(e),
    {
        self.entries.push(e);
    }

    /// Removes and returns a maximal entry under `entry_le`
    /// (deterministically, the last maximal entry in storage order).
    pub fn pop(&mut self) -> (r: PriceEntry)
        requires
            old(self).entries@.len() >= 1,
        ensures
            final(self).entries@.len() == old(self).entries@.len() - 1,
            exists|j: int|
                0 <= j < old(self).entries@.len() && r == old(self).entries@[j]
                    && final(self).entries@ == old(self).entries@.remove(j),
            forall|k: int| 0 <= k < old(self).entries@.len() ==> entry_le(old(self).entries@[k], r),
            forall|k: int|
                0 <= k < final(self).entries@.len()
                    ==> old(self).entries@.contains(final(self).entries@[k]),
    {
        let mut best: usize = 0;
        let mut i: usize = 1;
        while i < self.entries.len()
            invariant
                *self == *old(self),
                1 <= i <= self.entries@.len(),
                best < i,
                forall|k: int| 0 <= k < i ==> entry_le(self.entries@[k], self.entries@[best as int]),
            decreases self.entries@.len() - i,
        {
            if entry_le_exec(&self.entries[best], &self.entries[i]) {
                best = i;
            }
            i = i + 1;
        }
        let ghost pre = self.entries@;
        let ghost j = best as int;
        let e = self.entries.remove(best);
        proof {
            assert(self.entries@ == pre.remove(j));
            assert forall|k: int| 0 <= k < self.entries@.len() implies pre.contains(
                self.entries@[k],
            ) by {
                if k < j {
                    assert(self.entries@[k] == pre[k]);
                } else {
                    assert(self.entries@[k] == pre[k + 1]);
                }
            }
        }
        e
    }
}

} // verus!
