//! Player resource stock and supply accounting.

use vstd::prelude::*;

use crate::rts::entity::UnitKind;
use crate::scenario::MAX_SUPPLY_CAP;

verus! {

/// `a + b`, clamped to `u32::MAX`.
pub open spec fn sat_add(a: u32, b: u32) -> u32 {
    if a + b > u32::MAX { u32::MAX } else { (a + b) as u32 }
}

/// `a - b`, clamped to zero.
pub open spec fn sat_sub(a: u32, b: u32) -> u32 {
    if a < b { 0 } else { (a - b) as u32 }
}

/// Player stock of both resources.
#[derive(Clone, Copy, Debug, Default, PartialEq, Eq, Structural)]
pub struct Resources {
    pub crystal: u32,
    pub gas: u32,
}

impl Resources {
    /// The empty stock.
    pub fn zero() -> (r: Self)
        ensures
            r.crystal == 0 && r.gas == 0,
    {
        Self { crystal: 0, gas: 0 }
    }

    /// Whether `self` covers `cost` in both resources.
    pub open spec fn spec_covers(self, cost: Resources) -> bool {
        self.crystal >= cost.crystal && self.gas >= cost.gas
    }

    /// `self - cost`, for a stock that covers it.
    pub open spec fn spec_debit(self, cost: Resources) -> Resources {
        Resources { crystal: (self.crystal - cost.crystal) as u32, gas: (self.gas - cost.gas) as u32 }
    }

    /// `self + amount`, saturating per resource.
    pub open spec fn spec_credit(self, amount: Resources) -> Resources {
        Resources { crystal: sat_add(self.crystal, amount.crystal), gas: sat_add(self.gas, amount.gas) }
    }

    /// Whether this stock covers `cost`.
    pub fn covers(&self, cost: Resources) -> (r: bool)
        ensures
            r == self.spec_covers(cost),
    {
        self.crystal >= cost.crystal && self.gas >= cost.gas
    }

    /// Subtract `cost`, or leave the stock untouched and return `false`.
    pub fn try_debit(&mut self, cost: Resources) -> (r: bool)
        ensures
            r == old(self).spec_covers(cost),
            r ==> *final(self) == old(self).spec_debit(cost),
            !r ==> *final(self) == *old(self),
    {
        if !self.covers(cost) {
            return false;
        }
        self.crystal = self.crystal - cost.crystal;
        self.gas = self.gas - cost.gas;
        true
    }

    /// Add `amount`, saturating.
    pub fn credit(&mut self, amount: Resources)
        ensures
            *final(self) == old(self).spec_credit(amount),
    {
        self.crystal = self.crystal.saturating_add(amount.crystal);
        self.gas = self.gas.saturating_add(amount.gas);
    }
}

/// Paying for something and refunding it leaves the stock where it was: a
/// debit that succeeds is exactly undone by crediting the same cost.
pub proof fn lemma_debit_then_credit_restores(stock: Resources, cost: Resources)
    requires
        stock.spec_covers(cost),
    ensures
        stock.spec_debit(cost).spec_credit(cost) == stock,
{
}

/// A refused debit (stock short of the cost in either resource) is exactly the
/// case the stock does not cover; a covered debit never underflows either
/// resource.
pub proof fn lemma_debit_never_underflows(stock: Resources, cost: Resources)
    requires
        stock.spec_covers(cost),
    ensures
        stock.spec_debit(cost).crystal + cost.crystal == stock.crystal,
        stock.spec_debit(cost).gas + cost.gas == stock.gas,
{
}

/// Supply usage and ceiling. `cap` never exceeds [`MAX_SUPPLY_CAP`].
#[derive(Clone, Copy, Debug, Default, PartialEq, Eq, Structural)]
pub struct Supply {
    used: u32,
    cap: u32,
}

impl Supply {
    /// Supply currently in use.
    pub closed spec fn used_spec(self) -> u32 {
        self.used
    }

    /// Current supply ceiling.
    pub closed spec fn cap_spec(self) -> u32 {
        self.cap
    }

    /// The ceiling never exceeds [`MAX_SUPPLY_CAP`].
    pub open spec fn wf(self) -> bool {
        self.cap_spec() <= MAX_SUPPLY_CAP
    }

    /// Headroom: `cap - used`, clamped at zero.
    pub open spec fn free_spec(self) -> u32 {
        sat_sub(self.cap_spec(), self.used_spec())
    }

    /// Clamps `cap` to [`MAX_SUPPLY_CAP`].
    pub fn new(cap: u32) -> (s: Self)
        ensures
            s.used_spec() == 0,
            s.cap_spec() == (if cap <= MAX_SUPPLY_CAP { cap } else { MAX_SUPPLY_CAP }),
            s.wf(),
    {
        Self { used: 0, cap: if cap <= MAX_SUPPLY_CAP { cap } else { MAX_SUPPLY_CAP } }
    }

    pub fn used(&self) -> (r: u32)
        ensures
            r == self.used_spec(),
    {
        self.used
    }

    pub fn cap(&self) -> (r: u32)
        ensures
            r == self.cap_spec(),
    {
        self.cap
    }

    /// Free supply headroom, saturating at zero — a cap that fell below usage
    /// reads as 0 free, never underflows.
    pub fn free(&self) -> (r: u32)
        ensures
            r == self.free_spec(),
    {
        self.cap.saturating_sub(self.used)
    }

    /// Whether `cost` fits under the cap right now.
    pub fn fits(&self, cost: u32) -> (r: bool)
        ensures
            r == (cost <= self.free_spec()),
    {
        cost <= self.free()
    }

    pub fn add_used(&mut self, cost: u32)
        ensures
            final(self).used_spec() == sat_add(old(self).used_spec(), cost),
            final(self).cap_spec() == old(self).cap_spec(),
    {
        self.used = self.used.saturating_add(cost);
    }

    pub fn remove_used(&mut self, cost: u32)
        ensures
            final(self).used_spec() == sat_sub(old(self).used_spec(), cost),
            final(self).cap_spec() == old(self).cap_spec(),
    {
        self.used = self.used.saturating_sub(cost);
    }

    /// Raises the ceiling, clamped to [`MAX_SUPPLY_CAP`].
    pub fn grant_cap(&mut self, amount: u32)
        ensures
            final(self).cap_spec() == (if sat_add(old(self).cap_spec(), amount) <= MAX_SUPPLY_CAP {
                sat_add(old(self).cap_spec(), amount)
            } else {
                MAX_SUPPLY_CAP
            }),
            final(self).used_spec() == old(self).used_spec(),
            final(self).wf(),
    {
        let raised = self.cap.saturating_add(amount);
        self.cap = if raised <= MAX_SUPPLY_CAP { raised } else { MAX_SUPPLY_CAP };
    }

    /// Lowers the ceiling, clamped at zero.
    pub fn revoke_cap(&mut self, amount: u32)
        ensures
            final(self).cap_spec() == sat_sub(old(self).cap_spec(), amount),
            final(self).used_spec() == old(self).used_spec(),
            old(self).wf() ==> final(self).wf(),
    {
        self.cap = self.cap.saturating_sub(amount);
    }
}

/// Reserving supply and releasing it again restores the usage exactly, as
/// long as the reservation did not saturate.
pub proof fn lemma_add_then_remove_used_restores(used: u32, cost: u32)
    requires
        used + cost <= u32::MAX,
    ensures
        sat_sub(sat_add(used, cost), cost) == used,
{
}

/// Whatever fits can be reserved without exceeding the ceiling.
pub proof fn lemma_fitting_cost_stays_under_cap(s: Supply, cost: u32)
    requires
        cost <= s.free_spec(),
    ensures
        sat_add(s.used_spec(), cost) <= s.cap_spec() || cost == 0,
{
}

/// Supply a unit kind costs.
pub const WORKER_SUPPLY_COST: u32 = 1;
pub const SOLDIER_SUPPLY_COST: u32 = 2;

/// Supply cost of a unit kind. A Ghoul is never supply-counted.
pub open spec fn spec_supply_cost(kind: UnitKind) -> u32 {
    match kind {
        UnitKind::Worker => WORKER_SUPPLY_COST,
        UnitKind::Soldier => SOLDIER_SUPPLY_COST,
        UnitKind::Ghoul => 0,
    }
}

pub fn supply_cost(kind: UnitKind) -> (r: u32)
    ensures
        r == spec_supply_cost(kind),
{
    match kind {
        UnitKind::Worker => WORKER_SUPPLY_COST,
        UnitKind::Soldier => SOLDIER_SUPPLY_COST,
        UnitKind::Ghoul => 0,
    }
}

} // verus!
