use vstd::prelude::*;

use crate::trit::TritAction;

verus! {

/// Resource allocation with ternary constraints.
///
/// `Positive` keeps 30% of the total in reserve (conservative), `Zero` is
/// flexible and `Negative` is free: neither of them reserves anything.
#[derive(Debug, Clone)]
pub struct ResourceAllocation {
    pub total: u64,
    pub allocated: u64,
    pub constraint: TritAction,
}

/// `a - b`, or zero where `b` is larger.
pub open spec fn sat_sub(a: int, b: int) -> int {
    if a >= b {
        a - b
    } else {
        0
    }
}

/// What stays in reserve: 30% of `total` (rounded down) under `Positive`, nothing otherwise.
pub open spec fn reserve_of(total: u64, constraint: TritAction) -> int {
    match constraint {
        TritAction::Positive => (3 * total) / 10,
        TritAction::Zero => 0,
        TritAction::Negative => 0,
    }
}

impl ResourceAllocation {
    /// The part of the total not yet allocated.
    pub open spec fn free(&self) -> int {
        sat_sub(self.total as int, self.allocated as int)
    }

    /// The largest amount that one allocation may take.
    pub open spec fn allowance(&self) -> int {
        sat_sub(self.free(), reserve_of(self.total, self.constraint))
    }

    /// The state after a successful allocation of `amount`.
    pub open spec fn after_allocating(&self, amount: u64) -> ResourceAllocation {
        ResourceAllocation {
            total: self.total,
            allocated: (self.allocated + amount) as u64,
            constraint: self.constraint,
        }
    }

    pub fn new(total: u64, constraint: TritAction) -> (r: Self)
        ensures
            r.total == total,
            r.allocated == 0,
            r.constraint == constraint,
    {
        ResourceAllocation { total, allocated: 0, constraint }
    }

    pub fn available(&self) -> (a: u64)
        ensures
            a == self.free(),
    {
        self.total.saturating_sub(self.allocated)
    }

    fn reserved(&self) -> (r: u64)
        ensures
            r == reserve_of(self.total, self.constraint),
    {
        match self.constraint {
            TritAction::Positive => {
                let t = self.total;
                proof {
                    assert(t / 10 * 3 + t % 10 * 3 / 10 == (3 * t) / 10) by (nonlinear_arith);
                }
                t / 10 * 3 + t % 10 * 3 / 10
            },
            TritAction::Zero => 0,
            TritAction::Negative => 0,
        }
    }

    /// Takes `amount` when it fits in what is free beyond the reserve.
    pub fn allocate(&mut self, amount: u64) -> (ok: bool)
        ensures
            ok == (amount <= old(self).allowance()),
            old(self).constraint != TritAction::Positive ==> (ok == (amount <= old(self).free())),
            old(self).constraint == TritAction::Positive ==> (ok == (amount == 0 || amount + (3
                * old(self).total) / 10 <= old(self).free())),
            ok ==> *final(self) == old(self).after_allocating(amount),
            !ok ==> *final(self) == *old(self),
    {
        let reserved = self.reserved();
        if amount <= self.available().saturating_sub(reserved) {
            self.allocated += amount;
            true
        } else {
            false
        }
    }

    /// Gives back `amount`, never going below nothing allocated.
    pub fn release(&mut self, amount: u64)
        ensures
            final(self).total == old(self).total,
            final(self).constraint == old(self).constraint,
            final(self).allocated == sat_sub(old(self).allocated as int, amount as int),
    {
        self.allocated = self.allocated.saturating_sub(amount);
    }
}

/// Law: an allocation never lets the allocated amount pass the total, and once it is
/// within the total it stays there.
pub proof fn law_allocate_within_total(r: ResourceAllocation, amount: u64)
    requires
        amount <= r.allowance(),
    ensures
        r.allocated <= r.total ==> r.after_allocating(amount).allocated <= r.total,
        r.after_allocating(amount).free() == r.free() - amount,
{
}

/// Law: a successful allocation leaves the reserve untouched.
pub proof fn law_allocate_keeps_reserve(r: ResourceAllocation, amount: u64)
    requires
        amount <= r.allowance(),
        amount > 0,
    ensures
        r.after_allocating(amount).free() >= reserve_of(r.total, r.constraint),
{
}

/// Law: releasing what a successful allocation took restores the allocation.
pub proof fn law_release_undoes_allocate(r: ResourceAllocation, amount: u64)
    requires
        amount <= r.allowance(),
    ensures
        sat_sub(r.after_allocating(amount).allocated as int, amount as int) == r.allocated,
{
}

/// Law: only a `Positive` constraint keeps anything back, and then exactly 30% of the total
/// rounded down; under `Zero` or `Negative` everything free may be allocated, so a fresh
/// pool accepts any amount up to its total.
pub proof fn law_reserve_only_when_positive(r: ResourceAllocation)
    ensures
        r.constraint != TritAction::Positive ==> r.allowance() == r.free(),
        r.constraint != TritAction::Positive && r.allocated == 0 ==> r.allowance() == r.total,
        r.constraint == TritAction::Positive ==> {
            let kept = reserve_of(r.total, r.constraint);
            &&& 10 * kept <= 3 * r.total < 10 * kept + 10
            &&& r.allowance() == sat_sub(r.free(), kept)
        },
{
}

/// Law: allocating never eats into the reserve: a pool that starts with at least its
/// reserve free still has it free after any successful allocation.
pub proof fn law_allocate_respects_reserve(r: ResourceAllocation, amount: u64)
    requires
        r.free() >= reserve_of(r.total, r.constraint),
        amount <= r.allowance(),
    ensures
        r.after_allocating(amount).free() >= reserve_of(r.total, r.constraint),
        r.after_allocating(amount).free() == r.free() - amount,
{
}

} // verus!
