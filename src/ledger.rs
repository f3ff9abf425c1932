//! Account balances, and the fee transfers between them.
use vstd::prelude::*;
use std::collections::HashMap;
use crate::types::{AccountId, Balance};

verus! {

broadcast use vstd::std_specs::hash::group_hash_axioms;

/// The balance of `who` in `m`; an account that was never funded holds 0.
pub open spec fn balance_in(m: Map<AccountId, Balance>, who: AccountId) -> Balance {
    if m.contains_key(who) {
        m[who]
    } else {
        0
    }
}

/// Whether moving `amount` from `from` to `to` is refused: the payer cannot
/// cover it, or the payee's balance would no longer fit.
pub open spec fn transfer_refused(
    m: Map<AccountId, Balance>,
    from: AccountId,
    to: AccountId,
    amount: Balance,
) -> bool {
    balance_in(m, from) < amount || (from != to && balance_in(m, to) + amount > Balance::MAX)
}

/// The balances after `amount` moved from `from` to `to`.
pub open spec fn transferred(
    m: Map<AccountId, Balance>,
    from: AccountId,
    to: AccountId,
    amount: Balance,
) -> Map<AccountId, Balance> {
    if from == to {
        m
    } else {
        m.insert(from, (balance_in(m, from) - amount) as Balance).insert(
            to,
            (balance_in(m, to) + amount) as Balance,
        )
    }
}

/// Why a transfer was refused.
#[derive(Clone, Copy, Debug, PartialEq, Eq, Structural)]
pub enum TransferError {
    /// The payer's balance does not cover the amount.
    InsufficientFunds,
    /// The payee's balance would overflow.
    Overflow,
}

/// The balances of all accounts.
pub struct Ledger {
    balances: HashMap<AccountId, Balance>,
}

impl View for Ledger {
    type V = Map<AccountId, Balance>;

    closed spec fn view(&self) -> Map<AccountId, Balance> {
        self.balances@
    }
}

impl Ledger {
    /// A ledger in which every account holds 0.
    pub fn new() -> (r: Ledger)
        ensures
            r@ == Map::<AccountId, Balance>::empty(),
    {
        Ledger { balances: HashMap::new() }
    }

    /// The free balance of `who`.
    pub fn free_balance(&self, who: AccountId) -> (r: Balance)
        ensures
            r == balance_in(self@, who),
    {
        match self.balances.get(&who) {
            Some(b) => *b,
            None => 0,
        }
    }

    /// Sets the free balance of `who` to `amount`.
    pub fn make_free_balance_be(&mut self, who: AccountId, amount: Balance)
        ensures
            final(self)@ == old(self)@.insert(who, amount),
    {
        self.balances.insert(who, amount);
    }

    /// Moves `amount` from `from` to `to`, or changes nothing and says why not.
    pub fn transfer(&mut self, from: AccountId, to: AccountId, amount: Balance) -> (r: Result<
        (),
        TransferError,
    >)
        ensures
            r is Ok <==> !transfer_refused(old(self)@, from, to, amount),
            r is Ok ==> final(self)@ == transferred(old(self)@, from, to, amount),
            r is Err ==> final(self)@ == old(self)@,
            r == Err::<(), TransferError>(TransferError::InsufficientFunds) <==> balance_in(
                old(self)@,
                from,
            ) < amount,
    {
        let have = self.free_balance(from);
        if have < amount {
            return Err(TransferError::InsufficientFunds);
        }
        if from == to {
            return Ok(());
        }
        let other = self.free_balance(to);
        if other > Balance::MAX - amount {
            return Err(TransferError::Overflow);
        }
        self.balances.insert(from, have - amount);
        self.balances.insert(to, other + amount);
        Ok(())
    }
}

} // verus!
