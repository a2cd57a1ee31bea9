//! Deposits into accounts, and the settlement of collateral releases: a
//! release debits the account first, and a failed transfer is compensated
//! once, back into the account or else into the owner's lost-found account.

use vstd::prelude::*;
use crate::account::{storage_cost, Account};
use crate::contract::{Contract, PromiseOutcome};
use crate::errors::CraftingError;
use crate::table::{AccountId, has_id};
use crate::utils::{is_valid_account_id, valid_account_id};

verus! {

/// How a release of collateral ended.
#[derive(Clone, Copy, Debug, PartialEq, Eq, Structural)]
pub enum Settlement {
    /// The transfer succeeded; the debit stands.
    Confirmed,
    /// The transfer failed and the amount went back to the account.
    Refunded,
    /// The transfer failed and the amount went to the owner's lost-found
    /// account.
    LostFound,
}

/// The balance of `token` in `account`, zero where either is missing.
pub open spec fn held(account: Option<Account>, token: Seq<char>) -> int {
    match account {
        Some(a) => if a.balances().contains_key(token) {
            a.balances()[token] as int
        } else {
            0
        },
        None => 0,
    }
}

impl Contract {
    /// `new` differs from `old` only in the account of `id`.
    pub open spec fn only_account_changed(old: Contract, new: Contract, id: Seq<char>) -> bool {
        &&& forall|q: Seq<char>| q != id ==> #[trigger] new.account(q) == old.account(q)
        &&& new.debt_pool == old.debt_pool
        &&& new.account_book == old.account_book
        &&& new.collaterals == old.collaterals
        &&& new.owner_id == old.owner_id
        &&& new.whitelisted_tokens == old.whitelisted_tokens
    }

    /// What recording a deposit of `amount` of `token_id` from `sender_id`
    /// answers: the account must exist, the token be whitelisted or already
    /// registered there, the balance fit, and the storage deposit cover a new
    /// row.
    pub open spec fn deposit_result(&self, sender_id: Seq<char>, token_id: Seq<char>, amount: u128) -> Result<
        (),
        CraftingError,
    > {
        match self.account(sender_id) {
            None => Err(CraftingError::AccountNotRegistered),
            Some(a) => if !has_id(self.whitelisted_tokens@, token_id) && !a.balances().contains_key(
                token_id,
            ) {
                Err(CraftingError::TokenNotWhitelisted)
            } else if held(Some(a), token_id) + amount > u128::MAX {
                Err(CraftingError::Overflow)
            } else if storage_cost(
                if a.balances().contains_key(token_id) {
                    a.entries().len()
                } else {
                    a.entries().len() + 1
                },
            ) > a.near_amount {
                Err(CraftingError::InsufficientStorage)
            } else {
                Ok(())
            },
        }
    }

    /// Whether the lost-found credit of `amount` of `token_id` is refused.
    pub open spec fn lostfound_error(&self, token_id: Seq<char>, amount: u128) -> Option<CraftingError> {
        if !has_id(self.whitelisted_tokens@, token_id) {
            Some(CraftingError::NonWhitelistedLostFound)
        } else if held(self.account(self.owner_id@), token_id) + amount > u128::MAX {
            Some(CraftingError::Overflow)
        } else {
            None
        }
    }

    /// Credits `amount` of `token_id` to the owner's lost-found account,
    /// with no storage check; only a whitelisted token may go there.
    pub fn internal_lostfound(&mut self, token_id: &AccountId, amount: u128) -> (r: Result<
        (),
        CraftingError,
    >)
        requires
            old(self).wf(),
        ensures
            final(self).wf(),
            r == match old(self).lostfound_error(token_id@, amount) {
                Some(e) => Err(e),
                None => Ok::<(), CraftingError>(()),
            },
            r is Err ==> *final(self) == *old(self),
            r is Ok ==> held(final(self).account(old(self).owner_id@), token_id@) == held(
                old(self).account(old(self).owner_id@),
                token_id@,
            ) + amount,
            r is Ok ==> Contract::only_account_changed(*old(self), *final(self), old(self).owner_id@),
    {
        if !self.is_in_whitelisted_tokens(token_id) {
            return Err(CraftingError::NonWhitelistedLostFound);
        }
        let owner = self.owner_id.clone();
        let mut lostfound = self.internal_unwrap_or_default_account(&owner);
        lostfound.deposit(token_id, amount)?;
        self.store_account(&owner, lostfound);
        Ok(())
    }

    /// The balance of `token_id` in `sender_id`'s account; zero where either
    /// is missing.
    pub fn internal_get_deposit(&self, sender_id: &AccountId, token_id: &AccountId) -> (r: u128)
        requires
            self.wf(),
        ensures
            r == held(self.account(sender_id@), token_id@),
    {
        match self.internal_get_account(sender_id) {
            Some(account) => match account.get_balance(token_id) {
                Some(b) => b,
                None => 0,
            },
            None => 0,
        }
    }

    /// Why compensating a failed release is refused, if it is.
    pub open spec fn compensation_error(
        &self,
        token_id: Seq<char>,
        sender_id: Seq<char>,
        amount: u128,
    ) -> Option<CraftingError> {
        match self.account(sender_id) {
            Some(a) => if a.balances().contains_key(token_id) {
                if a.balances()[token_id] + amount > u128::MAX {
                    Some(CraftingError::Overflow)
                } else {
                    None
                }
            } else if storage_cost(a.entries().len() + 1) <= a.near_amount {
                None
            } else {
                self.lostfound_error(token_id, amount)
            },
            None => self.lostfound_error(token_id, amount),
        }
    }

    /// Whether a failed release of `token_id` to `sender_id` goes back to
    /// the account: it exists and holds the token, or can afford its row.
    pub open spec fn refundable(&self, token_id: Seq<char>, sender_id: Seq<char>) -> bool {
        match self.account(sender_id) {
            Some(a) => a.balances().contains_key(token_id) || storage_cost(a.entries().len() + 1)
                <= a.near_amount,
            None => false,
        }
    }

    /// Runs once the transfer of a release has ended. A success leaves the
    /// debit as it is. A failure puts `amount` back into the recipient's
    /// account where it exists and can afford the token's row, and otherwise
    /// into the owner's lost-found account, which takes whitelisted tokens
    /// only.
    pub fn exchange_callback_post_withdraw(
        &mut self,
        token_id: &AccountId,
        sender_id: &AccountId,
        amount: u128,
        outcome: PromiseOutcome,
    ) -> (r: Result<Settlement, CraftingError>)
        requires
            old(self).wf(),
        ensures
            final(self).wf(),
            outcome == PromiseOutcome::Successful ==> r == Ok::<Settlement, CraftingError>(
                Settlement::Confirmed,
            ) && *final(self) == *old(self),
            outcome == PromiseOutcome::Failed ==> match old(self).compensation_error(
                token_id@,
                sender_id@,
                amount,
            ) {
                Some(e) => r == Err::<Settlement, CraftingError>(e),
                None => r == Ok::<Settlement, CraftingError>(
                    if old(self).refundable(token_id@, sender_id@) {
                        Settlement::Refunded
                    } else {
                        Settlement::LostFound
                    },
                ),
            },
            r is Err ==> *final(self) == *old(self),
            r == Ok::<Settlement, CraftingError>(Settlement::Refunded) ==> held(
                final(self).account(sender_id@),
                token_id@,
            ) == held(old(self).account(sender_id@), token_id@) + amount
                && Contract::only_account_changed(*old(self), *final(self), sender_id@),
            r == Ok::<Settlement, CraftingError>(Settlement::LostFound) ==> held(
                final(self).account(old(self).owner_id@),
                token_id@,
            ) == held(old(self).account(old(self).owner_id@), token_id@) + amount
                && Contract::only_account_changed(*old(self), *final(self), old(self).owner_id@),
    {
        if outcome == PromiseOutcome::Successful {
            return Ok(Settlement::Confirmed);
        }
        match self.internal_get_account(sender_id) {
            Some(mut account) => {
                if account.deposit_with_storage_check(token_id, amount)? {
                    self.store_account(sender_id, account);
                    return Ok(Settlement::Refunded);
                }
            },
            None => {},
        }
        self.internal_lostfound(token_id, amount)?;
        Ok(Settlement::LostFound)
    }

    /// Registers `account_id` where it is new and adds `amount` to its
    /// storage deposit, which must then cover its storage.
    pub fn internal_register_account(&mut self, account_id: &AccountId, amount: u128) -> (r: Result<
        (),
        CraftingError,
    >)
        requires
            old(self).wf(),
        ensures
            final(self).wf(),
            r is Err ==> *final(self) == *old(self),
            r is Ok ==> (final(self).account(account_id@) matches Some(a) && a.near_amount == (match old(
                self,
            ).account(account_id@) {
                Some(b) => b.near_amount as int,
                None => 0,
            }) + amount),
            r is Ok ==> Contract::only_account_changed(*old(self), *final(self), account_id@),
            r == ({
                let near = (match old(self).account(account_id@) {
                    Some(b) => b.near_amount as int,
                    None => 0,
                }) + amount;
                let tokens = match old(self).account(account_id@) {
                    Some(b) => b.entries().len(),
                    None => 0,
                };
                if near > u128::MAX {
                    Err::<(), CraftingError>(CraftingError::Overflow)
                } else if storage_cost(tokens) > near {
                    Err(CraftingError::InsufficientStorage)
                } else {
                    Ok(())
                }
            }),
    {
        let mut account = self.internal_unwrap_or_default_account(account_id);
        account.near_amount = match account.near_amount.checked_add(amount) {
            Some(v) => v,
            None => {
                return Err(CraftingError::Overflow);
            },
        };
        self.internal_save_account(account_id, account)
    }

    /// Takes `amount` of free storage deposit out of `account_id`; zero
    /// means all of it. Returns the amount taken.
    pub fn internal_storage_withdraw(&mut self, account_id: &AccountId, amount: u128) -> (r: Result<
        u128,
        CraftingError,
    >)
        requires
            old(self).wf(),
        ensures
            final(self).wf(),
            r is Err ==> *final(self) == *old(self),
            old(self).account(account_id@) is None ==> r == Err::<u128, CraftingError>(
                CraftingError::AccountNotRegistered,
            ),
            old(self).account(account_id@) matches Some(a) ==> ({
                let free = if a.near_amount > storage_cost(a.entries().len()) {
                    a.near_amount - storage_cost(a.entries().len())
                } else {
                    0
                };
                let wanted = if amount == 0 {
                    free
                } else {
                    amount as int
                };
                &&& r == if free == 0 {
                    Err::<u128, CraftingError>(CraftingError::NoStorageCanWithdraw)
                } else if wanted > free {
                    Err(CraftingError::StorageWithdrawTooMuch)
                } else {
                    Ok(wanted as u128)
                }
                &&& r is Ok ==> (final(self).account(account_id@) matches Some(b) && b.near_amount
                    == a.near_amount - wanted && b.entries() == a.entries())
            }),
            r is Ok ==> Contract::only_account_changed(*old(self), *final(self), account_id@),
    {
        let mut account = self.internal_unwrap_account(account_id)?;
        let available = account.storage_available();
        if available == 0 {
            return Err(CraftingError::NoStorageCanWithdraw);
        }
        let withdraw_amount = if amount == 0 {
            available
        } else {
            amount
        };
        if withdraw_amount > available {
            return Err(CraftingError::StorageWithdrawTooMuch);
        }
        account.near_amount = account.near_amount - withdraw_amount;
        self.store_account(account_id, account);
        Ok(withdraw_amount)
    }

    /// Records `amount` of `token_id` sent by `sender_id` into its account;
    /// the token must be whitelisted or already registered there, and the
    /// account must afford its storage afterwards.
    pub fn internal_deposit(&mut self, sender_id: &AccountId, token_id: &AccountId, amount: u128) -> (r:
        Result<(), CraftingError>)
        requires
            old(self).wf(),
        ensures
            final(self).wf(),
            r is Err ==> *final(self) == *old(self),
            r == old(self).deposit_result(sender_id@, token_id@, amount),
            r is Ok ==> held(final(self).account(sender_id@), token_id@) == held(
                old(self).account(sender_id@),
                token_id@,
            ) + amount,
            r is Ok ==> Contract::only_account_changed(*old(self), *final(self), sender_id@),
    {
        let mut account = self.internal_unwrap_account(sender_id)?;
        if !self.is_in_whitelisted_tokens(token_id) && account.get_balance(token_id).is_none() {
            return Err(CraftingError::TokenNotWhitelisted);
        }
        account.deposit(token_id, amount)?;
        self.internal_save_account(sender_id, account)
    }

    /// The receiving hook of the token protocol: `token_id` sent `amount`
    /// from `sender_id`.
    pub fn ft_on_transfer(&mut self, token_id: &AccountId, sender_id: &AccountId, amount: u128) -> (r:
        Result<(), CraftingError>)
        requires
            old(self).wf(),
        ensures
            final(self).wf(),
            r is Err ==> *final(self) == *old(self),
            r == if old(self).running() {
                old(self).deposit_result(sender_id@, token_id@, amount)
            } else {
                Err(CraftingError::ContractPaused)
            },
            r is Ok ==> held(final(self).account(sender_id@), token_id@) == held(
                old(self).account(sender_id@),
                token_id@,
            ) + amount,
            r is Ok ==> Contract::only_account_changed(*old(self), *final(self), sender_id@),
    {
        self.assert_contract_running()?;
        self.internal_deposit(sender_id, token_id, amount)
    }

    /// Registers `token_ids` in the caller's account with balance zero; each
    /// must be a well-formed account identifier, and the account must afford
    /// the storage afterwards.
    pub fn register_tokens(&mut self, sender_id: &AccountId, token_ids: &Vec<AccountId>) -> (r: Result<
        (),
        CraftingError,
    >)
        requires
            old(self).wf(),
        ensures
            final(self).wf(),
            r is Err ==> *final(self) == *old(self),
            !old(self).running() ==> r == Err::<(), CraftingError>(CraftingError::ContractPaused),
            old(self).running() && !(forall|j: int|
                0 <= j < token_ids@.len() ==> valid_account_id((#[trigger] token_ids@[j])@))
                ==> r == Err::<(), CraftingError>(CraftingError::InvalidAccountId),
            r is Ok ==> old(self).running() && forall|j: int|
                0 <= j < token_ids@.len() ==> valid_account_id((#[trigger] token_ids@[j])@),
            old(self).running() && (forall|j: int|
                0 <= j < token_ids@.len() ==> valid_account_id((#[trigger] token_ids@[j])@)) && old(
                self,
            ).account(sender_id@) is None ==> r == Err::<(), CraftingError>(
                CraftingError::AccountNotRegistered,
            ),
            r is Ok ==> (final(self).account(sender_id@) matches Some(a) && old(self).account(sender_id@) matches Some(b)
                && forall|k: Seq<char>| #[trigger] a.balances().contains_key(k) == (b.balances().contains_key(k)
                    || exists|j: int| 0 <= j < token_ids@.len() && (#[trigger] token_ids@[j])@ == k)),
            r is Ok ==> Contract::only_account_changed(*old(self), *final(self), sender_id@),
    {
        self.assert_contract_running()?;
        let mut i: usize = 0;
        while i < token_ids.len()
            invariant
                *self == *old(self),
                self.wf(),
                old(self).running(),
                i <= token_ids@.len(),
                forall|j: int| 0 <= j < i ==> valid_account_id((#[trigger] token_ids@[j])@),
            decreases token_ids@.len() - i,
        {
            if !is_valid_account_id(&token_ids[i]) {
                return Err(CraftingError::InvalidAccountId);
            }
            i = i + 1;
        }
        let mut account = self.internal_unwrap_account(sender_id)?;
        account.register(token_ids);
        self.internal_save_account(sender_id, account)
    }

    /// Unregisters `token_ids` from the caller's account; each must hold
    /// nothing.
    pub fn unregister_tokens(&mut self, sender_id: &AccountId, token_ids: &Vec<AccountId>) -> (r: Result<
        (),
        CraftingError,
    >)
        requires
            old(self).wf(),
        ensures
            final(self).wf(),
            r is Err ==> *final(self) == *old(self),
            !old(self).running() ==> r == Err::<(), CraftingError>(CraftingError::ContractPaused),
            old(self).running() && old(self).account(sender_id@) is None ==> r == Err::<(), CraftingError>(
                CraftingError::AccountNotRegistered,
            ),
            old(self).running() && (old(self).account(sender_id@) matches Some(b) && exists|j: int|
                0 <= j < token_ids@.len() && b.balances().contains_key((#[trigger] token_ids@[j])@)
                    && b.balances()[token_ids@[j]@] != 0) ==> r == Err::<(), CraftingError>(
                CraftingError::NonZeroTokenBalance,
            ),
            r is Ok ==> (final(self).account(sender_id@) matches Some(a) && old(self).account(sender_id@) matches Some(b)
                && a.balances() == b.balances().remove_keys(
                    Set::new(|k: Seq<char>| exists|j: int| 0 <= j < token_ids@.len() && (#[trigger] token_ids@[j])@ == k),
                )),
            r is Ok ==> Contract::only_account_changed(*old(self), *final(self), sender_id@),
    {
        self.assert_contract_running()?;
        let mut account = self.internal_unwrap_account(sender_id)?;
        let ghost b = account;
        assert(account.balances() =~= b.balances().remove_keys(
            Set::new(|k: Seq<char>| exists|j: int| 0 <= j < 0 && (#[trigger] token_ids@[j])@ == k),
        ));
        let mut i: usize = 0;
        while i < token_ids.len()
            invariant
                *self == *old(self),
                self.wf(),
                old(self).running(),
                old(self).account(sender_id@) is Some,
                b.balances() == old(self).account(sender_id@)->0.balances(),
                account.wf(),
                b.wf(),
                i <= token_ids@.len(),
                account.near_amount == b.near_amount,
                account.entries().len() <= b.entries().len(),
                forall|j: int|
                    0 <= j < i ==> !(b.balances().contains_key((#[trigger] token_ids@[j])@)
                        && b.balances()[token_ids@[j]@] != 0),
                account.balances() == b.balances().remove_keys(
                    Set::new(|k: Seq<char>| exists|j: int| 0 <= j < i && (#[trigger] token_ids@[j])@ == k),
                ),
            decreases token_ids@.len() - i,
        {
            let ghost before = account.balances();
            let t = &token_ids[i];
            match account.unregister(t) {
                Ok(()) => {},
                Err(e) => {
                    assert(b.balances().contains_key(t@) && b.balances()[t@] != 0) by {
                        let s0 = Set::new(|k: Seq<char>| exists|j: int| 0 <= j < i && (#[trigger] token_ids@[j])@ == k);
                        if s0.contains(t@) {
                            assert(!before.contains_key(t@));
                        }
                    }
                    return Err(e);
                },
            }
            let ghost s0 = Set::new(|k: Seq<char>| exists|j: int| 0 <= j < i && (#[trigger] token_ids@[j])@ == k);
            let ghost s1 = Set::new(|k: Seq<char>| exists|j: int| 0 <= j < i + 1 && (#[trigger] token_ids@[j])@ == k);
            assert(s1 =~= s0.insert(t@)) by {
                assert forall|k: Seq<char>| s1.contains(k) == s0.insert(t@).contains(k) by {
                    if s1.contains(k) {
                        let j = choose|j: int| 0 <= j < i + 1 && (#[trigger] token_ids@[j])@ == k;
                        if j < i {
                            assert(s0.contains(k));
                        }
                    }
                    if k == t@ {
                        assert(token_ids@[i as int]@ == k);
                    }
                    if s0.contains(k) {
                        let j = choose|j: int| 0 <= j < i && (#[trigger] token_ids@[j])@ == k;
                        assert(0 <= j < i + 1);
                    }
                }
            }
            assert(account.balances() =~= b.balances().remove_keys(s1));
            i = i + 1;
        }
        proof {
            assert(crate::account::storage_cost(account.entries().len()) <= crate::account::storage_cost(b.entries().len())) by (nonlinear_arith)
                requires
                    account.entries().len() <= b.entries().len(),
            ;
        }
        self.internal_save_account(sender_id, account)
    }
}

} // verus!
