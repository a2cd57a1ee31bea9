//! Owner administration: ownership, running state, governance parameters and
//! the asset registries.

use vstd::prelude::*;
use crate::contract::{Asset, Contract, RunningState};
use crate::errors::CraftingError;
use crate::table::{AccountId, has_id, has_key, insert_id, lemma_upsert, put, remove_id};
use crate::utils::FEE_DIVISOR;

verus! {

impl Contract {
    /// `new` differs from `old` only in its governance fields.
    pub open spec fn ledgers_kept(old: Contract, new: Contract) -> bool {
        &&& new.accounts == old.accounts
        &&& new.collaterals == old.collaterals
        &&& new.user_collaterals == old.user_collaterals
        &&& new.debt_pool == old.debt_pool
        &&& new.account_book == old.account_book
        &&& new.price_oracle == old.price_oracle
    }

    /// Hands the contract to `owner_id`.
    pub fn set_owner(&mut self, caller: &AccountId, owner_id: AccountId) -> (r: Result<(), CraftingError>)
        requires
            old(self).wf(),
        ensures
            final(self).wf(),
            r == old(self).assert_owner_spec(caller@),
            r is Ok ==> final(self).owner_id == owner_id && Contract::ledgers_kept(*old(self), *final(self)),
            r is Err ==> *final(self) == *old(self),
    {
        self.assert_owner(caller)?;
        self.owner_id = owner_id;
        Ok(())
    }

    /// The answer of `assert_owner` for `caller`.
    pub open spec fn assert_owner_spec(&self, caller: Seq<char>) -> Result<(), CraftingError> {
        if caller == self.owner_id@ {
            Ok(())
        } else {
            Err(CraftingError::Unauthorized)
        }
    }

    /// Sets the running state; answers whether it changed.
    pub fn change_state(&mut self, caller: &AccountId, state: RunningState) -> (r: Result<bool, CraftingError>)
        requires
            old(self).wf(),
        ensures
            final(self).wf(),
            r is Err ==> r == Err::<bool, CraftingError>(CraftingError::Unauthorized) && caller@
                != old(self).owner_id@ && *final(self) == *old(self),
            r is Ok ==> caller@ == old(self).owner_id@ && final(self).state == state && r == Ok::<
                bool,
                CraftingError,
            >(old(self).state != state) && Contract::ledgers_kept(*old(self), *final(self)),
    {
        self.assert_owner(caller)?;
        if self.state != state {
            self.state = state;
            Ok(true)
        } else {
            Ok(false)
        }
    }

    /// Sets the leverage band of pooled mints: its least value at least 1,
    /// its greatest at most 100.
    pub fn set_leverage_ratio(&mut self, caller: &AccountId, leverage_ratio: (u8, u8)) -> (r: Result<
        (),
        CraftingError,
    >)
        requires
            old(self).wf(),
        ensures
            final(self).wf(),
            r == if caller@ != old(self).owner_id@ {
                Err(CraftingError::Unauthorized)
            } else if leverage_ratio.0 < 1 || leverage_ratio.1 > 100 {
                Err(CraftingError::InvalidLeverageRatio)
            } else {
                Ok::<(), CraftingError>(())
            },
            r is Ok ==> final(self).leverage_ratio == leverage_ratio && Contract::ledgers_kept(*old(self), *final(self)),
            r is Err ==> *final(self) == *old(self),
    {
        self.assert_owner(caller)?;
        let (min, max) = leverage_ratio;
        if min < 1 || max > 100 {
            return Err(CraftingError::InvalidLeverageRatio);
        }
        self.leverage_ratio = leverage_ratio;
        Ok(())
    }

    /// Sets the interest fee, at most `FEE_DIVISOR` thousandths.
    pub fn set_interest_fee(&mut self, caller: &AccountId, interest_fee: u32) -> (r: Result<(), CraftingError>)
        requires
            old(self).wf(),
        ensures
            final(self).wf(),
            r == if caller@ != old(self).owner_id@ {
                Err(CraftingError::Unauthorized)
            } else if interest_fee > FEE_DIVISOR {
                Err(CraftingError::IllegalFee)
            } else {
                Ok::<(), CraftingError>(())
            },
            r is Ok ==> final(self).interest_fee == interest_fee && Contract::ledgers_kept(*old(self), *final(self)),
            r is Err ==> *final(self) == *old(self),
    {
        self.assert_owner(caller)?;
        if interest_fee > FEE_DIVISOR {
            return Err(CraftingError::IllegalFee);
        }
        self.interest_fee = interest_fee;
        Ok(())
    }

    /// Sets the exchange fee, at most `FEE_DIVISOR` thousandths.
    pub fn set_exchange_fee(&mut self, caller: &AccountId, exchange_fee: u32) -> (r: Result<(), CraftingError>)
        requires
            old(self).wf(),
        ensures
            final(self).wf(),
            r == if caller@ != old(self).owner_id@ {
                Err(CraftingError::Unauthorized)
            } else if exchange_fee > FEE_DIVISOR {
                Err(CraftingError::IllegalFee)
            } else {
                Ok::<(), CraftingError>(())
            },
            r is Ok ==> final(self).exchange_fee == exchange_fee && Contract::ledgers_kept(*old(self), *final(self)),
            r is Err ==> *final(self) == *old(self),
    {
        self.assert_owner(caller)?;
        if exchange_fee > FEE_DIVISOR {
            return Err(CraftingError::IllegalFee);
        }
        self.exchange_fee = exchange_fee;
        Ok(())
    }

    /// Whitelists each of `tokens` that is registered; others are skipped.
    pub fn add_whitelisted_tokens(&mut self, caller: &AccountId, tokens: &Vec<AccountId>) -> (r: Result<
        (),
        CraftingError,
    >)
        requires
            old(self).wf(),
        ensures
            final(self).wf(),
            r == old(self).assert_owner_spec(caller@),
            r is Err ==> *final(self) == *old(self),
            r is Ok ==> Contract::ledgers_kept(*old(self), *final(self)),
            r is Ok ==> forall|q: Seq<char>| #[trigger]
                has_id(final(self).whitelisted_tokens@, q) == (has_id(old(self).whitelisted_tokens@, q)
                    || (has_key(old(self).token_list@, q) && exists|j: int|
                    0 <= j < tokens@.len() && (#[trigger] tokens@[j])@ == q)),
    {
        self.assert_owner(caller)?;
        let ghost w0 = self.whitelisted_tokens@;
        let mut i: usize = 0;
        while i < tokens.len()
            invariant
                self.wf(),
                Contract::ledgers_kept(*old(self), *self),
                self.token_list == old(self).token_list,
                self.owner_id == old(self).owner_id,
                i <= tokens@.len(),
                forall|q: Seq<char>| #[trigger]
                    has_id(self.whitelisted_tokens@, q) == (has_id(w0, q) || (has_key(self.token_list@, q)
                        && exists|j: int| 0 <= j < i && (#[trigger] tokens@[j])@ == q)),
            decreases tokens@.len() - i,
        {
            let t = &tokens[i];
            if self.query_token(t).is_some() {
                insert_id(&mut self.whitelisted_tokens, t);
            }
            assert forall|q: Seq<char>| #[trigger]
                has_id(self.whitelisted_tokens@, q) == (has_id(w0, q) || (has_key(self.token_list@, q)
                    && exists|j: int| 0 <= j < i + 1 && (#[trigger] tokens@[j])@ == q)) by {
                if q == tokens@[i as int]@ {
                    assert(tokens@[i as int]@ == q);
                }
                if exists|j: int| 0 <= j < i + 1 && (#[trigger] tokens@[j])@ == q {
                    let j = choose|j: int| 0 <= j < i + 1 && (#[trigger] tokens@[j])@ == q;
                    if j < i {
                        assert(exists|j: int| 0 <= j < i && (#[trigger] tokens@[j])@ == q);
                    }
                }
            }
            i = i + 1;
        }
        Ok(())
    }

    /// Takes each of `tokens` off the whitelist.
    pub fn remove_whitelisted_tokens(&mut self, caller: &AccountId, tokens: &Vec<AccountId>) -> (r: Result<
        (),
        CraftingError,
    >)
        requires
            old(self).wf(),
        ensures
            final(self).wf(),
            r == old(self).assert_owner_spec(caller@),
            r is Err ==> *final(self) == *old(self),
            r is Ok ==> Contract::ledgers_kept(*old(self), *final(self)),
            r is Ok ==> forall|q: Seq<char>| #[trigger]
                has_id(final(self).whitelisted_tokens@, q) == (has_id(old(self).whitelisted_tokens@, q)
                    && !exists|j: int| 0 <= j < tokens@.len() && (#[trigger] tokens@[j])@ == q),
    {
        self.assert_owner(caller)?;
        let ghost w0 = self.whitelisted_tokens@;
        let mut i: usize = 0;
        while i < tokens.len()
            invariant
                self.wf(),
                Contract::ledgers_kept(*old(self), *self),
                i <= tokens@.len(),
                forall|q: Seq<char>| #[trigger]
                    has_id(self.whitelisted_tokens@, q) == (has_id(w0, q) && !exists|j: int|
                        0 <= j < i && (#[trigger] tokens@[j])@ == q),
            decreases tokens@.len() - i,
        {
            remove_id(&mut self.whitelisted_tokens, &tokens[i]);
            assert forall|q: Seq<char>| #[trigger]
                has_id(self.whitelisted_tokens@, q) == (has_id(w0, q) && !exists|j: int|
                    0 <= j < i + 1 && (#[trigger] tokens@[j])@ == q) by {
                if q == tokens@[i as int]@ {
                    assert(tokens@[i as int]@ == q);
                }
                if exists|j: int| 0 <= j < i + 1 && (#[trigger] tokens@[j])@ == q {
                    let j = choose|j: int| 0 <= j < i + 1 && (#[trigger] tokens@[j])@ == q;
                    if j < i {
                        assert(exists|j: int| 0 <= j < i && (#[trigger] tokens@[j])@ == q);
                    }
                }
            }
            i = i + 1;
        }
        Ok(())
    }

    /// Registers (or replaces) the collateral token at `address`.
    pub fn add_token_list(
        &mut self,
        caller: &AccountId,
        name: String,
        symbol: String,
        standard: String,
        decimals: u32,
        address: AccountId,
        feed_address: AccountId,
        collateral_ratio: u128,
        state: u8,
    ) -> (r: Result<(), CraftingError>)
        requires
            old(self).wf(),
        ensures
            final(self).wf(),
            r == old(self).assert_owner_spec(caller@),
            r is Err ==> *final(self) == *old(self),
            r is Ok ==> Contract::ledgers_kept(*old(self), *final(self)),
            r is Ok ==> final(self).token_asset(address@) == Some(
                Asset { name, symbol, standard, decimals, address, feed_address, collateral_ratio, state },
            ),
            r is Ok ==> forall|q: Seq<char>| q != address@ ==> #[trigger] final(self).token_asset(q) == old(self).token_asset(q),
            r is Ok ==> final(self).whitelisted_tokens == old(self).whitelisted_tokens && final(self).whitelisted_rafts
                == old(self).whitelisted_rafts && final(self).raft_list == old(self).raft_list && final(self).owner_id
                == old(self).owner_id && final(self).state == old(self).state,
    {
        self.assert_owner(caller)?;
        let asset = Asset {
            name,
            symbol,
            standard,
            decimals,
            address: address.clone(),
            feed_address,
            collateral_ratio,
            state,
        };
        proof {
            lemma_upsert(self.token_list@, address, asset);
        }
        put(&mut self.token_list, &address, asset);
        Ok(())
    }

    /// Whitelists each of `rafts` that is registered; others are skipped.
    pub fn add_whitelisted_rafts(&mut self, caller: &AccountId, rafts: &Vec<AccountId>) -> (r: Result<
        (),
        CraftingError,
    >)
        requires
            old(self).wf(),
        ensures
            final(self).wf(),
            r == old(self).assert_owner_spec(caller@),
            r is Err ==> *final(self) == *old(self),
            r is Ok ==> Contract::ledgers_kept(*old(self), *final(self)),
            r is Ok ==> forall|q: Seq<char>| #[trigger]
                has_id(final(self).whitelisted_rafts@, q) == (has_id(old(self).whitelisted_rafts@, q)
                    || (has_key(old(self).raft_list@, q) && exists|j: int|
                    0 <= j < rafts@.len() && (#[trigger] rafts@[j])@ == q)),
    {
        self.assert_owner(caller)?;
        let ghost w0 = self.whitelisted_rafts@;
        let mut i: usize = 0;
        while i < rafts.len()
            invariant
                self.wf(),
                Contract::ledgers_kept(*old(self), *self),
                self.raft_list == old(self).raft_list,
                i <= rafts@.len(),
                forall|q: Seq<char>| #[trigger]
                    has_id(self.whitelisted_rafts@, q) == (has_id(w0, q) || (has_key(self.raft_list@, q)
                        && exists|j: int| 0 <= j < i && (#[trigger] rafts@[j])@ == q)),
            decreases rafts@.len() - i,
        {
            let t = &rafts[i];
            if self.query_raft(t).is_some() {
                insert_id(&mut self.whitelisted_rafts, t);
            }
            assert forall|q: Seq<char>| #[trigger]
                has_id(self.whitelisted_rafts@, q) == (has_id(w0, q) || (has_key(self.raft_list@, q)
                    && exists|j: int| 0 <= j < i + 1 && (#[trigger] rafts@[j])@ == q)) by {
                if q == rafts@[i as int]@ {
                    assert(rafts@[i as int]@ == q);
                }
                if exists|j: int| 0 <= j < i + 1 && (#[trigger] rafts@[j])@ == q {
                    let j = choose|j: int| 0 <= j < i + 1 && (#[trigger] rafts@[j])@ == q;
                    if j < i {
                        assert(exists|j: int| 0 <= j < i && (#[trigger] rafts@[j])@ == q);
                    }
                }
            }
            i = i + 1;
        }
        Ok(())
    }

    /// Takes each of `rafts` off the whitelist.
    pub fn remove_whitelisted_rafts(&mut self, caller: &AccountId, rafts: &Vec<AccountId>) -> (r: Result<
        (),
        CraftingError,
    >)
        requires
            old(self).wf(),
        ensures
            final(self).wf(),
            r == old(self).assert_owner_spec(caller@),
            r is Err ==> *final(self) == *old(self),
            r is Ok ==> Contract::ledgers_kept(*old(self), *final(self)),
            r is Ok ==> forall|q: Seq<char>| #[trigger]
                has_id(final(self).whitelisted_rafts@, q) == (has_id(old(self).whitelisted_rafts@, q)
                    && !exists|j: int| 0 <= j < rafts@.len() && (#[trigger] rafts@[j])@ == q),
    {
        self.assert_owner(caller)?;
        let ghost w0 = self.whitelisted_rafts@;
        let mut i: usize = 0;
        while i < rafts.len()
            invariant
                self.wf(),
                Contract::ledgers_kept(*old(self), *self),
                i <= rafts@.len(),
                forall|q: Seq<char>| #[trigger]
                    has_id(self.whitelisted_rafts@, q) == (has_id(w0, q) && !exists|j: int|
                        0 <= j < i && (#[trigger] rafts@[j])@ == q),
            decreases rafts@.len() - i,
        {
            remove_id(&mut self.whitelisted_rafts, &rafts[i]);
            assert forall|q: Seq<char>| #[trigger]
                has_id(self.whitelisted_rafts@, q) == (has_id(w0, q) && !exists|j: int|
                    0 <= j < i + 1 && (#[trigger] rafts@[j])@ == q) by {
                if q == rafts@[i as int]@ {
                    assert(rafts@[i as int]@ == q);
                }
                if exists|j: int| 0 <= j < i + 1 && (#[trigger] rafts@[j])@ == q {
                    let j = choose|j: int| 0 <= j < i + 1 && (#[trigger] rafts@[j])@ == q;
                    if j < i {
                        assert(exists|j: int| 0 <= j < i && (#[trigger] rafts@[j])@ == q);
                    }
                }
            }
            i = i + 1;
        }
        Ok(())
    }

    /// Registers (or replaces) the synthetic asset at `address`, with no
    /// collateral ratio of its own.
    pub fn add_raft_list(
        &mut self,
        caller: &AccountId,
        name: String,
        symbol: String,
        standard: String,
        decimals: u32,
        address: AccountId,
        feed_address: AccountId,
        state: u8,
    ) -> (r: Result<(), CraftingError>)
        requires
            old(self).wf(),
        ensures
            final(self).wf(),
            r == old(self).assert_owner_spec(caller@),
            r is Err ==> *final(self) == *old(self),
            r is Ok ==> Contract::ledgers_kept(*old(self), *final(self)),
            r is Ok ==> final(self).raft_asset(address@) == Some(
                Asset { name, symbol, standard, decimals, address, feed_address, collateral_ratio: 0, state },
            ),
            r is Ok ==> forall|q: Seq<char>| q != address@ ==> #[trigger] final(self).raft_asset(q) == old(self).raft_asset(q),
            r is Ok ==> final(self).whitelisted_tokens == old(self).whitelisted_tokens && final(self).whitelisted_rafts
                == old(self).whitelisted_rafts && final(self).token_list == old(self).token_list && final(self).owner_id
                == old(self).owner_id && final(self).state == old(self).state,
    {
        self.assert_owner(caller)?;
        let asset = Asset {
            name,
            symbol,
            standard,
            decimals,
            address: address.clone(),
            feed_address,
            collateral_ratio: 0,
            state,
        };
        proof {
            lemma_upsert(self.raft_list@, address, asset);
        }
        put(&mut self.raft_list, &address, asset);
        Ok(())
    }

    /// Sets the oracle's price of `asset`; only the owner feeds prices.
    pub fn feed_price(&mut self, caller: &AccountId, asset: AccountId, price: u128) -> (r: Result<(), CraftingError>)
        requires
            old(self).wf(),
        ensures
            final(self).wf(),
            r == old(self).assert_owner_spec(caller@),
            r is Err ==> *final(self) == *old(self),
            r is Ok ==> final(self).price_oracle@ == old(self).price_oracle@.insert(asset@, price),
            r is Ok ==> final(self).debt_pool == old(self).debt_pool && final(self).account_book == old(self).account_book,
    {
        self.assert_owner(caller)?;
        self.price_oracle.feed_price(asset, price);
        Ok(())
    }
}

} // verus!
