//! Read-only queries of the exchange's state.

use vstd::prelude::*;
use crate::contract::{ids_of, Asset, Collateral, CollateralId, Contract};
use crate::debtpool::{
    held_value, owed_value, total_value, user_priced, user_value, all_priced, WrappedBalance,
};
use crate::errors::CraftingError;
use crate::table::{AccountId, value_of};
use crate::utils::RATIO_DIVISOR;

verus! {

/// The records that `ids` point at, skipping indices past the end.
pub open spec fn records(collaterals: Seq<Collateral>, ids: Seq<u64>) -> Seq<Collateral>
    decreases ids.len(),
{
    if ids.len() == 0 {
        Seq::empty()
    } else {
        let id = ids.last();
        records(collaterals, ids.drop_last()) + if id < collaterals.len() {
            seq![collaterals[id as int]]
        } else {
            Seq::empty()
        }
    }
}

/// The assets of `list` registered under `ids`, in the order of `ids`.
pub open spec fn registered_assets(list: Seq<(String, Asset)>, ids: Seq<String>) -> Seq<Asset>
    decreases ids.len(),
{
    if ids.len() == 0 {
        Seq::empty()
    } else {
        registered_assets(list, ids.drop_last()) + match value_of(list, ids.last()@) {
            Some(a) => seq![a],
            None => Seq::empty(),
        }
    }
}

impl Contract {
    pub fn get_token(&self, token_id: &AccountId) -> (r: Option<Asset>)
        requires
            self.wf(),
        ensures
            r == self.token_asset(token_id@),
    {
        self.query_token(token_id)
    }

    pub fn get_raft(&self, raft_id: &AccountId) -> (r: Option<Asset>)
        requires
            self.wf(),
        ensures
            r == self.raft_asset(raft_id@),
    {
        self.query_raft(raft_id)
    }

    /// The registered assets of `ids`, in order, skipping unregistered ones.
    fn assets_of(&self, ids: &Vec<AccountId>, rafts: bool) -> (r: Vec<Asset>)
        requires
            self.wf(),
        ensures
            r@ == registered_assets(if rafts { self.raft_list@ } else { self.token_list@ }, ids@),
    {
        let ghost list = if rafts { self.raft_list@ } else { self.token_list@ };
        let mut out: Vec<Asset> = Vec::new();
        let mut i: usize = 0;
        while i < ids.len()
            invariant
                self.wf(),
                list == if rafts { self.raft_list@ } else { self.token_list@ },
                i <= ids@.len(),
                out@ == registered_assets(list, ids@.subrange(0, i as int)),
            decreases ids@.len() - i,
        {
            assert(ids@.subrange(0, i + 1).drop_last() =~= ids@.subrange(0, i as int));
            let asset = if rafts {
                self.query_raft(&ids[i])
            } else {
                self.query_token(&ids[i])
            };
            match asset {
                Some(a) => {
                    out.push(a);
                },
                None => {},
            }
            assert(out@ =~= registered_assets(list, ids@.subrange(0, i + 1)));
            i = i + 1;
        }
        assert(ids@.subrange(0, ids@.len() as int) =~= ids@);
        out
    }

    /// The whitelisted collateral tokens that are registered.
    pub fn whitelisted_tokens(&self) -> (r: Vec<Asset>)
        requires
            self.wf(),
        ensures
            r@ == registered_assets(self.token_list@, self.whitelisted_tokens@),
    {
        self.assets_of(&self.whitelisted_tokens, false)
    }

    /// The whitelisted synthetic assets that are registered.
    pub fn whitelisted_rafts(&self) -> (r: Vec<Asset>)
        requires
            self.wf(),
        ensures
            r@ == registered_assets(self.raft_list@, self.whitelisted_rafts@),
    {
        self.assets_of(&self.whitelisted_rafts, true)
    }

    pub fn collateral_count(&self) -> (r: u64)
        requires
            self.collaterals@.len() <= u64::MAX,
        ensures
            r == self.collaterals@.len(),
    {
        self.collaterals.len() as u64
    }

    pub fn get_collateral(&self, collateral_id: CollateralId) -> (r: Option<Collateral>)
        ensures
            r == if collateral_id < self.collaterals@.len() {
                Some(self.collaterals@[collateral_id as int])
            } else {
                None::<Collateral>
            },
    {
        self.query_collateral(collateral_id)
    }

    /// `user`'s collateral records, in order of minting; only the owner and
    /// `user` may read them.
    pub fn user_collaterals(&self, caller: &AccountId, user: &AccountId) -> (r: Result<
        Vec<Collateral>,
        CraftingError,
    >)
        ensures
            match r {
                Ok(v) => (caller@ == self.owner_id@ || caller@ == user@) && v@ == records(
                    self.collaterals@,
                    ids_of(self.user_collaterals@, user@),
                ),
                Err(e) => e == CraftingError::NoPermission && caller@ != self.owner_id@ && caller@
                    != user@,
            },
    {
        self.assert_query_authority(caller, user)?;
        let ids = self.query_user_collateral_ids(user);
        let mut out: Vec<Collateral> = Vec::new();
        let mut k: usize = 0;
        while k < ids.len()
            invariant
                k <= ids@.len(),
                out@ == records(self.collaterals@, ids@.subrange(0, k as int)),
            decreases ids@.len() - k,
        {
            assert(ids@.subrange(0, k + 1).drop_last() =~= ids@.subrange(0, k as int));
            match self.query_collateral(ids[k]) {
                Some(c) => {
                    out.push(c);
                },
                None => {},
            }
            assert(out@ =~= records(self.collaterals@, ids@.subrange(0, k + 1)));
            k = k + 1;
        }
        assert(ids@.subrange(0, ids@.len() as int) =~= ids@);
        Ok(out)
    }

    /// The pool's net position of `raft_id`.
    pub fn debtpool_raft_amount(&self, raft_id: &AccountId) -> (r: WrappedBalance)
        requires
            self.wf(),
        ensures
            r.value() == self.debt_pool.position(raft_id@),
    {
        self.debt_pool.query_raft_amount(raft_id)
    }

    /// The pool's net position of `raft_id` and the value of its magnitude.
    pub fn debtpool_raft_value(&self, raft_id: &AccountId) -> (r: Result<(WrappedBalance, u128), CraftingError>)
        requires
            self.wf(),
        ensures
            match r {
                Ok((w, v)) => w.value() == self.debt_pool.position(raft_id@) && self.price_oracle@.contains_key(raft_id@)
                    && v == self.price_oracle@[raft_id@] * w.amount,
                Err(e) => e == CraftingError::PriceNotFound && !self.price_oracle@.contains_key(raft_id@)
                    || e == CraftingError::Overflow,
            },
    {
        let w = self.debt_pool.query_raft_amount(raft_id);
        let v = self.debt_pool.calc_raft_value(&self.price_oracle, raft_id, w.amount)?;
        Ok((w, v))
    }

    /// The pool's signed total value.
    pub fn debtpool_raft_total_value(&self) -> (r: Result<WrappedBalance, CraftingError>)
        requires
            self.wf(),
        ensures
            r == if !all_priced(self.debt_pool.positions(), self.price_oracle@) {
                Err(CraftingError::PriceNotFound)
            } else if held_value(self.debt_pool.positions(), self.price_oracle@) > u128::MAX || owed_value(
                self.debt_pool.positions(),
                self.price_oracle@,
            ) > u128::MAX {
                Err(CraftingError::Overflow)
            } else {
                Ok::<WrappedBalance, CraftingError>(
                    WrappedBalance::from_value(total_value(self.debt_pool.positions(), self.price_oracle@)),
                )
            },
    {
        self.debt_pool.calc_raft_total_value(&self.price_oracle)
    }

    /// What `user` contributed of `raft_id`; only the owner and `user` may
    /// read it.
    pub fn debtpool_user_raft_amount(&self, caller: &AccountId, user: &AccountId, raft_id: &AccountId) -> (r:
        Result<u128, CraftingError>)
        requires
            self.wf(),
        ensures
            r == if caller@ == self.owner_id@ || caller@ == user@ {
                Ok::<u128, CraftingError>(self.debt_pool.contribution(user@, raft_id@))
            } else {
                Err(CraftingError::NoPermission)
            },
    {
        self.assert_query_authority(caller, user)?;
        Ok(self.debt_pool.query_user_raft_amount(user, raft_id))
    }

    /// What `user` contributed of `raft_id` and its value.
    pub fn debtpool_user_raft_value(&self, caller: &AccountId, user: &AccountId, raft_id: &AccountId) -> (r:
        Result<(u128, u128), CraftingError>)
        requires
            self.wf(),
        ensures
            match r {
                Ok((a, v)) => a == self.debt_pool.contribution(user@, raft_id@) && v
                    == self.price_oracle@[raft_id@] * a && self.price_oracle@.contains_key(raft_id@),
                Err(e) => e == CraftingError::NoPermission || e == CraftingError::PriceNotFound || e
                    == CraftingError::Overflow,
            },
    {
        let amount = self.debtpool_user_raft_amount(caller, user, raft_id)?;
        let value = self.debt_pool.calc_raft_value(&self.price_oracle, raft_id, amount)?;
        Ok((amount, value))
    }

    /// The value of `user`'s pool contributions.
    pub fn debtpool_user_raft_total_value(&self, caller: &AccountId, user: &AccountId) -> (r: Result<
        u128,
        CraftingError,
    >)
        requires
            self.wf(),
        ensures
            r == if caller@ != self.owner_id@ && caller@ != user@ {
                Err(CraftingError::NoPermission)
            } else if !user_priced(self.debt_pool.positions(), self.debt_pool.rows(), user@, self.price_oracle@) {
                Err(CraftingError::PriceNotFound)
            } else if user_value(self.debt_pool.positions(), self.debt_pool.rows(), user@, self.price_oracle@) > u128::MAX {
                Err(CraftingError::Overflow)
            } else {
                Ok::<u128, CraftingError>(
                    user_value(self.debt_pool.positions(), self.debt_pool.rows(), user@, self.price_oracle@) as u128,
                )
            },
    {
        self.assert_query_authority(caller, user)?;
        self.debt_pool.calc_user_raft_total_value(&self.price_oracle, user)
    }

    /// What `user`'s contributions are worth beyond their debt: positive is
    /// a gain.
    pub fn debtpool_user_profit(&self, caller: &AccountId, user: &AccountId) -> (r: Result<i128, CraftingError>)
        requires
            self.wf(),
        ensures
            r matches Ok(p) ==> p == user_value(
                self.debt_pool.positions(),
                self.debt_pool.rows(),
                user@,
                self.price_oracle@,
            ) - self.pool_debt(user@),
            caller@ != self.owner_id@ && caller@ != user@ ==> r == Err::<i128, CraftingError>(
                CraftingError::NoPermission,
            ),
    {
        let value = self.debtpool_user_raft_total_value(caller, user)?;
        let total = self.debt_pool.calc_raft_total_value(&self.price_oracle)?;
        proof {
            crate::debtpool::lemma_total_parts(self.debt_pool.positions(), self.price_oracle@);
        }
        if !total.is_positive {
            return Err(CraftingError::InvalidTotalValue);
        }
        let ratio = self.debt_pool.query_debt_ratio(user);
        let debt = match total.amount.checked_mul(ratio) {
            Some(v) => v / RATIO_DIVISOR,
            None => {
                return Err(CraftingError::Overflow);
            },
        };
        if value >= debt {
            let gain = value - debt;
            if gain > i128::MAX as u128 {
                return Err(CraftingError::Overflow);
            }
            Ok(gain as i128)
        } else {
            let loss = debt - value;
            if loss > i128::MAX as u128 {
                return Err(CraftingError::Overflow);
            }
            Ok(-(loss as i128))
        }
    }

    /// The debt ratio of `user`; only the owner and `user` may read it.
    pub fn debtpool_debt_ratio(&self, caller: &AccountId, user: &AccountId) -> (r: Result<u128, CraftingError>)
        requires
            self.wf(),
        ensures
            r == if caller@ == self.owner_id@ || caller@ == user@ {
                Ok::<u128, CraftingError>(self.debt_pool.ratio(user@))
            } else {
                Err(CraftingError::NoPermission)
            },
    {
        self.assert_query_authority(caller, user)?;
        Ok(self.debt_pool.query_debt_ratio(user))
    }

    /// The book's total of `raft_id`.
    pub fn accountbook_raft_amount(&self, raft_id: &AccountId) -> (r: u128)
        requires
            self.wf(),
        ensures
            r == self.account_book.total(raft_id@),
    {
        self.account_book.query_raft_amount(raft_id)
    }

    /// The book's total of `raft_id` and its value.
    pub fn accountbook_raft_value(&self, raft_id: &AccountId) -> (r: Result<(u128, u128), CraftingError>)
        requires
            self.wf(),
        ensures
            match r {
                Ok((a, v)) => a == self.account_book.total(raft_id@) && self.price_oracle@.contains_key(raft_id@)
                    && v == self.price_oracle@[raft_id@] * a,
                Err(e) => e == CraftingError::PriceNotFound && !self.price_oracle@.contains_key(raft_id@)
                    || e == CraftingError::Overflow,
            },
    {
        let amount = self.account_book.query_raft_amount(raft_id);
        let value = self.account_book.calc_raft_value(&self.price_oracle, raft_id, amount)?;
        Ok((amount, value))
    }

    /// The value of everything in the book.
    pub fn accountbook_raft_total_value(&self) -> (r: Result<u128, CraftingError>)
        requires
            self.wf(),
        ensures
            r == if !crate::accountbook::book_priced(self.account_book.totals(), self.price_oracle@) {
                Err(CraftingError::PriceNotFound)
            } else if crate::accountbook::book_value(self.account_book.totals(), self.price_oracle@) > u128::MAX {
                Err(CraftingError::Overflow)
            } else {
                Ok::<u128, CraftingError>(
                    crate::accountbook::book_value(self.account_book.totals(), self.price_oracle@) as u128,
                )
            },
    {
        self.account_book.calc_raft_total_value(&self.price_oracle)
    }

    /// What `user` holds of `raft_id` in the book; only the owner and
    /// `user` may read it.
    pub fn accountbook_user_raft_amount(&self, caller: &AccountId, user: &AccountId, raft_id: &AccountId) -> (r:
        Result<u128, CraftingError>)
        requires
            self.wf(),
        ensures
            r == if caller@ == self.owner_id@ || caller@ == user@ {
                Ok::<u128, CraftingError>(self.account_book.balance(user@, raft_id@))
            } else {
                Err(CraftingError::NoPermission)
            },
    {
        self.assert_query_authority(caller, user)?;
        Ok(self.account_book.query_user_raft_amount(user, raft_id))
    }

    /// What `user` holds of `raft_id` in the book and its value.
    pub fn accountbook_user_raft_value(&self, caller: &AccountId, user: &AccountId, raft_id: &AccountId) -> (r:
        Result<(u128, u128), CraftingError>)
        requires
            self.wf(),
        ensures
            match r {
                Ok((a, v)) => a == self.account_book.balance(user@, raft_id@) && v
                    == self.price_oracle@[raft_id@] * a && self.price_oracle@.contains_key(raft_id@),
                Err(e) => e == CraftingError::NoPermission || e == CraftingError::PriceNotFound || e
                    == CraftingError::Overflow,
            },
    {
        let amount = self.accountbook_user_raft_amount(caller, user, raft_id)?;
        let value = self.account_book.calc_raft_value(&self.price_oracle, raft_id, amount)?;
        Ok((amount, value))
    }

    /// The value of what `user` holds in the book.
    pub fn accountbook_user_raft_total_value(&self, caller: &AccountId, user: &AccountId) -> (r: Result<
        u128,
        CraftingError,
    >)
        requires
            self.wf(),
        ensures
            r == if caller@ != self.owner_id@ && caller@ != user@ {
                Err(CraftingError::NoPermission)
            } else if !crate::accountbook::book_user_priced(self.account_book.totals(), self.account_book.rows(), user@, self.price_oracle@) {
                Err(CraftingError::PriceNotFound)
            } else if crate::accountbook::book_user_value(self.account_book.totals(), self.account_book.rows(), user@, self.price_oracle@) > u128::MAX {
                Err(CraftingError::Overflow)
            } else {
                Ok::<u128, CraftingError>(
                    crate::accountbook::book_user_value(self.account_book.totals(), self.account_book.rows(), user@, self.price_oracle@) as u128,
                )
            },
    {
        self.assert_query_authority(caller, user)?;
        self.account_book.calc_user_raft_total_value(&self.price_oracle, user)
    }

    /// The owner's account.
    pub fn contract_owner(&self) -> (r: AccountId)
        ensures
            r == self.owner_id,
    {
        self.owner_id.clone()
    }
}

} // verus!
