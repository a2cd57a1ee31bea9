//! Minting: a user locks collateral and mints a synthetic asset against it,
//! either into the shared pool or into the account book.

use vstd::prelude::*;
use crate::accountbook::AccountBook;
use crate::contract::{
    checked_pow10, pow10, Collateral, CollateralId, Contract, PromiseOutcome, COLLATERAL_OPEN,
};
use crate::debtpool::DebtPool;
use crate::errors::CraftingError;
use crate::table::{AccountId, has_id};

verus! {

/// `a * b * c`, where every partial product fits in a `u128`.
fn mul3(a: u128, b: u128, c: u128) -> (r: Option<u128>)
    requires
        c >= 1,
    ensures
        r == if a * b * c <= u128::MAX {
            Some((a * b * c) as u128)
        } else {
            None::<u128>
        },
{
    assert(a * b <= a * b * c) by (nonlinear_arith)
        requires
            c >= 1,
            a >= 0,
            b >= 0,
    ;
    match a.checked_mul(b) {
        Some(ab) => ab.checked_mul(c),
        None => None,
    }
}

/// `a * b * c * 100`, where it fits in a `u128`.
fn mul3_percent(a: u128, b: u128, c: u128) -> (r: Option<u128>)
    requires
        c >= 1,
    ensures
        r == if a * b * c * 100 <= u128::MAX {
            Some((a * b * c * 100) as u128)
        } else {
            None::<u128>
        },
{
    assert(a * b * c <= a * b * c * 100) by (nonlinear_arith)
        requires
            c >= 1,
            a >= 0,
            b >= 0,
    ;
    match mul3(a, b, c) {
        Some(abc) => abc.checked_mul(100),
        None => None,
    }
}

impl Contract {
    /// The numerator and denominator of a mint's ratio: for a pooled mint the
    /// leverage, minted value over collateral value; for an individual mint
    /// the collateral ratio in percent, collateral value over minted value.
    /// Each amount is scaled by ten to the other asset's decimals.
    pub open spec fn mint_ratio_parts(
        &self,
        token: Seq<char>,
        token_amount: u128,
        raft: Seq<char>,
        raft_amount: u128,
        join_debtpool: bool,
    ) -> (int, int) {
        let prices = self.price_oracle@;
        let token_value = prices[token] * token_amount * pow10(
            self.raft_asset(raft)->0.decimals as nat,
        );
        let raft_value = prices[raft] * raft_amount * pow10(
            self.token_asset(token)->0.decimals as nat,
        );
        if join_debtpool {
            (raft_value, token_value)
        } else {
            (token_value * 100, raft_value)
        }
    }

    /// Why the ledger step of a mint is refused, if it is.
    pub open spec fn mint_callback_error(
        &self,
        sender_id: Seq<char>,
        token: Seq<char>,
        token_amount: u128,
        raft: Seq<char>,
        raft_amount: u128,
        join_debtpool: bool,
        outcome: PromiseOutcome,
    ) -> Option<CraftingError> {
        let prices = self.price_oracle@;
        let parts = self.mint_ratio_parts(token, token_amount, raft, raft_amount, join_debtpool);
        let ratio = parts.0 / parts.1;
        if outcome == PromiseOutcome::Failed {
            Some(CraftingError::TransferFailed)
        } else if self.token_asset(token) is None || self.raft_asset(raft) is None {
            Some(CraftingError::AssetNotFound)
        } else if !prices.contains_key(token) || !prices.contains_key(raft) {
            Some(CraftingError::PriceNotFound)
        } else if pow10(self.token_asset(token)->0.decimals as nat) > u128::MAX || pow10(
            self.raft_asset(raft)->0.decimals as nat,
        ) > u128::MAX || parts.0 > u128::MAX || parts.1 > u128::MAX {
            Some(CraftingError::Overflow)
        } else if parts.1 == 0 {
            Some(CraftingError::ZeroValue)
        } else if join_debtpool && !(self.leverage_ratio.0 <= ratio <= self.leverage_ratio.1) {
            Some(CraftingError::LeverageOutOfRange)
        } else if !join_debtpool && ratio < self.raft_asset(raft)->0.collateral_ratio {
            Some(CraftingError::CollateralRatioTooLow)
        } else if join_debtpool {
            self.debt_pool.join_error(prices, sender_id, raft, raft_amount)
        } else if self.account_book.total(raft) + raft_amount > u128::MAX
            || self.account_book.balance(sender_id, raft) + raft_amount > u128::MAX {
            Some(CraftingError::Overflow)
        } else {
            None
        }
    }

    /// Checks a mint request before the collateral is transferred in.
    pub fn mint(
        &self,
        token: &AccountId,
        token_amount: u128,
        raft: &AccountId,
        raft_amount: u128,
        join_debtpool: bool,
    ) -> (r: Result<(), CraftingError>)
        ensures
            r == if !self.running() {
                Err(CraftingError::ContractPaused)
            } else if !has_id(self.whitelisted_tokens@, token@) {
                Err(CraftingError::TokenNotWhitelisted)
            } else if !has_id(self.whitelisted_rafts@, raft@) {
                Err(CraftingError::RaftNotWhitelisted)
            } else if token_amount == 0 {
                Err(CraftingError::NoAttachedDeposit)
            } else if raft_amount == 0 {
                Err(CraftingError::SyntheticAmountError)
            } else {
                Ok::<(), CraftingError>(())
            },
    {
        self.assert_contract_running()?;
        if !self.is_in_whitelisted_tokens(token) {
            return Err(CraftingError::TokenNotWhitelisted);
        }
        if !self.is_in_whitelisted_rafts(raft) {
            return Err(CraftingError::RaftNotWhitelisted);
        }
        if token_amount == 0 {
            return Err(CraftingError::NoAttachedDeposit);
        }
        if raft_amount == 0 {
            return Err(CraftingError::SyntheticAmountError);
        }
        Ok(())
    }

    /// Runs once the collateral transfer of a mint has ended. Where it
    /// succeeded, values the mint at the oracle's prices, holds the ratio to
    /// the governance band (pooled) or to the asset's minimum (individual),
    /// books the minted amount in the chosen ledger, and appends the record,
    /// whose index it returns.
    pub fn mint_callback(
        &mut self,
        sender_id: &AccountId,
        token: &AccountId,
        token_amount: u128,
        raft: &AccountId,
        raft_amount: u128,
        join_debtpool: bool,
        outcome: PromiseOutcome,
        block_index: u64,
        create_time: u64,
    ) -> (r: Result<CollateralId, CraftingError>)
        requires
            old(self).wf(),
            old(self).collaterals@.len() < u64::MAX,
        ensures
            final(self).wf(),
            r is Err ==> *final(self) == *old(self),
            match old(self).mint_callback_error(
                sender_id@,
                token@,
                token_amount,
                raft@,
                raft_amount,
                join_debtpool,
                outcome,
            ) {
                Some(e) => r == Err::<CollateralId, CraftingError>(e),
                None => r == Ok::<CollateralId, CraftingError>(
                    old(self).collaterals@.len() as CollateralId,
                ),
            },
            r is Ok ==> {
                &&& final(self).collaterals@ == old(self).collaterals@.push(
                    Collateral {
                        issuer: *sender_id,
                        token: *token,
                        token_amount,
                        raft: *raft,
                        raft_amount,
                        join_debtpool,
                        block_index,
                        create_time,
                        state: COLLATERAL_OPEN,
                    },
                )
                &&& final(self).user_collaterals@ == old(self).user_collaterals@.push(
                    (*sender_id, old(self).collaterals@.len() as CollateralId),
                )
                &&& final(self).accounts == old(self).accounts
                &&& Contract::settings_kept(*old(self), *final(self))
                &&& join_debtpool ==> DebtPool::join_post(
                    old(self).debt_pool,
                    final(self).debt_pool,
                    old(self).price_oracle@,
                    *sender_id,
                    *raft,
                    raft_amount,
                ) && final(self).account_book == old(self).account_book
                &&& !join_debtpool ==> AccountBook::credit_post(
                    old(self).account_book,
                    final(self).account_book,
                    sender_id@,
                    raft@,
                    raft_amount,
                ) && final(self).debt_pool == old(self).debt_pool
            },
    {
        if outcome == PromiseOutcome::Failed {
            return Err(CraftingError::TransferFailed);
        }
        let token_asset = match self.query_token(token) {
            Some(a) => a,
            None => {
                return Err(CraftingError::AssetNotFound);
            },
        };
        let raft_asset = match self.query_raft(raft) {
            Some(a) => a,
            None => {
                return Err(CraftingError::AssetNotFound);
            },
        };
        let token_price = self.price_oracle.get_price(token)?;
        let raft_price = self.price_oracle.get_price(raft)?;
        let token_scale = match checked_pow10(token_asset.decimals) {
            Some(v) => v,
            None => {
                return Err(CraftingError::Overflow);
            },
        };
        let raft_scale = match checked_pow10(raft_asset.decimals) {
            Some(v) => v,
            None => {
                return Err(CraftingError::Overflow);
            },
        };
        proof {
            crate::contract::lemma_pow10_positive(token_asset.decimals as nat);
            crate::contract::lemma_pow10_positive(raft_asset.decimals as nat);
        }
        let (numerator, denominator) = if join_debtpool {
            (mul3(raft_price, raft_amount, token_scale), mul3(token_price, token_amount, raft_scale))
        } else {
            (
                mul3_percent(token_price, token_amount, raft_scale),
                mul3(raft_price, raft_amount, token_scale),
            )
        };
        let (numerator, denominator) = match (numerator, denominator) {
            (Some(n), Some(d)) => (n, d),
            _ => {
                return Err(CraftingError::Overflow);
            },
        };
        if denominator == 0 {
            return Err(CraftingError::ZeroValue);
        }
        let ratio = numerator / denominator;
        if join_debtpool {
            let (min, max) = self.leverage_ratio;
            if ratio < min as u128 || ratio > max as u128 {
                return Err(CraftingError::LeverageOutOfRange);
            }
            self.debt_pool.join(&self.price_oracle, sender_id, raft, raft_amount)?;
        } else {
            if ratio < raft_asset.collateral_ratio {
                return Err(CraftingError::CollateralRatioTooLow);
            }
            self.account_book.mint(sender_id, raft, raft_amount)?;
        }
        let id = self.collaterals.len() as u64;
        self.collaterals.push(
            Collateral {
                issuer: sender_id.clone(),
                token: token.clone(),
                token_amount,
                raft: raft.clone(),
                raft_amount,
                join_debtpool,
                block_index,
                create_time,
                state: COLLATERAL_OPEN,
            },
        );
        self.user_collaterals.push((sender_id.clone(), id));
        Ok(id)
    }
}

} // verus!
