//! Swaps between synthetic assets, and moves of synthetic assets into and out
//! of the account book.

use vstd::prelude::*;
use crate::accountbook::AccountBook;
use crate::contract::{Contract, PromiseOutcome};
use crate::debtpool::{position_in, swap_positions, WrappedBalance};
use crate::errors::CraftingError;
use crate::table::{AccountId, has_id};
use crate::utils::FEE_DIVISOR;

verus! {

/// The fee on `amount` at `fee` thousandths, rounded down.
pub open spec fn fee_of(amount: u128, fee: u32) -> int {
    amount * fee / (FEE_DIVISOR as int)
}

/// What `net` of an asset priced `old_price` buys of one priced `new_price`.
pub open spec fn converted(old_price: u128, net: int, new_price: u128) -> int {
    old_price * net / (new_price as int)
}

pub(crate) proof fn lemma_fee_bound(amount: u128, fee: u32)
    requires
        fee <= FEE_DIVISOR,
    ensures
        0 <= fee_of(amount, fee) <= amount,
{
    let p = amount * fee;
    assert(0 <= p <= amount * 1000) by (nonlinear_arith)
        requires
            p == amount * fee,
            fee <= 1000,
            amount >= 0,
            fee >= 0,
    ;
    vstd::arithmetic::div_mod::lemma_div_is_ordered(p, amount * 1000, 1000);
    vstd::arithmetic::div_mod::lemma_div_multiples_vanish(amount as int, 1000);
    vstd::arithmetic::div_mod::lemma_div_is_ordered(0, p, 1000);
    assert(amount * 1000 == 1000 * amount);
}

impl Contract {
    /// Why a pool swap of `swap_amount` of `old_raft` into `new_raft` by
    /// `sender_id` is refused, if it is.
    pub open spec fn swap_in_debtpool_error(
        &self,
        sender_id: Seq<char>,
        old_raft: Seq<char>,
        new_raft: Seq<char>,
        swap_amount: u128,
    ) -> Option<CraftingError> {
        let pool = self.debt_pool;
        let prices = self.price_oracle@;
        let fee = fee_of(swap_amount, self.exchange_fee);
        let net = swap_amount - fee;
        let after_old = position_in(pool.positions(), old_raft) - net;
        let new_before = if new_raft == old_raft {
            after_old
        } else {
            pool.position(new_raft)
        };
        let out = converted(prices[old_raft], net, prices[new_raft]);
        let user_new = if new_raft == old_raft {
            pool.contribution(sender_id, old_raft) - swap_amount
        } else {
            pool.contribution(sender_id, new_raft) as int
        };
        if !self.running() {
            Some(CraftingError::ContractPaused)
        } else if !has_id(self.whitelisted_rafts@, old_raft) || !has_id(
            self.whitelisted_rafts@,
            new_raft,
        ) {
            Some(CraftingError::RaftNotWhitelisted)
        } else if swap_amount == 0 {
            Some(CraftingError::IllegalAmount)
        } else if pool.contribution(sender_id, old_raft) < swap_amount {
            Some(CraftingError::InsufficientBalance)
        } else if swap_amount * self.exchange_fee > u128::MAX || pool.contribution(
            self.owner_id@,
            old_raft,
        ) + fee > u128::MAX || !WrappedBalance::holds(after_old) {
            Some(CraftingError::Overflow)
        } else if !prices.contains_key(old_raft) || !prices.contains_key(new_raft) {
            Some(CraftingError::PriceNotFound)
        } else if prices[old_raft] * net > u128::MAX {
            Some(CraftingError::Overflow)
        } else if prices[new_raft] == 0 {
            Some(CraftingError::ZeroValue)
        } else if !WrappedBalance::holds(new_before + out) || user_new + out > u128::MAX {
            Some(CraftingError::Overflow)
        } else {
            None
        }
    }

    /// Swaps `swap_amount` of the caller's pool contribution in `old_raft`
    /// into `new_raft` at the oracle's prices. The exchange fee stays in the
    /// pool, credited to the owner's contribution; the rest leaves the
    /// `old_raft` position and its value, in whole units, enters the
    /// `new_raft` position and the caller's contribution. Debt ratios do not
    /// change.
    pub fn swap_in_debtpool(
        &mut self,
        sender_id: &AccountId,
        old_raft: &AccountId,
        new_raft: &AccountId,
        swap_amount: u128,
    ) -> (r: Result<(), CraftingError>)
        requires
            old(self).wf(),
        ensures
            final(self).wf(),
            r == match old(self).swap_in_debtpool_error(
                sender_id@,
                old_raft@,
                new_raft@,
                swap_amount,
            ) {
                Some(e) => Err(e),
                None => Ok::<(), CraftingError>(()),
            },
            r is Err ==> *final(self) == *old(self),
            r is Ok ==> ({
                let pool = old(self).debt_pool;
                let prices = old(self).price_oracle@;
                let fee = fee_of(swap_amount, old(self).exchange_fee);
                let net = swap_amount - fee;
                let out = converted(prices[old_raft@], net, prices[new_raft@]);
                &&& final(self).debt_pool.positions() == swap_positions(
                    pool.positions(),
                    *old_raft,
                    *new_raft,
                    net,
                    out,
                )
                &&& final(self).debt_pool.ratios() == pool.ratios()
                &&& forall|u: Seq<char>, a: Seq<char>|
                    #![trigger final(self).debt_pool.contribution(u, a)]
                    final(self).debt_pool.contribution(u, a) as int == if u == sender_id@ && a
                        == new_raft@ {
                        (if new_raft@ == old_raft@ {
                            pool.contribution(u, old_raft@) - swap_amount
                        } else {
                            pool.contribution(u, a) as int
                        }) + out
                    } else if u == sender_id@ && a == old_raft@ {
                        pool.contribution(u, a) - swap_amount
                    } else if u == old(self).owner_id@ && a == old_raft@ {
                        pool.contribution(u, a) + fee
                    } else {
                        pool.contribution(u, a) as int
                    }
                &&& final(self).account_book == old(self).account_book
                &&& final(self).accounts == old(self).accounts
                &&& final(self).collaterals == old(self).collaterals
                &&& final(self).user_collaterals == old(self).user_collaterals
                &&& Contract::settings_kept(*old(self), *final(self))
            }),
    {
        self.assert_contract_running()?;
        if !self.is_in_whitelisted_rafts(old_raft) || !self.is_in_whitelisted_rafts(new_raft) {
            return Err(CraftingError::RaftNotWhitelisted);
        }
        if swap_amount == 0 {
            return Err(CraftingError::IllegalAmount);
        }
        let old_user_raft_amount = self.debt_pool.query_user_raft_amount(sender_id, old_raft);
        if old_user_raft_amount < swap_amount {
            return Err(CraftingError::InsufficientBalance);
        }
        proof {
            lemma_fee_bound(swap_amount, self.exchange_fee);
        }
        let exchange_fee_amount = match swap_amount.checked_mul(self.exchange_fee as u128) {
            Some(v) => v / (FEE_DIVISOR as u128),
            None => {
                return Err(CraftingError::Overflow);
            },
        };
        let net = swap_amount - exchange_fee_amount;
        let mut pool = self.debt_pool.duplicate();
        let owner_raft_amount = pool.query_user_raft_amount(&self.owner_id, old_raft);
        let owner_credit = match owner_raft_amount.checked_add(exchange_fee_amount) {
            Some(v) => v,
            None => {
                return Err(CraftingError::Overflow);
            },
        };
        let ghost q0 = pool;
        pool.insert_user_raft_amount(&self.owner_id, old_raft, owner_credit);
        let ghost q1 = pool;
        let ghost start_positions = pool.positions();
        pool.calc_sub_raft_amount(old_raft, net)?;
        proof {
            let w1 = WrappedBalance::from_value(position_in(start_positions, old_raft@) - net);
            crate::table::lemma_upsert(start_positions, *old_raft, w1);
            assert(position_in(pool.positions(), new_raft@) == if new_raft@ == old_raft@ {
                position_in(start_positions, old_raft@) - net
            } else {
                position_in(start_positions, new_raft@)
            });
        }
        let ghost q2 = pool;
        assert(q2.rows() == q1.rows());
        pool.insert_user_raft_amount(sender_id, old_raft, old_user_raft_amount - swap_amount);
        assert(pool.contribution(sender_id@, new_raft@) == if new_raft@ == old_raft@ {
            (old_user_raft_amount - swap_amount) as u128
        } else {
            q2.contribution(sender_id@, new_raft@)
        });
        assert(q2.contribution(sender_id@, new_raft@) == q1.contribution(sender_id@, new_raft@));
        assert(new_raft@ != old_raft@ ==> q1.contribution(sender_id@, new_raft@) == q0.contribution(
            sender_id@,
            new_raft@,
        ));
        let old_price = self.price_oracle.get_price(old_raft)?;
        let new_price = self.price_oracle.get_price(new_raft)?;
        let value = match old_price.checked_mul(net) {
            Some(v) => v,
            None => {
                return Err(CraftingError::Overflow);
            },
        };
        if new_price == 0 {
            return Err(CraftingError::ZeroValue);
        }
        let new_swap_amount = value / new_price;
        let ghost q3 = pool;
        pool.calc_add_raft_amount(new_raft, new_swap_amount)?;
        let ghost q4 = pool;
        let new_user_raft_amount = match pool.query_user_raft_amount(sender_id, new_raft).checked_add(
            new_swap_amount,
        ) {
            Some(v) => v,
            None => {
                return Err(CraftingError::Overflow);
            },
        };
        pool.insert_user_raft_amount(sender_id, new_raft, new_user_raft_amount);
        proof {
            let fee = exchange_fee_amount as int;
            assert forall|u: Seq<char>, a: Seq<char>|
                #![trigger pool.contribution(u, a)]
                pool.contribution(u, a) as int == if u == sender_id@ && a == new_raft@ {
                    (if new_raft@ == old_raft@ {
                        q0.contribution(u, old_raft@) - swap_amount
                    } else {
                        q0.contribution(u, a) as int
                    }) + new_swap_amount
                } else if u == sender_id@ && a == old_raft@ {
                    q0.contribution(u, a) - swap_amount
                } else if u == self.owner_id@ && a == old_raft@ {
                    q0.contribution(u, a) + fee
                } else {
                    q0.contribution(u, a) as int
                } by {
                assert(q4.contribution(u, a) == q3.contribution(u, a));
                assert(q2.contribution(u, a) == q1.contribution(u, a));
                assert(q3.contribution(u, a) == if u == sender_id@ && a == old_raft@ {
                    (old_user_raft_amount - swap_amount) as u128
                } else {
                    q2.contribution(u, a)
                });
                assert(q1.contribution(u, a) == if u == self.owner_id@ && a == old_raft@ {
                    owner_credit
                } else {
                    q0.contribution(u, a)
                });
            }
        }
        self.debt_pool = pool;
        Ok(())
    }

    /// Why a book swap of `swap_amount` of `old_raft` into `new_raft` by
    /// `sender_id` is refused, if it is.
    pub open spec fn swap_in_accountbook_error(
        &self,
        sender_id: Seq<char>,
        old_raft: Seq<char>,
        new_raft: Seq<char>,
        swap_amount: u128,
    ) -> Option<CraftingError> {
        let book = self.account_book;
        let prices = self.price_oracle@;
        let fee = fee_of(swap_amount, self.exchange_fee);
        let out = converted(prices[old_raft], swap_amount - fee, prices[new_raft]);
        let old_total = book.total(old_raft) - swap_amount + fee;
        let new_total = if new_raft == old_raft {
            old_total
        } else {
            book.total(new_raft) as int
        };
        let user_new = if new_raft == old_raft {
            book.balance(sender_id, old_raft) - swap_amount
        } else {
            book.balance(sender_id, new_raft) as int
        };
        let pool_old = self.debt_pool.position(old_raft) - out;
        let pool_new = if new_raft == old_raft {
            pool_old
        } else {
            self.debt_pool.position(new_raft)
        };
        if !self.running() {
            Some(CraftingError::ContractPaused)
        } else if !has_id(self.whitelisted_rafts@, old_raft) || !has_id(
            self.whitelisted_rafts@,
            new_raft,
        ) {
            Some(CraftingError::RaftNotWhitelisted)
        } else if swap_amount == 0 {
            Some(CraftingError::IllegalAmount)
        } else if book.total(old_raft) < swap_amount || book.balance(sender_id, old_raft)
            < swap_amount {
            Some(CraftingError::InsufficientBalance)
        } else if swap_amount * self.exchange_fee > u128::MAX || book.balance(
            self.owner_id@,
            old_raft,
        ) + fee > u128::MAX {
            Some(CraftingError::Overflow)
        } else if !prices.contains_key(old_raft) || !prices.contains_key(new_raft) {
            Some(CraftingError::PriceNotFound)
        } else if prices[old_raft] * (swap_amount - fee) > u128::MAX {
            Some(CraftingError::Overflow)
        } else if prices[new_raft] == 0 {
            Some(CraftingError::ZeroValue)
        } else if new_total + out > u128::MAX || user_new + out > u128::MAX
            || !WrappedBalance::holds(pool_old) || !WrappedBalance::holds(pool_new + out) {
            Some(CraftingError::Overflow)
        } else {
            None
        }
    }

    /// Swaps `swap_amount` of the caller's book holding in `old_raft` into
    /// `new_raft` at the oracle's prices. The exchange fee stays in the book,
    /// credited to the owner; the converted amount moves from the `old_raft`
    /// to the `new_raft` position of the pool as well.
    pub fn swap_in_accountbook(
        &mut self,
        sender_id: &AccountId,
        old_raft: &AccountId,
        new_raft: &AccountId,
        swap_amount: u128,
    ) -> (r: Result<(), CraftingError>)
        requires
            old(self).wf(),
        ensures
            final(self).wf(),
            r == match old(self).swap_in_accountbook_error(
                sender_id@,
                old_raft@,
                new_raft@,
                swap_amount,
            ) {
                Some(e) => Err(e),
                None => Ok::<(), CraftingError>(()),
            },
            r is Err ==> *final(self) == *old(self),
            r is Ok ==> ({
                let book = old(self).account_book;
                let prices = old(self).price_oracle@;
                let fee = fee_of(swap_amount, old(self).exchange_fee);
                let out = converted(prices[old_raft@], swap_amount - fee, prices[new_raft@]);
                let old_total = book.total(old_raft@) - swap_amount + fee;
                &&& final(self).account_book.total(old_raft@) == if new_raft@ == old_raft@ {
                    old_total + out
                } else {
                    old_total
                }
                &&& new_raft@ != old_raft@ ==> final(self).account_book.total(new_raft@)
                    == book.total(new_raft@) + out
                &&& forall|a: Seq<char>|
                    a != old_raft@ && a != new_raft@ ==> #[trigger] final(self).account_book.total(
                        a,
                    ) == book.total(a)
                &&& forall|u: Seq<char>, a: Seq<char>|
                    #![trigger final(self).account_book.balance(u, a)]
                    final(self).account_book.balance(u, a) as int == if u == sender_id@ && a
                        == new_raft@ {
                        (if new_raft@ == old_raft@ {
                            book.balance(u, old_raft@) - swap_amount
                        } else {
                            book.balance(u, a) as int
                        }) + out
                    } else if u == sender_id@ && a == old_raft@ {
                        book.balance(u, a) - swap_amount
                    } else if u == old(self).owner_id@ && a == old_raft@ {
                        book.balance(u, a) + fee
                    } else {
                        book.balance(u, a) as int
                    }
                &&& final(self).debt_pool.positions() == swap_positions(
                    old(self).debt_pool.positions(),
                    *old_raft,
                    *new_raft,
                    out,
                    out,
                )
                &&& final(self).debt_pool.rows() == old(self).debt_pool.rows()
                &&& final(self).debt_pool.ratios() == old(self).debt_pool.ratios()
                &&& final(self).accounts == old(self).accounts
                &&& final(self).collaterals == old(self).collaterals
                &&& final(self).user_collaterals == old(self).user_collaterals
                &&& Contract::settings_kept(*old(self), *final(self))
            }),
    {
        self.assert_contract_running()?;
        if !self.is_in_whitelisted_rafts(old_raft) || !self.is_in_whitelisted_rafts(new_raft) {
            return Err(CraftingError::RaftNotWhitelisted);
        }
        if swap_amount == 0 {
            return Err(CraftingError::IllegalAmount);
        }
        let old_raft_amount = self.account_book.query_raft_amount(old_raft);
        let old_user_raft_amount = self.account_book.query_user_raft_amount(sender_id, old_raft);
        if old_raft_amount < swap_amount || old_user_raft_amount < swap_amount {
            return Err(CraftingError::InsufficientBalance);
        }
        proof {
            lemma_fee_bound(swap_amount, self.exchange_fee);
        }
        let exchange_fee_amount = match swap_amount.checked_mul(self.exchange_fee as u128) {
            Some(v) => v / (FEE_DIVISOR as u128),
            None => {
                return Err(CraftingError::Overflow);
            },
        };
        let net = swap_amount - exchange_fee_amount;
        let mut book = self.account_book.duplicate();
        let ghost b0 = book;
        let owner_credit = match book.query_user_raft_amount(&self.owner_id, old_raft).checked_add(
            exchange_fee_amount,
        ) {
            Some(v) => v,
            None => {
                return Err(CraftingError::Overflow);
            },
        };
        book.insert_user_raft_amount(&self.owner_id, old_raft, owner_credit);
        let ghost b1 = book;
        book.insert_raft_amount(old_raft, old_raft_amount - swap_amount + exchange_fee_amount);
        let ghost b2 = book;
        book.insert_user_raft_amount(sender_id, old_raft, old_user_raft_amount - swap_amount);
        let ghost b3 = book;
        let old_price = self.price_oracle.get_price(old_raft)?;
        let new_price = self.price_oracle.get_price(new_raft)?;
        let value = match old_price.checked_mul(net) {
            Some(v) => v,
            None => {
                return Err(CraftingError::Overflow);
            },
        };
        if new_price == 0 {
            return Err(CraftingError::ZeroValue);
        }
        let new_swap_amount = value / new_price;
        proof {
            assert(b3.total(new_raft@) == b2.total(new_raft@));
            assert(b2.total(new_raft@) == if new_raft@ == old_raft@ {
                (old_raft_amount - swap_amount + exchange_fee_amount) as u128
            } else {
                b1.total(new_raft@)
            });
            assert(b1.total(new_raft@) == b0.total(new_raft@));
            assert(b2.balance(sender_id@, new_raft@) == b1.balance(sender_id@, new_raft@));
        }
        let new_total = match book.query_raft_amount(new_raft).checked_add(new_swap_amount) {
            Some(v) => v,
            None => {
                return Err(CraftingError::Overflow);
            },
        };
        let new_user_raft_amount = match book.query_user_raft_amount(sender_id, new_raft).checked_add(
            new_swap_amount,
        ) {
            Some(v) => v,
            None => {
                return Err(CraftingError::Overflow);
            },
        };
        book.insert_raft_amount(new_raft, new_total);
        let ghost b4 = book;
        book.insert_user_raft_amount(sender_id, new_raft, new_user_raft_amount);
        let mut pool = self.debt_pool.duplicate();
        let ghost start_positions = pool.positions();
        pool.calc_sub_raft_amount(old_raft, new_swap_amount)?;
        proof {
            let w1 = WrappedBalance::from_value(position_in(start_positions, old_raft@) - new_swap_amount);
            crate::table::lemma_upsert(start_positions, *old_raft, w1);
        }
        pool.calc_add_raft_amount(new_raft, new_swap_amount)?;
        proof {
            let fee = exchange_fee_amount as int;
            assert forall|u: Seq<char>, a: Seq<char>|
                #![trigger book.balance(u, a)]
                book.balance(u, a) as int == if u == sender_id@ && a == new_raft@ {
                    (if new_raft@ == old_raft@ {
                        b0.balance(u, old_raft@) - swap_amount
                    } else {
                        b0.balance(u, a) as int
                    }) + new_swap_amount
                } else if u == sender_id@ && a == old_raft@ {
                    b0.balance(u, a) - swap_amount
                } else if u == self.owner_id@ && a == old_raft@ {
                    b0.balance(u, a) + fee
                } else {
                    b0.balance(u, a) as int
                } by {
                assert(b4.balance(u, a) == b3.balance(u, a));
                assert(b2.balance(u, a) == b1.balance(u, a));
            }
            assert forall|a: Seq<char>|
                a != old_raft@ && a != new_raft@ implies #[trigger] book.total(a) == b0.total(a) by {
                assert(book.total(a) == b4.total(a));
                assert(b3.total(a) == b2.total(a));
                assert(b1.total(a) == b0.total(a));
            }
            assert(book.total(old_raft@) == b4.total(old_raft@));
            assert(b3.total(old_raft@) == b2.total(old_raft@));
            assert(book.total(new_raft@) == b4.total(new_raft@));
            assert(book.total(old_raft@) as int == if new_raft@ == old_raft@ {
                b0.total(old_raft@) - swap_amount + fee + new_swap_amount
            } else {
                b0.total(old_raft@) - swap_amount + fee
            });
        }
        self.account_book = book;
        self.debt_pool = pool;
        Ok(())
    }

    /// Checks a move of `amount` of `raft_id` from the caller's wallet into
    /// the book, before the tokens are burnt.
    pub fn deposit_in_accountbook(&self, raft_id: &AccountId, amount: u128) -> (r: Result<
        (),
        CraftingError,
    >)
        ensures
            r == if !self.running() {
                Err(CraftingError::ContractPaused)
            } else if amount == 0 {
                Err(CraftingError::IllegalAmount)
            } else {
                Ok::<(), CraftingError>(())
            },
    {
        self.assert_contract_running()?;
        if amount == 0 {
            return Err(CraftingError::IllegalAmount);
        }
        Ok(())
    }

    /// Runs once the burn of a deposit into the book has ended: where it
    /// succeeded, credits the book.
    pub fn account_book_callback_deposit(
        &mut self,
        sender_id: &AccountId,
        raft_id: &AccountId,
        amount: u128,
        outcome: PromiseOutcome,
    ) -> (r: Result<(), CraftingError>)
        requires
            old(self).wf(),
        ensures
            final(self).wf(),
            r == if outcome == PromiseOutcome::Failed {
                Err(CraftingError::TransferFailed)
            } else if old(self).account_book.total(raft_id@) + amount > u128::MAX || old(
                self,
            ).account_book.balance(sender_id@, raft_id@) + amount > u128::MAX {
                Err(CraftingError::Overflow)
            } else {
                Ok::<(), CraftingError>(())
            },
            r is Err ==> *final(self) == *old(self),
            r is Ok ==> AccountBook::credit_post(
                old(self).account_book,
                final(self).account_book,
                sender_id@,
                raft_id@,
                amount,
            ),
            r is Ok ==> final(self).debt_pool == old(self).debt_pool && final(self).accounts == old(
                self,
            ).accounts && final(self).collaterals == old(self).collaterals
                && final(self).user_collaterals == old(self).user_collaterals
                && Contract::settings_kept(*old(self), *final(self)),
    {
        if outcome == PromiseOutcome::Failed {
            return Err(CraftingError::TransferFailed);
        }
        self.account_book.mint(sender_id, raft_id, amount)
    }

    /// Takes `amount` of `raft_id` out of the caller's book holding before
    /// the tokens are minted to the caller's wallet.
    pub fn withdraw_in_accountbook(&mut self, sender_id: &AccountId, raft_id: &AccountId, amount: u128) -> (r:
        Result<(), CraftingError>)
        requires
            old(self).wf(),
        ensures
            final(self).wf(),
            r == if !old(self).running() {
                Err(CraftingError::ContractPaused)
            } else if amount == 0 {
                Err(CraftingError::IllegalWithdrawAmount)
            } else if old(self).account_book.total(raft_id@) < amount || old(
                self,
            ).account_book.balance(sender_id@, raft_id@) < amount {
                Err(CraftingError::InsufficientBalance)
            } else {
                Ok::<(), CraftingError>(())
            },
            r is Err ==> *final(self) == *old(self),
            r is Ok ==> AccountBook::debit_post(
                old(self).account_book,
                final(self).account_book,
                sender_id@,
                raft_id@,
                amount,
            ),
            r is Ok ==> final(self).debt_pool == old(self).debt_pool && final(self).accounts == old(
                self,
            ).accounts && final(self).collaterals == old(self).collaterals
                && final(self).user_collaterals == old(self).user_collaterals
                && Contract::settings_kept(*old(self), *final(self)),
    {
        self.assert_contract_running()?;
        if amount == 0 {
            return Err(CraftingError::IllegalWithdrawAmount);
        }
        self.account_book.withdraw(sender_id, raft_id, amount)
    }

    /// Runs once the mint of a withdrawal from the book has ended: where it
    /// failed, puts the amount back.
    pub fn account_book_callback_withdraw(
        &mut self,
        sender_id: &AccountId,
        raft_id: &AccountId,
        amount: u128,
        outcome: PromiseOutcome,
    ) -> (r: Result<(), CraftingError>)
        requires
            old(self).wf(),
        ensures
            final(self).wf(),
            outcome == PromiseOutcome::Successful ==> r is Ok && *final(self) == *old(self),
            outcome == PromiseOutcome::Failed ==> r == if old(self).account_book.total(raft_id@)
                + amount > u128::MAX || old(self).account_book.balance(sender_id@, raft_id@)
                + amount > u128::MAX {
                Err(CraftingError::Overflow)
            } else {
                Ok::<(), CraftingError>(())
            },
            r is Ok ==> final(self).debt_pool == old(self).debt_pool && final(self).accounts == old(
                self,
            ).accounts && final(self).collaterals == old(self).collaterals
                && final(self).user_collaterals == old(self).user_collaterals
                && Contract::settings_kept(*old(self), *final(self)),
            outcome == PromiseOutcome::Failed && r is Ok ==> AccountBook::credit_post(
                old(self).account_book,
                final(self).account_book,
                sender_id@,
                raft_id@,
                amount,
            ),
            r is Err ==> *final(self) == *old(self),
    {
        match outcome {
            PromiseOutcome::Successful => Ok(()),
            PromiseOutcome::Failed => self.account_book.mint(sender_id, raft_id, amount),
        }
    }
}

} // verus!
