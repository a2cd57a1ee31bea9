//! The account book: synthetic assets minted against individual collateral,
//! each unit attributable to one user.

use vstd::prelude::*;
use crate::errors::CraftingError;
use crate::oracle::{PriceInfo, table_map};
use crate::table::{
    AccountId, amount_of, copy_pairs, copy_table, get_amount, get_pair, pair_amount, put, put_pair, unique_keys,
    unique_pairs,
};

verus! {

/// Every asset of `s` has a price.
pub open spec fn book_priced(s: Seq<(String, u128)>, prices: Map<Seq<char>, u128>) -> bool {
    forall|i: int| 0 <= i < s.len() ==> prices.contains_key((#[trigger] s[i]).0@)
}

/// The value of the amounts of `s`: amount times price.
pub open spec fn book_value(s: Seq<(String, u128)>, prices: Map<Seq<char>, u128>) -> nat
    decreases s.len(),
{
    if s.len() == 0 {
        0
    } else {
        book_value(s.drop_last(), prices) + (s.last().1 * prices[s.last().0@]) as nat
    }
}

/// Every asset of `s` of which `user` holds some has a price.
pub open spec fn book_user_priced(
    s: Seq<(String, u128)>,
    rows: Seq<(String, String, u128)>,
    user: Seq<char>,
    prices: Map<Seq<char>, u128>,
) -> bool {
    forall|i: int|
        0 <= i < s.len() && pair_amount(rows, user, (#[trigger] s[i]).0@) != 0 ==> prices.contains_key(
            s[i].0@,
        )
}

/// The value of what `user` holds of the assets of `s`.
pub open spec fn book_user_value(
    s: Seq<(String, u128)>,
    rows: Seq<(String, String, u128)>,
    user: Seq<char>,
    prices: Map<Seq<char>, u128>,
) -> nat
    decreases s.len(),
{
    if s.len() == 0 {
        0
    } else {
        let a = s.last().0@;
        book_user_value(s.drop_last(), rows, user, prices) + if pair_amount(rows, user, a) == 0 {
            0nat
        } else {
            (pair_amount(rows, user, a) * prices[a]) as nat
        }
    }
}

/// The book.
pub struct AccountBook {
    /// The total of each asset, in order of first mint.
    pub raft_amounts: Vec<(AccountId, u128)>,
    /// What each user holds of each asset.
    pub user_raft_amounts: Vec<(AccountId, AccountId, u128)>,
}

impl AccountBook {
    /// The total amount of each asset, in order of first mint.
    pub open spec fn totals(&self) -> Seq<(String, u128)> {
        self.raft_amounts@
    }

    /// The rows `(user, asset, amount)`.
    pub open spec fn rows(&self) -> Seq<(String, String, u128)> {
        self.user_raft_amounts@
    }

    pub open spec fn wf(&self) -> bool {
        unique_keys(self.totals()) && unique_pairs(self.rows())
    }

    /// The total amount of `asset`; zero where none was minted.
    pub open spec fn total(&self, asset: Seq<char>) -> u128 {
        amount_of(self.totals(), asset)
    }

    /// What `user` holds of `asset`.
    pub open spec fn balance(&self, user: Seq<char>, asset: Seq<char>) -> u128 {
        pair_amount(self.rows(), user, asset)
    }

    /// An empty book.
    pub fn new() -> (r: Self)
        ensures
            r.wf(),
            r.totals().len() == 0,
            forall|u: Seq<char>, a: Seq<char>| #[trigger] r.balance(u, a) == 0,
    {
        AccountBook { raft_amounts: Vec::new(), user_raft_amounts: Vec::new() }
    }

    /// `new` is `old` with `amount` of `raft` added to its total and to
    /// `user`'s row.
    pub open spec fn credit_post(
        old: AccountBook,
        new: AccountBook,
        user: Seq<char>,
        raft: Seq<char>,
        amount: u128,
    ) -> bool {
        &&& table_map(new.totals()) == table_map(old.totals()).insert(
            raft,
            (old.total(raft) + amount) as u128,
        )
        &&& forall|a: Seq<char>| #[trigger]
            new.total(a) as int == if a == raft {
                old.total(a) + amount
            } else {
                old.total(a) as int
            }
        &&& forall|u: Seq<char>, a: Seq<char>| #[trigger]
            new.balance(u, a) as int == if u == user && a == raft {
                old.balance(u, a) + amount
            } else {
                old.balance(u, a) as int
            }
    }

    /// Records `raft_amount` of `raft` minted to `user`: both the asset's
    /// total and the user's row grow by it.
    pub fn mint(&mut self, user: &AccountId, raft: &AccountId, raft_amount: u128) -> (r: Result<
        (),
        CraftingError,
    >)
        requires
            old(self).wf(),
        ensures
            final(self).wf(),
            r == if old(self).total(raft@) + raft_amount <= u128::MAX && old(self).balance(
                user@,
                raft@,
            ) + raft_amount <= u128::MAX {
                Ok::<(), CraftingError>(())
            } else {
                Err(CraftingError::Overflow)
            },
            r is Err ==> *final(self) == *old(self),
            r is Ok ==> AccountBook::credit_post(*old(self), *final(self), user@, raft@, raft_amount),
    {
        let total = match self.query_raft_amount(raft).checked_add(raft_amount) {
            Some(v) => v,
            None => {
                return Err(CraftingError::Overflow);
            },
        };
        let balance = match self.query_user_raft_amount(user, raft).checked_add(raft_amount) {
            Some(v) => v,
            None => {
                return Err(CraftingError::Overflow);
            },
        };
        let ghost before = *self;
        self.insert_raft_amount(raft, total);
        let ghost mid = *self;
        self.insert_user_raft_amount(user, raft, balance);
        assert forall|a: Seq<char>| #[trigger]
            self.total(a) as int == if a == raft@ {
                before.total(a) + raft_amount
            } else {
                before.total(a) as int
            } by {
            assert(self.total(a) == mid.total(a));
        }
        Ok(())
    }

    /// The total amount of `raft`.
    pub fn query_raft_amount(&self, raft: &AccountId) -> (r: u128)
        requires
            self.wf(),
        ensures
            r == self.total(raft@),
    {
        get_amount(&self.raft_amounts, raft)
    }

    /// Sets the total amount of `raft`.
    pub fn insert_raft_amount(&mut self, raft: &AccountId, amount: u128)
        requires
            old(self).wf(),
        ensures
            final(self).wf(),
            table_map(final(self).totals()) == table_map(old(self).totals()).insert(raft@, amount),
            forall|a: Seq<char>| #[trigger]
                final(self).total(a) == if a == raft@ {
                    amount
                } else {
                    old(self).total(a)
                },
            final(self).rows() == old(self).rows(),
    {
        proof {
            crate::oracle::lemma_table_map_upsert(self.raft_amounts@, *raft, amount);
            crate::table::lemma_upsert(self.raft_amounts@, *raft, amount);
        }
        put(&mut self.raft_amounts, raft, amount);
    }

    /// What `user` holds of `raft`.
    pub fn query_user_raft_amount(&self, user: &AccountId, raft: &AccountId) -> (r: u128)
        requires
            self.wf(),
        ensures
            r == self.balance(user@, raft@),
    {
        get_pair(&self.user_raft_amounts, user, raft)
    }

    /// Sets what `user` holds of `raft`.
    pub fn insert_user_raft_amount(&mut self, user: &AccountId, raft: &AccountId, amount: u128)
        requires
            old(self).wf(),
        ensures
            final(self).wf(),
            final(self).totals() == old(self).totals(),
            forall|u: Seq<char>, a: Seq<char>| #[trigger]
                final(self).balance(u, a) == if u == user@ && a == raft@ {
                    amount
                } else {
                    old(self).balance(u, a)
                },
    {
        put_pair(&mut self.user_raft_amounts, user, raft, amount);
    }

    /// The value of `amount` units of `raft` at the oracle's price.
    pub fn calc_raft_value(&self, price_oracle: &PriceInfo, raft: &AccountId, amount: u128) -> (r:
        Result<u128, CraftingError>)
        requires
            price_oracle.wf(),
        ensures
            r == if !price_oracle@.contains_key(raft@) {
                Err(CraftingError::PriceNotFound)
            } else if price_oracle@[raft@] * amount > u128::MAX {
                Err(CraftingError::Overflow)
            } else {
                Ok::<u128, CraftingError>((price_oracle@[raft@] * amount) as u128)
            },
    {
        let price = price_oracle.get_price(raft)?;
        match price.checked_mul(amount) {
            Some(v) => Ok(v),
            None => Err(CraftingError::Overflow),
        }
    }

    /// The value of every asset in the book at the oracle's prices.
    pub fn calc_raft_total_value(&self, price_oracle: &PriceInfo) -> (r: Result<u128, CraftingError>)
        requires
            self.wf(),
            price_oracle.wf(),
        ensures
            r == if !book_priced(self.totals(), price_oracle@) {
                Err(CraftingError::PriceNotFound)
            } else if book_value(self.totals(), price_oracle@) > u128::MAX {
                Err(CraftingError::Overflow)
            } else {
                Ok::<u128, CraftingError>(book_value(self.totals(), price_oracle@) as u128)
            },
    {
        let ghost s = self.raft_amounts@;
        let ghost prices = price_oracle@;
        let mut total: u128 = 0;
        let mut overflow = false;
        let mut i: usize = 0;
        while i < self.raft_amounts.len()
            invariant
                s == self.raft_amounts@,
                prices == price_oracle@,
                price_oracle.wf(),
                i <= s.len(),
                book_priced(s.subrange(0, i as int), prices),
                overflow == (book_value(s.subrange(0, i as int), prices) > u128::MAX),
                !overflow ==> total == book_value(s.subrange(0, i as int), prices),
            decreases s.len() - i,
        {
            let ghost pre = s.subrange(0, i as int);
            let ghost next = s.subrange(0, i + 1);
            assert(next.drop_last() =~= pre);
            assert(next.last() == s[i as int]);
            let price = match price_oracle.get_price(&self.raft_amounts[i].0) {
                Ok(p) => p,
                Err(e) => {
                    assert(!book_priced(s, prices)) by {
                        assert(s[i as int].0@ == self.raft_amounts@[i as int].0@);
                    }
                    return Err(e);
                },
            };
            if !overflow {
                match self.raft_amounts[i].1.checked_mul(price) {
                    Some(v) => match total.checked_add(v) {
                        Some(t) => {
                            total = t;
                        },
                        None => {
                            overflow = true;
                        },
                    },
                    None => {
                        overflow = true;
                    },
                }
            }
            assert(book_priced(next, prices)) by {
                assert forall|j: int| 0 <= j < next.len() implies prices.contains_key(
                    (#[trigger] next[j]).0@,
                ) by {
                    if j < i {
                        assert(next[j] == pre[j]);
                    }
                }
            }
            i = i + 1;
        }
        assert(s.subrange(0, s.len() as int) =~= s);
        if overflow {
            Err(CraftingError::Overflow)
        } else {
            Ok(total)
        }
    }

    /// The value of what `user` holds, over the book's assets.
    pub fn calc_user_raft_total_value(&self, price_oracle: &PriceInfo, user: &AccountId) -> (r:
        Result<u128, CraftingError>)
        requires
            self.wf(),
            price_oracle.wf(),
        ensures
            r == if !book_user_priced(self.totals(), self.rows(), user@, price_oracle@) {
                Err(CraftingError::PriceNotFound)
            } else if book_user_value(self.totals(), self.rows(), user@, price_oracle@) > u128::MAX {
                Err(CraftingError::Overflow)
            } else {
                Ok::<u128, CraftingError>(
                    book_user_value(self.totals(), self.rows(), user@, price_oracle@) as u128,
                )
            },
    {
        let ghost s = self.raft_amounts@;
        let ghost rows = self.user_raft_amounts@;
        let ghost prices = price_oracle@;
        let mut total: u128 = 0;
        let mut overflow = false;
        let mut i: usize = 0;
        while i < self.raft_amounts.len()
            invariant
                s == self.raft_amounts@,
                rows == self.user_raft_amounts@,
                unique_pairs(rows),
                prices == price_oracle@,
                price_oracle.wf(),
                i <= s.len(),
                book_user_priced(s.subrange(0, i as int), rows, user@, prices),
                overflow == (book_user_value(s.subrange(0, i as int), rows, user@, prices)
                    > u128::MAX),
                !overflow ==> total == book_user_value(s.subrange(0, i as int), rows, user@, prices),
            decreases s.len() - i,
        {
            let ghost pre = s.subrange(0, i as int);
            let ghost next = s.subrange(0, i + 1);
            assert(next.drop_last() =~= pre);
            assert(next.last() == s[i as int]);
            let amount = get_pair(&self.user_raft_amounts, user, &self.raft_amounts[i].0);
            if amount != 0 {
                let price = match price_oracle.get_price(&self.raft_amounts[i].0) {
                    Ok(p) => p,
                    Err(e) => {
                        assert(!book_user_priced(s, rows, user@, prices)) by {
                            assert(s[i as int].0@ == self.raft_amounts@[i as int].0@);
                        }
                        return Err(e);
                    },
                };
                if !overflow {
                    match amount.checked_mul(price) {
                        Some(v) => match total.checked_add(v) {
                            Some(t) => {
                                total = t;
                            },
                            None => {
                                overflow = true;
                            },
                        },
                        None => {
                            overflow = true;
                        },
                    }
                }
            }
            assert(book_user_priced(next, rows, user@, prices)) by {
                assert forall|j: int|
                    0 <= j < next.len() && pair_amount(rows, user@, (#[trigger] next[j]).0@)
                        != 0 implies prices.contains_key(next[j].0@) by {
                    if j < i {
                        assert(next[j] == pre[j]);
                    }
                }
            }
            i = i + 1;
        }
        assert(s.subrange(0, s.len() as int) =~= s);
        if overflow {
            Err(CraftingError::Overflow)
        } else {
            Ok(total)
        }
    }

    /// A copy of the book.
    pub fn duplicate(&self) -> (r: AccountBook)
        ensures
            r.totals() == self.totals(),
            r.rows() == self.rows(),
    {
        AccountBook {
            raft_amounts: copy_table(&self.raft_amounts),
            user_raft_amounts: copy_pairs(&self.user_raft_amounts),
        }
    }

    /// `new` is `old` with `amount` of `raft` taken from its total and from
    /// `user`'s row.
    pub open spec fn debit_post(
        old: AccountBook,
        new: AccountBook,
        user: Seq<char>,
        raft: Seq<char>,
        amount: u128,
    ) -> bool {
        &&& table_map(new.totals()) == table_map(old.totals()).insert(
            raft,
            (old.total(raft) - amount) as u128,
        )
        &&& forall|a: Seq<char>| #[trigger]
            new.total(a) as int == if a == raft {
                old.total(a) - amount
            } else {
                old.total(a) as int
            }
        &&& forall|u: Seq<char>, a: Seq<char>| #[trigger]
            new.balance(u, a) as int == if u == user && a == raft {
                old.balance(u, a) - amount
            } else {
                old.balance(u, a) as int
            }
    }

    /// Takes `amount` of `raft` out of the book on behalf of `user`; neither
    /// the asset's total nor the user's row may go below zero.
    pub fn withdraw(&mut self, user: &AccountId, raft: &AccountId, amount: u128) -> (r: Result<
        (),
        CraftingError,
    >)
        requires
            old(self).wf(),
        ensures
            final(self).wf(),
            r == if old(self).total(raft@) < amount || old(self).balance(user@, raft@) < amount {
                Err(CraftingError::InsufficientBalance)
            } else {
                Ok::<(), CraftingError>(())
            },
            r is Err ==> *final(self) == *old(self),
            r is Ok ==> AccountBook::debit_post(*old(self), *final(self), user@, raft@, amount),
    {
        let total = self.query_raft_amount(raft);
        let balance = self.query_user_raft_amount(user, raft);
        if total < amount || balance < amount {
            return Err(CraftingError::InsufficientBalance);
        }
        let ghost before = *self;
        self.insert_raft_amount(raft, (total - amount) as u128);
        let ghost mid = *self;
        self.insert_user_raft_amount(user, raft, (balance - amount) as u128);
        assert forall|a: Seq<char>| #[trigger]
            self.total(a) as int == if a == raft@ {
                before.total(a) - amount
            } else {
                before.total(a) as int
            } by {
            assert(self.total(a) == mid.total(a));
        }
        Ok(())
    }
}

} // verus!
