//! Redemption: a user settles their debt and gets their collateral back,
//! from the shared pool or from one individual record.

use vstd::prelude::*;
use vstd::string::StrSliceExecFns;
use crate::account::Account;
use crate::contract::{ids_of, Collateral, CollateralId, Contract, COLLATERAL_OPEN, COLLATERAL_REDEEMED};
use crate::debtpool::{DebtPool, all_priced, held_value, owed_value, scale_fits, scaled, total_value, WrappedBalance};
use crate::errors::CraftingError;
use crate::settlement::held;
use crate::accountbook::AccountBook;
use crate::table::{AccountId, has_key, index_of, pair_amount, unique_keys, upsert, without};
use crate::trading::fee_of;
use crate::utils::{PRICE_PRECISION, RATIO_DIVISOR};

verus! {

/// The symbol of the settlement asset, the protocol's synthetic dollar.
pub open spec fn settlement_symbol() -> Seq<char> {
    seq!['r', 'U', 'S', 'D']
}

/// Whether `s` is the settlement asset's symbol.
fn is_settlement_symbol(s: &String) -> (r: bool)
    ensures
        r == (s@ == settlement_symbol()),
{
    let t = s.as_str();
    if t.unicode_len() != 4 {
        return false;
    }
    let r = t.get_char(0) == 'r' && t.get_char(1) == 'U' && t.get_char(2) == 'S' && t.get_char(3)
        == 'D';
    assert(r == (s@ =~= settlement_symbol()));
    r
}

/// The first entry of `s` whose asset has the settlement symbol.
pub open spec fn first_settlement(s: Seq<(String, crate::contract::Asset)>) -> Option<int>
    decreases s.len(),
{
    if s.len() == 0 {
        None
    } else if s[0].1.symbol@ == settlement_symbol() {
        Some(0)
    } else {
        match first_settlement(s.drop_first()) {
            Some(i) => Some(i + 1),
            None => None,
        }
    }
}

/// The open pooled records among `ids`, as `(token, amount)` releases, in
/// order.
pub open spec fn pooled_releases(collaterals: Seq<Collateral>, ids: Seq<u64>) -> Seq<(String, u128)>
    decreases ids.len(),
{
    if ids.len() == 0 {
        Seq::empty()
    } else {
        let id = ids.last();
        pooled_releases(collaterals, ids.drop_last()) + if id < collaterals.len()
            && collaterals[id as int].join_debtpool && collaterals[id as int].state
            == COLLATERAL_OPEN {
            seq![(collaterals[id as int].token, collaterals[id as int].token_amount)]
        } else {
            Seq::empty()
        }
    }
}

proof fn lemma_push_contains(s: Seq<u64>, x: u64, y: u64)
    ensures
        s.push(x).contains(y) <==> (s.contains(y) || x == y),
{
    if s.contains(y) {
        let m = choose|m: int| 0 <= m < s.len() && s[m] == y;
        assert(s.push(x)[m] == s[m]);
    }
    if x == y {
        assert(s.push(x)[s.len() as int] == x);
    }
    if s.push(x).contains(y) && x != y {
        let m = choose|m: int| 0 <= m < s.push(x).len() && s.push(x)[m] == y;
        assert(m < s.len());
        assert(s[m] == s.push(x)[m]);
    }
}

/// The open pooled records among `ids`, in order.
pub open spec fn open_pooled_ids(collaterals: Seq<Collateral>, ids: Seq<u64>) -> Seq<u64>
    decreases ids.len(),
{
    if ids.len() == 0 {
        Seq::empty()
    } else {
        let id = ids.last();
        open_pooled_ids(collaterals, ids.drop_last()) + if id < collaterals.len()
            && collaterals[id as int].join_debtpool && collaterals[id as int].state
            == COLLATERAL_OPEN {
            seq![id]
        } else {
            Seq::empty()
        }
    }
}

proof fn lemma_open_pooled_bound(collaterals: Seq<Collateral>, ids: Seq<u64>)
    ensures
        forall|k: int|
            0 <= k < open_pooled_ids(collaterals, ids).len() ==> (#[trigger] open_pooled_ids(
                collaterals,
                ids,
            )[k]) < collaterals.len(),
    decreases ids.len(),
{
    if ids.len() > 0 {
        lemma_open_pooled_bound(collaterals, ids.drop_last());
        let o = open_pooled_ids(collaterals, ids.drop_last());
        let f = open_pooled_ids(collaterals, ids);
        assert forall|k: int| 0 <= k < f.len() implies (#[trigger] f[k]) < collaterals.len() by {
            if k < o.len() {
                assert(f[k] == o[k]);
            }
        }
    }
}

proof fn lemma_open_pooled_ids(collaterals: Seq<Collateral>, ids: Seq<u64>, i: int)
    requires
        0 <= i < collaterals.len(),
        collaterals.len() <= u64::MAX,
    ensures
        open_pooled_ids(collaterals, ids).contains(i as u64) <==> (ids.contains(i as u64)
            && collaterals[i].join_debtpool && collaterals[i].state == COLLATERAL_OPEN),
        forall|k: int|
            0 <= k < open_pooled_ids(collaterals, ids).len() ==> (#[trigger] open_pooled_ids(
                collaterals,
                ids,
            )[k]) < collaterals.len(),
    decreases ids.len(),
{
    if ids.len() > 0 {
        let t = ids.drop_last();
        let id = ids.last();
        lemma_open_pooled_ids(collaterals, t, i);
        assert(ids =~= t.push(id));
        lemma_push_contains(t, id, i as u64);
        let o = open_pooled_ids(collaterals, t);
        if id < collaterals.len() && collaterals[id as int].join_debtpool && collaterals[id as int].state
            == COLLATERAL_OPEN {
            assert(open_pooled_ids(collaterals, ids) =~= o.push(id));
            lemma_push_contains(o, id, i as u64);
        } else {
            assert(open_pooled_ids(collaterals, ids) =~= o);
        }
        if id == i as u64 {
            assert(id as int == i);
        }
    }
}

/// An entry of the pool's positions after `user`'s holding of it moved to
/// the book: every asset but the settlement asset loses `user`'s
/// contribution.
pub open spec fn migrated_entry(
    e: (String, WrappedBalance),
    rows: Seq<(String, String, u128)>,
    user: Seq<char>,
    settlement: Seq<char>,
) -> (String, WrappedBalance) {
    let c = pair_amount(rows, user, e.0@);
    if e.0@ != settlement && c != 0 {
        (e.0, WrappedBalance::from_value(e.1.value() - c))
    } else {
        e
    }
}

/// The positions `s` after `user`'s non-settlement holdings moved out.
pub open spec fn migrated(
    s: Seq<(String, WrappedBalance)>,
    rows: Seq<(String, String, u128)>,
    user: Seq<char>,
    settlement: Seq<char>,
) -> Seq<(String, WrappedBalance)> {
    s.map_values(|e: (String, WrappedBalance)| migrated_entry(e, rows, user, settlement))
}

/// Every move of a non-settlement holding fits: the pool's position, the
/// book's total and `user`'s book row.
pub open spec fn migration_fits(
    s: Seq<(String, WrappedBalance)>,
    rows: Seq<(String, String, u128)>,
    user: Seq<char>,
    settlement: Seq<char>,
    book: AccountBook,
) -> bool {
    forall|j: int|
        0 <= j < s.len() && (#[trigger] s[j]).0@ != settlement && pair_amount(rows, user, s[j].0@)
            != 0 ==> {
            let c = pair_amount(rows, user, s[j].0@);
            &&& WrappedBalance::holds(s[j].1.value() - c)
            &&& book.total(s[j].0@) + c <= u128::MAX
            &&& book.balance(user, s[j].0@) + c <= u128::MAX
        }
}

/// The amount of token `t` that the releases `r` take.
pub open spec fn released_total(r: Seq<(String, u128)>, t: Seq<char>) -> int
    decreases r.len(),
{
    if r.len() == 0 {
        0
    } else {
        released_total(r.drop_last(), t) + if r.last().0@ == t {
            r.last().1 as int
        } else {
            0
        }
    }
}

/// `a` holds every token of the releases `r`, enough of each for all of them.
pub open spec fn releases_covered(a: Account, r: Seq<(String, u128)>) -> bool {
    forall|k: int|
        0 <= k < r.len() ==> a.balances().contains_key((#[trigger] r[k]).0@) && released_total(
            r,
            r[k].0@,
        ) <= a.balances()[r[k].0@]
}

proof fn lemma_released_step(r: Seq<(String, u128)>, k: int, t: Seq<char>)
    requires
        0 <= k < r.len(),
    ensures
        released_total(r.subrange(0, k + 1), t) == released_total(r.subrange(0, k), t) + if r[k].0@
            == t {
            r[k].1 as int
        } else {
            0
        },
        released_total(r.subrange(0, k + 1), t) <= released_total(r, t),
    decreases r.len(),
{
    assert(r.subrange(0, k + 1).drop_last() =~= r.subrange(0, k));
    if k + 1 < r.len() {
        assert(r.subrange(0, k + 1) =~= r.drop_last().subrange(0, k + 1));
        assert(r.subrange(0, k) =~= r.drop_last().subrange(0, k));
        lemma_released_step(r.drop_last(), k, t);
    } else {
        assert(r.subrange(0, k + 1) =~= r);
    }
}

proof fn lemma_prefix_key(s: Seq<(String, WrappedBalance)>, i: int)
    requires
        unique_keys(s),
        0 <= i < s.len(),
    ensures
        !has_key(s.subrange(0, i), s[i].0@),
        forall|a: Seq<char>| #[trigger]
            has_key(s.subrange(0, i + 1), a) == (has_key(s.subrange(0, i), a) || s[i].0@ == a),
{
    let pre = s.subrange(0, i);
    let next = s.subrange(0, i + 1);
    if has_key(pre, s[i].0@) {
        let j = index_of(pre, s[i].0@);
        assert(pre[j] == s[j]);
    }
    assert forall|a: Seq<char>| #[trigger] has_key(next, a) == (has_key(pre, a) || s[i].0@ == a) by {
        if has_key(pre, a) {
            let j = index_of(pre, a);
            assert(next[j] == pre[j]);
        }
        if s[i].0@ == a {
            assert(next[i] == s[i]);
        }
        if has_key(next, a) && s[i].0@ != a {
            let j = index_of(next, a);
            assert(j < i);
            assert(pre[j] == next[j]);
        }
    }
}

proof fn lemma_released_nonneg(r: Seq<(String, u128)>, t: Seq<char>)
    ensures
        0 <= released_total(r, t),
    decreases r.len(),
{
    if r.len() > 0 {
        lemma_released_nonneg(r.drop_last(), t);
    }
}

/// Moves `sender_id`'s pooled holdings of every asset but `rusd` into the
/// book, asset by asset in the pool's order.
fn migrate_holdings(
    pool: &mut DebtPool,
    book: &mut AccountBook,
    sender_id: &AccountId,
    rusd: &AccountId,
) -> (r: Result<(), CraftingError>)
    requires
        old(pool).wf(),
        old(book).wf(),
    ensures
        final(pool).wf(),
        final(book).wf(),
        migration_fits(old(pool).positions(), old(pool).rows(), sender_id@, rusd@, *old(book)) ==> r is Ok,
        r is Ok ==> ({
            let s = old(pool).positions();
            let rows = old(pool).rows();
            let moved = |a: Seq<char>| a != rusd@ && has_key(s, a);
            &&& final(pool).positions() == migrated(s, rows, sender_id@, rusd@)
            &&& final(pool).ratios() == old(pool).ratios()
            &&& forall|a: Seq<char>| #[trigger]
                final(pool).contribution(sender_id@, a) == if moved(a) {
                    0
                } else {
                    old(pool).contribution(sender_id@, a)
                }
            &&& forall|u: Seq<char>, a: Seq<char>|
                u != sender_id@ ==> #[trigger] final(pool).contribution(u, a) == old(pool).contribution(u, a)
            &&& forall|a: Seq<char>| #[trigger]
                final(book).balance(sender_id@, a) as int == old(book).balance(sender_id@, a) + if moved(a) {
                    pair_amount(rows, sender_id@, a) as int
                } else {
                    0
                }
            &&& forall|u: Seq<char>, a: Seq<char>|
                u != sender_id@ ==> #[trigger] final(book).balance(u, a) == old(book).balance(u, a)
            &&& forall|a: Seq<char>| #[trigger]
                final(book).total(a) as int == old(book).total(a) + if moved(a) {
                    pair_amount(rows, sender_id@, a) as int
                } else {
                    0
                }
        }),
{
    let ghost mid = *pool;
    let ghost book_mid = *book;
    let ghost s1 = pool.positions();
    let ghost rows0 = pool.rows();
    let ghost r0 = false;
    assert(s1.subrange(0, 0) =~= Seq::<(String, WrappedBalance)>::empty());
    let mut i: usize = 0;
        while i < pool.raft_amounts.len()
            invariant
                s1 == old(pool).positions(),
                rows0 == old(pool).rows(),
                mid == *old(pool),
                book_mid == *old(book),
                unique_keys(s1),
                pool.wf(),
                book.wf(),
                pool.ratios() == mid.ratios(),
                i <= s1.len(),
                pool.positions().len() == s1.len(),
                forall|j: int|
                    0 <= j < s1.len() ==> #[trigger] pool.positions()[j] == if j < i {
                        migrated_entry(s1[j], rows0, sender_id@, rusd@)
                    } else {
                        s1[j]
                    },
                forall|a: Seq<char>| #[trigger]
                    pool.contribution(sender_id@, a) == if a != rusd@ && has_key(
                        s1.subrange(0, i as int),
                        a,
                    ) {
                        0
                    } else {
                        mid.contribution(sender_id@, a)
                    },
                forall|u: Seq<char>, a: Seq<char>|
                    u != sender_id@ ==> #[trigger] pool.contribution(u, a) == mid.contribution(u, a),
                forall|a: Seq<char>| #[trigger]
                    book.balance(sender_id@, a) as int == book_mid.balance(sender_id@, a) + if a
                        != rusd@ && has_key(s1.subrange(0, i as int), a) {
                        pair_amount(rows0, sender_id@, a) as int
                    } else {
                        0
                    },
                forall|u: Seq<char>, a: Seq<char>|
                    u != sender_id@ ==> #[trigger] book.balance(u, a) == book_mid.balance(u, a),
                forall|a: Seq<char>| #[trigger]
                    book.total(a) as int == book_mid.total(a) + if a != rusd@ && has_key(
                        s1.subrange(0, i as int),
                        a,
                    ) {
                        pair_amount(rows0, sender_id@, a) as int
                    } else {
                        0
                    },
            decreases s1.len() - i,
        {
            let key = pool.raft_amounts[i].0.clone();
            proof {
                lemma_prefix_key(s1, i as int);
                assert(key@ == s1[i as int].0@);
            }
            let ghost pool_before = pool;
            let ghost k0 = book;
            if !(key == *rusd) {
                let c = pool.query_user_raft_amount(sender_id, &key);
                if c != 0 {
                    let w = pool.raft_amounts[i].1.minus(c)?;
                    pool.raft_amounts.set(i, (key.clone(), w));
                    proof {
                        let t = pool.positions();
                        assert forall|x: int, y: int|
                            0 <= x < t.len() && 0 <= y < t.len() && x != y implies (#[trigger] t[x]).0@
                            != (#[trigger] t[y]).0@ by {
                            assert(t[x].0@ == s1[x].0@);
                            assert(t[y].0@ == s1[y].0@);
                        }
                    }
                    let ghost pool_set = pool;
                    pool.remove_user_raft_amount(sender_id, &key);
                    book.mint(sender_id, &key, c)?;
                    proof {
                        assert forall|a: Seq<char>| #[trigger]
                            pool.contribution(sender_id@, a) == if a != rusd@ && has_key(
                                s1.subrange(0, i + 1),
                                a,
                            ) {
                                0
                            } else {
                                mid.contribution(sender_id@, a)
                            } by {
                            assert(pool_set.contribution(sender_id@, a) == pool_before.contribution(sender_id@, a));
                        }
                        assert forall|u: Seq<char>, a: Seq<char>|
                            u != sender_id@ implies #[trigger] pool.contribution(u, a) == mid.contribution(u, a) by {
                            assert(pool_set.contribution(u, a) == pool_before.contribution(u, a));
                        }
                    }
                }
            }
            i = i + 1;
        }
    assert(s1.subrange(0, s1.len() as int) =~= s1);
    assert(pool.positions() =~= migrated(s1, rows0, sender_id@, rusd@));
    Ok(())
}

impl Contract {
    /// The settlement asset's identifier, where one is registered.
    pub open spec fn settlement_asset(&self) -> Option<String> {
        match first_settlement(self.raft_list@) {
            Some(i) => Some(self.raft_list@[i].0),
            None => None,
        }
    }

    /// The synthetic asset with symbol `rUSD`, first in registration order.
    pub fn query_rusd(&self) -> (r: Option<AccountId>)
        ensures
            r == self.settlement_asset(),
    {
        let ghost s = self.raft_list@;
        let mut i: usize = 0;
        assert(s.subrange(0, s.len() as int) =~= s);
        while i < self.raft_list.len()
            invariant
                s == self.raft_list@,
                i <= s.len(),
                first_settlement(s) == match first_settlement(s.subrange(i as int, s.len() as int)) {
                    Some(j) => Some(j + i),
                    None => None::<int>,
                },
            decreases s.len() - i,
        {
            let ghost rest = s.subrange(i as int, s.len() as int);
            assert(rest.drop_first() =~= s.subrange(i + 1, s.len() as int));
            assert(rest[0] == s[i as int]);
            if is_settlement_symbol(&self.raft_list[i].1.symbol) {
                return Some(self.raft_list[i].0.clone());
            }
            i = i + 1;
        }
        assert(s.subrange(s.len() as int, s.len() as int).len() == 0);
        None
    }

    /// What `user` owes the pool: their ratio's share of its total value.
    pub open spec fn pool_debt(&self, user: Seq<char>) -> int {
        total_value(self.debt_pool.positions(), self.price_oracle@) * self.debt_pool.ratio(user)
            / (RATIO_DIVISOR as int)
    }

    /// Why an individual redemption of `collateral_id` by `sender_id` is
    /// refused, if it is.
    pub open spec fn redeem_in_accountbook_error(&self, sender_id: Seq<char>, collateral_id: u64) -> Option<
        CraftingError,
    > {
        let c = self.collaterals@[collateral_id as int];
        let book = self.account_book;
        let fee = fee_of(c.raft_amount, self.interest_fee);
        let account = self.account(sender_id);
        if !self.running() {
            Some(CraftingError::ContractPaused)
        } else if collateral_id >= self.collaterals@.len() {
            Some(CraftingError::CollateralNotFound)
        } else if c.issuer@ != sender_id {
            Some(CraftingError::NotIssuer)
        } else if c.join_debtpool {
            Some(CraftingError::NotIndividualCollateral)
        } else if c.state != COLLATERAL_OPEN {
            Some(CraftingError::InvalidCollateralState)
        } else if c.raft_amount * self.interest_fee > u128::MAX {
            Some(CraftingError::Overflow)
        } else if book.total(c.raft@) < c.raft_amount || book.balance(sender_id, c.raft@)
            < c.raft_amount + fee {
            Some(CraftingError::InsufficientBalance)
        } else if book.balance(self.owner_id@, c.raft@) + fee > u128::MAX {
            Some(CraftingError::Overflow)
        } else if account is None {
            Some(CraftingError::AccountNotRegistered)
        } else if !account->0.balances().contains_key(c.token@) {
            Some(CraftingError::TokenNotRegistered)
        } else if account->0.balances()[c.token@] < c.token_amount {
            Some(CraftingError::NotEnoughTokens)
        } else if crate::account::storage_cost(account->0.entries().len())
            > account->0.near_amount {
            Some(CraftingError::InsufficientStorage)
        } else {
            None
        }
    }

    /// Redeems one individual record of the caller: burns the minted amount
    /// plus the interest fee from the caller's book holding (the fee goes to
    /// the owner), debits the locked collateral from the caller's account,
    /// marks the record redeemed, and returns the release to transfer.
    pub fn redeem_in_accountbook(&mut self, sender_id: &AccountId, collateral_id: CollateralId) -> (r:
        Result<(AccountId, u128), CraftingError>)
        requires
            old(self).wf(),
        ensures
            final(self).wf(),
            match old(self).redeem_in_accountbook_error(sender_id@, collateral_id) {
                Some(e) => r == Err::<(AccountId, u128), CraftingError>(e),
                None => r is Ok,
            },
            r is Err ==> *final(self) == *old(self),
            r matches Ok(release) ==> ({
                let c = old(self).collaterals@[collateral_id as int];
                let book = old(self).account_book;
                let fee = fee_of(c.raft_amount, old(self).interest_fee);
                &&& release == (c.token, c.token_amount)
                &&& final(self).collaterals@ == old(self).collaterals@.update(
                    collateral_id as int,
                    Collateral { state: COLLATERAL_REDEEMED, ..c },
                )
                &&& held(final(self).account(sender_id@), c.token@) == held(
                    old(self).account(sender_id@),
                    c.token@,
                ) - c.token_amount
                &&& final(self).account_book.total(c.raft@) == book.total(c.raft@) - c.raft_amount
                &&& forall|u: Seq<char>, a: Seq<char>|
                    #![trigger final(self).account_book.balance(u, a)]
                    final(self).account_book.balance(u, a) as int == if u == sender_id@ && a
                        == c.raft@ {
                        book.balance(u, a) - c.raft_amount - fee
                    } else if u == old(self).owner_id@ && a == c.raft@ {
                        book.balance(u, a) + fee
                    } else {
                        book.balance(u, a) as int
                    }
                &&& final(self).debt_pool == old(self).debt_pool
                &&& forall|a: Seq<char>|
                    a != c.raft@ ==> #[trigger] final(self).account_book.total(a) == book.total(a)
                &&& forall|q: Seq<char>|
                    q != sender_id@ ==> #[trigger] final(self).account(q) == old(self).account(q)
                &&& final(self).user_collaterals == old(self).user_collaterals
                &&& Contract::settings_kept(*old(self), *final(self))
            }),
    {
        self.assert_contract_running()?;
        let collateral = match self.query_collateral(collateral_id) {
            Some(c) => c,
            None => {
                return Err(CraftingError::CollateralNotFound);
            },
        };
        if collateral.issuer != *sender_id {
            return Err(CraftingError::NotIssuer);
        }
        if collateral.join_debtpool {
            return Err(CraftingError::NotIndividualCollateral);
        }
        if collateral.state != COLLATERAL_OPEN {
            return Err(CraftingError::InvalidCollateralState);
        }
        proof {
            crate::trading::lemma_fee_bound(collateral.raft_amount, self.interest_fee);
        }
        let interest_fee_amount = match collateral.raft_amount.checked_mul(self.interest_fee as u128) {
            Some(v) => v / (crate::utils::FEE_DIVISOR as u128),
            None => {
                return Err(CraftingError::Overflow);
            },
        };
        let raft_amount = self.account_book.query_raft_amount(&collateral.raft);
        let user_raft_amount = self.account_book.query_user_raft_amount(sender_id, &collateral.raft);
        let burnt = collateral.raft_amount as u128;
        if raft_amount < burnt || user_raft_amount < burnt || user_raft_amount - burnt
            < interest_fee_amount {
            return Err(CraftingError::InsufficientBalance);
        }
        let mut book = self.account_book.duplicate();
        let ghost b0 = book;
        let owner_raft_amount = book.query_user_raft_amount(&self.owner_id, &collateral.raft);
        let owner_credit = match owner_raft_amount.checked_add(interest_fee_amount) {
            Some(v) => v,
            None => {
                return Err(CraftingError::Overflow);
            },
        };
        let mut account = self.internal_unwrap_account(sender_id)?;
        let ghost a0 = account;
        assert(a0.balances() == self.account(sender_id@)->0.balances());
        account.withdraw(&collateral.token, collateral.token_amount)?;
        account.assert_storage_usage()?;
        book.insert_user_raft_amount(&self.owner_id, &collateral.raft, owner_credit);
        let ghost b1 = book;
        book.insert_user_raft_amount(
            sender_id,
            &collateral.raft,
            user_raft_amount - burnt - interest_fee_amount,
        );
        let ghost b2 = book;
        book.insert_raft_amount(&collateral.raft, raft_amount - burnt);
        proof {
            let fee = interest_fee_amount as int;
            assert forall|u: Seq<char>, a: Seq<char>|
                #![trigger book.balance(u, a)]
                book.balance(u, a) as int == if u == sender_id@ && a == collateral.raft@ {
                    b0.balance(u, a) - burnt - fee
                } else if u == self.owner_id@ && a == collateral.raft@ {
                    b0.balance(u, a) + fee
                } else {
                    b0.balance(u, a) as int
                } by {
                assert(book.balance(u, a) == b2.balance(u, a));
            }
            assert forall|a: Seq<char>| a != collateral.raft@ implies #[trigger] book.total(a)
                == b0.total(a) by {
                assert(b2.total(a) == b1.total(a));
                assert(b1.total(a) == b0.total(a));
            }
        }
        let ghost before = *self;
        let ghost acct_before = account;
        self.account_book = book;
        self.store_account(sender_id, account);
        let ghost after_store = *self;
        assert(self.account(sender_id@) == Some(acct_before));
        assert(self.account_book.total(collateral.raft@) == raft_amount - burnt);
        assert(held(self.account(sender_id@), collateral.token@) == held(
            before.account(sender_id@),
            collateral.token@,
        ) - collateral.token_amount);
        let token = collateral.token.clone();
        let token_amount = collateral.token_amount;
        let redeemed = Collateral { state: COLLATERAL_REDEEMED, ..collateral };
        let ghost redeemed_view = redeemed;
        assert(before.collaterals@ == self.collaterals@);
        let n: usize = self.collaterals.len();
        assert(collateral_id < n);
        let idx = collateral_id as usize;
        assert(idx as int == collateral_id as int);
        self.collaterals.set(idx, redeemed);
        assert(self.collaterals@ =~= before.collaterals@.update(collateral_id as int, redeemed_view));
        assert(forall|a: Seq<char>|
            a != collateral.raft@ ==> #[trigger] self.account_book.total(a) == before.account_book.total(a));
        assert(self.account_book.total(collateral.raft@) == before.account_book.total(collateral.raft@) - burnt);
        assert forall|q: Seq<char>| q != sender_id@ implies #[trigger] self.account(q) == before.account(q) by {
            assert(after_store.account(q) == before.account(q));
            assert(self.accounts == after_store.accounts);
        }
        assert(Contract::settings_kept(before, *self));
        Ok((token, token_amount))
    }

    /// Why a pooled redemption by `sender_id` is refused before any
    /// settlement, if it is.
    pub open spec fn redeem_in_debtpool_error(&self, sender_id: Seq<char>) -> Option<CraftingError> {
        let s = self.debt_pool.positions();
        let prices = self.price_oracle@;
        let total = total_value(s, prices);
        if !self.running() {
            Some(CraftingError::ContractPaused)
        } else if self.settlement_asset() is None {
            Some(CraftingError::SettlementAssetMissing)
        } else if ids_of(self.user_collaterals@, sender_id).len() == 0 {
            Some(CraftingError::NoCollaterals)
        } else if !all_priced(s, prices) {
            Some(CraftingError::PriceNotFound)
        } else if held_value(s, prices) > u128::MAX || owed_value(s, prices) > u128::MAX {
            Some(CraftingError::Overflow)
        } else if total < 0 {
            Some(CraftingError::InvalidTotalValue)
        } else if total * self.debt_pool.ratio(sender_id) > u128::MAX {
            Some(CraftingError::Overflow)
        } else {
            None
        }
    }

    /// The debt of `sender_id` counted in units of the settlement asset.
    pub open spec fn debt_amount(&self, sender_id: Seq<char>) -> int {
        self.pool_debt(sender_id) / (PRICE_PRECISION as int)
    }

    /// Whether the caller's pooled settlement holding covers the debt.
    pub open spec fn debt_covered(&self, sender_id: Seq<char>) -> bool {
        let rusd = self.settlement_asset()->0@;
        self.pool_debt(sender_id) <= self.debt_pool.contribution(sender_id, rusd) * PRICE_PRECISION
    }

    /// What leaves the caller's pooled settlement row: the debt where it is
    /// covered, else the whole row.
    pub open spec fn pooled_paid(&self, sender_id: Seq<char>) -> int {
        let rusd = self.settlement_asset()->0@;
        if self.debt_covered(sender_id) {
            self.debt_amount(sender_id)
        } else {
            self.debt_pool.contribution(sender_id, rusd) as int
        }
    }

    /// The pool's positions once the debt is paid.
    pub open spec fn settled_positions(&self, sender_id: Seq<char>) -> Seq<(String, WrappedBalance)> {
        let rusd = self.settlement_asset()->0;
        upsert(
            self.debt_pool.positions(),
            rusd,
            WrappedBalance::from_value(self.debt_pool.position(rusd@) - self.pooled_paid(sender_id)),
        )
    }

    /// The pool's positions after a pooled redemption by `sender_id`.
    pub open spec fn redeemed_positions(&self, sender_id: Seq<char>) -> Seq<(String, WrappedBalance)> {
        migrated(
            self.settled_positions(sender_id),
            self.debt_pool.rows(),
            sender_id,
            self.settlement_asset()->0@,
        )
    }

    /// The releases of a pooled redemption by `sender_id`.
    pub open spec fn redeem_releases(&self, sender_id: Seq<char>) -> Seq<(String, u128)> {
        pooled_releases(self.collaterals@, ids_of(self.user_collaterals@, sender_id))
    }

    /// Whether every later step of a pooled redemption by `sender_id` goes
    /// through: the settlement and each move fit, the pool's value after is
    /// priced, fits and is not negative, the rescaling fits, and the caller's
    /// account holds every released collateral and affords its storage.
    pub open spec fn redeem_completes(&self, sender_id: Seq<char>) -> bool {
        let rusd = self.settlement_asset()->0@;
        let prices = self.price_oracle@;
        let f = self.redeemed_positions(sender_id);
        let r = self.redeem_releases(sender_id);
        &&& WrappedBalance::holds(self.debt_pool.position(rusd) - self.pooled_paid(sender_id))
        &&& migration_fits(
            self.settled_positions(sender_id),
            self.debt_pool.rows(),
            sender_id,
            rusd,
            self.account_book,
        )
        &&& all_priced(f, prices)
        &&& held_value(f, prices) <= u128::MAX
        &&& owed_value(f, prices) <= u128::MAX
        &&& total_value(f, prices) >= 0
        &&& total_value(f, prices) > 0 ==> scale_fits(
            without(self.debt_pool.ratios(), sender_id),
            total_value(self.debt_pool.positions(), prices),
        )
        &&& r.len() > 0 ==> (self.account(sender_id) matches Some(a) && releases_covered(a, r)
            && crate::account::storage_cost(a.entries().len()) <= a.near_amount)
    }

    /// Whether the caller's debt exceeds both their pooled holding of the
    /// settlement asset and their book holding of it together (or the book's
    /// total of it).
    pub open spec fn redeem_shortfall(&self, sender_id: Seq<char>) -> bool {
        let rusd = self.settlement_asset()->0@;
        let debt = self.pool_debt(sender_id);
        let amount = debt / (PRICE_PRECISION as int);
        let pooled = self.debt_pool.contribution(sender_id, rusd) as int;
        &&& debt > pooled * PRICE_PRECISION
        &&& (amount > pooled + self.account_book.balance(sender_id, rusd) || amount - pooled
            > self.account_book.total(rusd))
    }

    /// Whether record `i` is released by a pooled redemption of `sender_id`.
    pub open spec fn released_by(&self, sender_id: Seq<char>, i: int) -> bool {
        &&& ids_of(self.user_collaterals@, sender_id).contains(i as u64)
        &&& self.collaterals@[i].join_debtpool
        &&& self.collaterals@[i].state == COLLATERAL_OPEN
    }

    /// The releases of the open pooled records among `ids`, and the indices
    /// of those records.
    fn pooled_releases_of(&self, ids: &Vec<CollateralId>) -> (r: (Vec<(AccountId, u128)>, Vec<
        CollateralId,
    >))
        ensures
            r.0@ == pooled_releases(self.collaterals@, ids@),
            r.1@ == open_pooled_ids(self.collaterals@, ids@),
    {
        let mut out: Vec<(AccountId, u128)> = Vec::new();
        let mut marked: Vec<CollateralId> = Vec::new();
        let n: usize = self.collaterals.len();
        let mut k: usize = 0;
        while k < ids.len()
            invariant
                n == self.collaterals@.len(),
                k <= ids@.len(),
                out@ == pooled_releases(self.collaterals@, ids@.subrange(0, k as int)),
                marked@ == open_pooled_ids(self.collaterals@, ids@.subrange(0, k as int)),
            decreases ids@.len() - k,
        {
            let id = ids[k];
            let ghost next = ids@.subrange(0, k + 1);
            assert(next.drop_last() =~= ids@.subrange(0, k as int));
            assert(next.last() == id);
            if id < n as u64 {
                assert(id < n);
                let c = &self.collaterals[id as usize];
                assert(*c == self.collaterals@[id as int]);
                if c.join_debtpool && c.state == COLLATERAL_OPEN {
                    out.push((c.token.clone(), c.token_amount));
                    marked.push(id);
                }
            }
            assert(out@ =~= pooled_releases(self.collaterals@, next));
            assert(marked@ =~= open_pooled_ids(self.collaterals@, next));
            k = k + 1;
        }
        assert(ids@.subrange(0, ids@.len() as int) =~= ids@);
        (out, marked)
    }

    /// Marks each record of `marked` redeemed.
    fn mark_redeemed(&mut self, marked: &Vec<CollateralId>, sender_id: &AccountId)
        requires
            old(self).wf(),
            forall|k: int| 0 <= k < marked@.len() ==> (#[trigger] marked@[k]) < old(self).collaterals@.len(),
        ensures
            final(self).wf(),
            final(self).collaterals@.len() == old(self).collaterals@.len(),
            forall|i: int|
                0 <= i < old(self).collaterals@.len() ==> #[trigger] final(self).collaterals@[i] == if marked@.contains(
                    i as u64,
                ) {
                    Collateral { state: COLLATERAL_REDEEMED, ..old(self).collaterals@[i] }
                } else {
                    old(self).collaterals@[i]
                },
            final(self).accounts == old(self).accounts,
            final(self).debt_pool == old(self).debt_pool,
            final(self).account_book == old(self).account_book,
            final(self).price_oracle == old(self).price_oracle,
            final(self).user_collaterals == old(self).user_collaterals,
            final(self).owner_id == old(self).owner_id,
            final(self).whitelisted_tokens == old(self).whitelisted_tokens,
            final(self).token_list == old(self).token_list,
            final(self).raft_list == old(self).raft_list,
            Contract::settings_kept(*old(self), *final(self)),
    {
        let n: usize = self.collaterals.len();
        let mut k: usize = 0;
        while k < marked.len()
            invariant
                n == self.collaterals@.len(),
                n == old(self).collaterals@.len(),
                k <= marked@.len(),
                forall|m: int| 0 <= m < marked@.len() ==> (#[trigger] marked@[m]) < n,
                forall|i: int|
                    0 <= i < n ==> #[trigger] self.collaterals@[i] == if marked@.subrange(
                        0,
                        k as int,
                    ).contains(i as u64) {
                        Collateral { state: COLLATERAL_REDEEMED, ..old(self).collaterals@[i] }
                    } else {
                        old(self).collaterals@[i]
                    },
                self.wf(),
                self.accounts == old(self).accounts,
                self.debt_pool == old(self).debt_pool,
                self.account_book == old(self).account_book,
                self.price_oracle == old(self).price_oracle,
                self.user_collaterals == old(self).user_collaterals,
                self.owner_id == old(self).owner_id,
                self.whitelisted_tokens == old(self).whitelisted_tokens,
                self.token_list == old(self).token_list,
                self.raft_list == old(self).raft_list,
                self.interest_fee == old(self).interest_fee,
                self.exchange_fee == old(self).exchange_fee,
                Contract::settings_kept(*old(self), *self),
            decreases marked@.len() - k,
        {
            let id = marked[k];
            let idx = id as usize;
            let c = self.collaterals[idx].duplicate();
            let redeemed = Collateral { state: COLLATERAL_REDEEMED, ..c };
            let ghost pre = marked@.subrange(0, k as int);
            let ghost next = marked@.subrange(0, k + 1);
            let ghost before = self.collaterals@;
            self.collaterals.set(idx, redeemed);
            assert forall|i: int|
                0 <= i < n implies #[trigger] self.collaterals@[i] == if next.contains(i as u64) {
                    Collateral { state: COLLATERAL_REDEEMED, ..old(self).collaterals@[i] }
                } else {
                    old(self).collaterals@[i]
                } by {
                if pre.contains(i as u64) {
                    let m = choose|m: int| 0 <= m < pre.len() && pre[m] == i as u64;
                    assert(next[m] == pre[m]);
                }
                if next.contains(i as u64) && !pre.contains(i as u64) {
                    let m = choose|m: int| 0 <= m < next.len() && next[m] == i as u64;
                    if m < k {
                        assert(pre[m] == next[m]);
                    }
                }
                if i == idx {
                    assert(next[k as int] == id);
                }
            }
            k = k + 1;
        }
        assert(marked@.subrange(0, marked@.len() as int) =~= marked@);
    }

    /// Debits the collateral of each of `releases` from `sender_id`'s
    /// account; with no release the account is left alone.
    fn debit_releases(&self, sender_id: &AccountId, releases: &Vec<(AccountId, u128)>) -> (r: Result<
        Option<Account>,
        CraftingError,
    >)
        requires
            self.wf(),
        ensures
            releases@.len() == 0 ==> r == Ok::<Option<Account>, CraftingError>(None),
            releases@.len() > 0 && (self.account(sender_id@) matches Some(a) && releases_covered(
                a,
                releases@,
            ) && crate::account::storage_cost(a.entries().len()) <= a.near_amount) ==> r is Ok,
            r is Ok && releases@.len() > 0 ==> r matches Ok(Some(_)),
            r matches Ok(Some(acct)) ==> acct.wf() && releases@.len() > 0 && forall|t: Seq<char>|
                #[trigger] held(Some(acct), t) == held(self.account(sender_id@), t) - released_total(
                    releases@,
                    t,
                ),
    {
        if releases.len() == 0 {
            return Ok(None);
        }
        let mut account = self.internal_unwrap_account(sender_id)?;
        let ghost a0 = account;
        let ghost r = releases@;
        let mut k: usize = 0;
        assert(r.subrange(0, 0) =~= Seq::<(String, u128)>::empty());
        while k < releases.len()
            invariant
                self.wf(),
                r == releases@,
                self.account(sender_id@) is Some,
                a0.balances() == self.account(sender_id@)->0.balances(),
                a0.entries().len() == self.account(sender_id@)->0.entries().len(),
                a0.near_amount == self.account(sender_id@)->0.near_amount,
                account.wf(),
                k <= r.len(),
                account.entries().len() == a0.entries().len(),
                account.near_amount == a0.near_amount,
                forall|t: Seq<char>| #[trigger]
                    account.balances().contains_key(t) == a0.balances().contains_key(t),
                forall|t: Seq<char>|
                    a0.balances().contains_key(t) ==> #[trigger] account.balances()[t] == a0.balances()[t]
                        - released_total(r.subrange(0, k as int), t),
                forall|t: Seq<char>|
                    !a0.balances().contains_key(t) ==> #[trigger] released_total(r.subrange(0, k as int), t)
                        == 0,
            decreases r.len() - k,
        {
            let ghost before = account;
            proof {
                let t0 = r[k as int].0@;
                lemma_released_step(r, k as int, t0);
                if releases_covered(a0, r) {
                    assert(a0.balances().contains_key(t0));
                }
            }
            account.withdraw(&releases[k].0, releases[k].1)?;
            proof {
                assert forall|t: Seq<char>| #[trigger] account.balances().contains_key(t)
                    == a0.balances().contains_key(t) by {
                    assert(before.balances().contains_key(t) == a0.balances().contains_key(t));
                }
                assert forall|t: Seq<char>|
                    a0.balances().contains_key(t) implies #[trigger] account.balances()[t]
                    == a0.balances()[t] - released_total(r.subrange(0, k + 1), t) by {
                    lemma_released_step(r, k as int, t);
                }
                assert forall|t: Seq<char>|
                    !a0.balances().contains_key(t) implies #[trigger] released_total(r.subrange(0, k + 1), t)
                    == 0 by {
                    lemma_released_step(r, k as int, t);
                }
            }
            k = k + 1;
        }
        account.assert_storage_usage()?;
        proof {
            assert(r.subrange(0, r.len() as int) =~= r);
        }
        Ok(Some(account))
    }

    /// Redeems the caller's whole pool position. The debt, the caller's
    /// ratio's share of the pool's value counted in the settlement asset, is
    /// paid from the caller's pooled holding of that asset; what is left of
    /// that holding stays in the pool. Where the holding falls short, all of
    /// it goes and the rest comes from the caller's book holding. The
    /// caller's ratio is dropped, their other pooled holdings move to the
    /// book, and the remaining ratios are rescaled by the pool's value before
    /// over its value after. Every open pooled record of the caller is
    /// marked redeemed and its collateral debited from the caller's account;
    /// the releases to transfer are returned in order.
    pub fn redeem_in_debtpool(&mut self, sender_id: &AccountId) -> (r: Result<
        Vec<(AccountId, u128)>,
        CraftingError,
    >)
        requires
            old(self).wf(),
        ensures
            final(self).wf(),
            match old(self).redeem_in_debtpool_error(sender_id@) {
                Some(e) => r == Err::<Vec<(AccountId, u128)>, CraftingError>(e),
                None => old(self).redeem_shortfall(sender_id@) ==> r == Err::<
                    Vec<(AccountId, u128)>,
                    CraftingError,
                >(CraftingError::InsufficientBalance),
            },
            r is Ok ==> old(self).redeem_in_debtpool_error(sender_id@) is None && !old(
                self,
            ).redeem_shortfall(sender_id@),
            old(self).redeem_in_debtpool_error(sender_id@) is None && !old(self).redeem_shortfall(
                sender_id@,
            ) && old(self).redeem_completes(sender_id@) ==> r is Ok,
            r is Err ==> *final(self) == *old(self),
            r matches Ok(releases) ==> ({
                let o = old(self);
                let prices = o.price_oracle@;
                let rusd = o.settlement_asset()->0@;
                let old_total = total_value(o.debt_pool.positions(), prices);
                let new_total = total_value(final(self).debt_pool.positions(), prices);
                let remaining = without(o.debt_pool.ratios(), sender_id@);
                let drawn = if o.debt_covered(sender_id@) {
                    0
                } else {
                    o.debt_amount(sender_id@) - o.debt_pool.contribution(sender_id@, rusd)
                };
                &&& releases@ == o.redeem_releases(sender_id@)
                &&& final(self).debt_pool.positions() == o.redeemed_positions(sender_id@)
                &&& !has_key(final(self).debt_pool.ratios(), sender_id@)
                &&& final(self).debt_pool.ratios() == if new_total > 0 {
                    scaled(remaining, old_total, new_total)
                } else {
                    remaining
                }
                &&& forall|u: Seq<char>, a: Seq<char>|
                    #![trigger final(self).debt_pool.contribution(u, a)]
                    final(self).debt_pool.contribution(u, a) as int == if u == sender_id@ && a == rusd {
                        o.debt_pool.contribution(u, a) - o.pooled_paid(sender_id@)
                    } else if u == sender_id@ && has_key(o.debt_pool.positions(), a) {
                        0
                    } else {
                        o.debt_pool.contribution(u, a) as int
                    }
                &&& forall|u: Seq<char>, a: Seq<char>|
                    #![trigger final(self).account_book.balance(u, a)]
                    final(self).account_book.balance(u, a) as int == if u == sender_id@ && a == rusd {
                        o.account_book.balance(u, a) - drawn
                    } else if u == sender_id@ && has_key(o.debt_pool.positions(), a) {
                        o.account_book.balance(u, a) + o.debt_pool.contribution(u, a)
                    } else {
                        o.account_book.balance(u, a) as int
                    }
                &&& forall|a: Seq<char>| #[trigger]
                    final(self).account_book.total(a) as int == if a == rusd {
                        o.account_book.total(a) - drawn
                    } else if has_key(o.debt_pool.positions(), a) {
                        o.account_book.total(a) + o.debt_pool.contribution(sender_id@, a)
                    } else {
                        o.account_book.total(a) as int
                    }
                &&& forall|t: Seq<char>| #[trigger]
                    held(final(self).account(sender_id@), t) == held(o.account(sender_id@), t)
                        - released_total(releases@, t)
                &&& forall|q: Seq<char>|
                    q != sender_id@ ==> #[trigger] final(self).account(q) == o.account(q)
                &&& final(self).collaterals@.len() == o.collaterals@.len()
                &&& forall|i: int|
                    0 <= i < o.collaterals@.len() ==> #[trigger] final(self).collaterals@[i] == if o.released_by(sender_id@, i) {
                        Collateral { state: COLLATERAL_REDEEMED, ..o.collaterals@[i] }
                    } else {
                        o.collaterals@[i]
                    }
                &&& final(self).user_collaterals == o.user_collaterals
                &&& Contract::settings_kept(*o, *final(self))
            }),
    {
        self.assert_contract_running()?;
        let rusd = match self.query_rusd() {
            Some(a) => a,
            None => {
                return Err(CraftingError::SettlementAssetMissing);
            },
        };
        let ids = self.query_user_collateral_ids(sender_id);
        if ids.len() == 0 {
            return Err(CraftingError::NoCollaterals);
        }
        let user_debt_ratio = self.debt_pool.query_debt_ratio(sender_id);
        let total_value_w = self.debt_pool.calc_raft_total_value(&self.price_oracle)?;
        proof {
            crate::debtpool::lemma_total_parts(self.debt_pool.positions(), self.price_oracle@);
        }
        if !total_value_w.is_positive {
            return Err(CraftingError::InvalidTotalValue);
        }
        let raft_total_value = total_value_w.amount;
        let user_debt = match raft_total_value.checked_mul(user_debt_ratio) {
            Some(v) => v / RATIO_DIVISOR,
            None => {
                return Err(CraftingError::Overflow);
            },
        };
        let user_debt_amount = user_debt / (PRICE_PRECISION as u128);
        let pooled = self.debt_pool.query_user_raft_amount(sender_id, &rusd);
        let covered = match pooled.checked_mul(PRICE_PRECISION as u128) {
            Some(v) => user_debt <= v,
            None => true,
        };
        let mut pool = self.debt_pool.duplicate();
        let mut book = self.account_book.duplicate();
        if covered {
            assert(user_debt_amount <= pooled) by (nonlinear_arith)
                requires
                    user_debt <= pooled * 100_000,
                    user_debt_amount == user_debt / 100_000,
            ;
            let ghost before_settle = pool;
            pool.insert_user_raft_amount(sender_id, &rusd, pooled - user_debt_amount);
            let ghost mid_settle = pool;
            pool.calc_sub_raft_amount(&rusd, user_debt_amount)?;
            proof {
                crate::table::lemma_upsert(
                    mid_settle.positions(),
                    rusd,
                    WrappedBalance::from_value(mid_settle.position(rusd@) - user_debt_amount),
                );
                assert forall|u: Seq<char>, a: Seq<char>| #[trigger] pool.contribution(u, a)
                    == if u == sender_id@ && a == rusd@ {
                    (pooled - user_debt_amount) as u128
                } else {
                    before_settle.contribution(u, a)
                } by {
                    assert(pool.contribution(u, a) == mid_settle.contribution(u, a));
                }
            }
        } else {
            assert(user_debt_amount >= pooled) by (nonlinear_arith)
                requires
                    user_debt > pooled * 100_000,
                    user_debt_amount == user_debt / 100_000,
            ;
            let book_balance = book.query_user_raft_amount(sender_id, &rusd);
            if user_debt_amount - pooled > book_balance {
                return Err(CraftingError::InsufficientBalance);
            }
            book.withdraw(sender_id, &rusd, user_debt_amount - pooled)?;
            let ghost before_settle = pool;
            pool.remove_user_raft_amount(sender_id, &rusd);
            let ghost mid_settle = pool;
            pool.calc_sub_raft_amount(&rusd, pooled)?;
            proof {
                crate::table::lemma_upsert(
                    mid_settle.positions(),
                    rusd,
                    WrappedBalance::from_value(mid_settle.position(rusd@) - pooled),
                );
                assert forall|u: Seq<char>, a: Seq<char>| #[trigger] pool.contribution(u, a)
                    == if u == sender_id@ && a == rusd@ {
                    0
                } else {
                    before_settle.contribution(u, a)
                } by {
                    assert(pool.contribution(u, a) == mid_settle.contribution(u, a));
                }
            }
        }
        proof {
            let o = old(self);
            let drawn = if o.debt_covered(sender_id@) {
                0
            } else {
                o.debt_amount(sender_id@) - o.debt_pool.contribution(sender_id@, rusd@)
            };
            assert(has_key(pool.positions(), rusd@));
            assert(pool.positions() == o.settled_positions(sender_id@));
            assert forall|u: Seq<char>, a: Seq<char>| #[trigger]
                pool.contribution(u, a) as int == if u == sender_id@ && a == rusd@ {
                    o.debt_pool.contribution(u, a) - o.pooled_paid(sender_id@)
                } else {
                    o.debt_pool.contribution(u, a) as int
                } by {}
            assert forall|u: Seq<char>, a: Seq<char>| #[trigger]
                book.balance(u, a) as int == if u == sender_id@ && a == rusd@ {
                    o.account_book.balance(u, a) - drawn
                } else {
                    o.account_book.balance(u, a) as int
                } by {}
            assert forall|a: Seq<char>| #[trigger]
                book.total(a) as int == if a == rusd@ {
                    o.account_book.total(a) - drawn
                } else {
                    o.account_book.total(a) as int
                } by {}
        }
        let ghost settled = pool;
        pool.remove_debt_ratio(sender_id);
        let ghost mid = pool;
        let ghost book_mid = book;
        let ghost s1 = pool.positions();
        let ghost rows0 = old(self).debt_pool.rows();
        proof {
            assert(s1 == old(self).settled_positions(sender_id@));
            crate::table::lemma_upsert(
                old(self).debt_pool.positions(),
                rusd,
                WrappedBalance::from_value(
                    old(self).debt_pool.position(rusd@) - old(self).pooled_paid(sender_id@),
                ),
            );
            assert(s1.subrange(0, 0) =~= Seq::<(String, WrappedBalance)>::empty());
        }
        proof {
            assert forall|a: Seq<char>| a != rusd@ implies #[trigger] mid.contribution(sender_id@, a)
                == pair_amount(rows0, sender_id@, a) && book_mid.total(a) == old(self).account_book.total(a)
                && book_mid.balance(sender_id@, a) == old(self).account_book.balance(sender_id@, a) by {
                assert(mid.contribution(sender_id@, a) == settled.contribution(sender_id@, a));
                assert(settled.contribution(sender_id@, a) == old(self).debt_pool.contribution(sender_id@, a));
                assert(book_mid.total(a) as int == old(self).account_book.total(a));
                assert(book_mid.balance(sender_id@, a) as int == old(self).account_book.balance(sender_id@, a));
            }
            if old(self).redeem_completes(sender_id@) {
                assert forall|j: int|
                    0 <= j < s1.len() && (#[trigger] s1[j]).0@ != rusd@ && pair_amount(mid.rows(), sender_id@, s1[j].0@)
                        != 0 implies {
                        let c = pair_amount(mid.rows(), sender_id@, s1[j].0@);
                        &&& WrappedBalance::holds(s1[j].1.value() - c)
                        &&& book_mid.total(s1[j].0@) + c <= u128::MAX
                        &&& book_mid.balance(sender_id@, s1[j].0@) + c <= u128::MAX
                    } by {
                    assert(mid.contribution(sender_id@, s1[j].0@) == settled.contribution(sender_id@, s1[j].0@));
                    assert(book_mid.total(s1[j].0@) as int == old(self).account_book.total(s1[j].0@));
                    assert(book_mid.balance(sender_id@, s1[j].0@) as int == old(self).account_book.balance(sender_id@, s1[j].0@));
                }
                assert(migration_fits(s1, mid.rows(), sender_id@, rusd@, book_mid));
            }
        }
        migrate_holdings(&mut pool, &mut book, sender_id, &rusd)?;
        let ghost after_migration = pool;
        proof {
            let f = old(self).redeemed_positions(sender_id@);
            assert forall|j: int| 0 <= j < s1.len() implies #[trigger] migrated(
                s1,
                mid.rows(),
                sender_id@,
                rusd@,
            )[j] == f[j] by {
                if s1[j].0@ != rusd@ {
                    assert(mid.contribution(sender_id@, s1[j].0@) == pair_amount(rows0, sender_id@, s1[j].0@));
                }
            }
            assert(pool.positions() =~= f);
        }
        let new_total_w = pool.calc_raft_total_value(&self.price_oracle)?;
        proof {
            crate::debtpool::lemma_total_parts(pool.positions(), self.price_oracle@);
        }
        if !new_total_w.is_positive {
            return Err(CraftingError::InvalidTotalValue);
        }
        assert(pool.ratios() == without(old(self).debt_pool.ratios(), sender_id@));
        pool.calc_all_debt_ratio(raft_total_value, new_total_w.amount)?;
        let (releases, marked) = self.pooled_releases_of(&ids);
        let n: usize = self.collaterals.len();
        proof {
            assert(n <= u64::MAX);
            lemma_open_pooled_bound(self.collaterals@, ids@);
            assert forall|i: int|
                0 <= i < self.collaterals@.len() implies (marked@.contains(i as u64)
                <==> old(self).released_by(sender_id@, i)) by {
                lemma_open_pooled_ids(self.collaterals@, ids@, i);
            }
        }
        let account_opt = self.debit_releases(sender_id, &releases)?;
        let ghost account_g = account_opt;
        let ghost pre_commit = *self;
        self.debt_pool = pool;
        self.account_book = book;
        let ghost pre_store = *self;
        match account_opt {
            Some(account) => {
                self.store_account(sender_id, account);
            },
            None => {},
        }
        let ghost pre_mark = *self;
        self.mark_redeemed(&marked, sender_id);
        proof {
            assert forall|q: Seq<char>| q != sender_id@ implies #[trigger] self.account(q) == old(
                self,
            ).account(q) by {
                assert(self.account(q) == pre_mark.account(q));
                assert(pre_store.account(q) == old(self).account(q));
            }
            assert forall|t: Seq<char>| #[trigger]
                held(self.account(sender_id@), t) == held(old(self).account(sender_id@), t)
                    - released_total(releases@, t) by {
                assert(self.account(sender_id@) == pre_mark.account(sender_id@));
                match account_g {
                    Some(x) => {
                        assert(pre_mark.account(sender_id@) == Some(x));
                    },
                    None => {
                        assert(releases@ =~= Seq::<(String, u128)>::empty());
                        assert(pre_mark.account(sender_id@) == pre_store.account(sender_id@));
                        assert(pre_store.account(sender_id@) == old(self).account(sender_id@));
                    },
                }
            }
            let o = old(self);
            let rusd_v = rusd@;
            assert forall|u: Seq<char>, a: Seq<char>|
                #![trigger self.debt_pool.contribution(u, a)]
                self.debt_pool.contribution(u, a) as int == if u == sender_id@ && a == rusd_v {
                    o.debt_pool.contribution(u, a) - o.pooled_paid(sender_id@)
                } else if u == sender_id@ && has_key(o.debt_pool.positions(), a) {
                    0
                } else {
                    o.debt_pool.contribution(u, a) as int
                } by {
                assert(self.debt_pool.contribution(u, a) == after_migration.contribution(u, a));
                assert(mid.contribution(u, a) == settled.contribution(u, a));
                assert(has_key(s1, a) == (a == rusd_v || has_key(o.debt_pool.positions(), a)));
            }
            assert forall|u: Seq<char>, a: Seq<char>|
                #![trigger self.account_book.balance(u, a)]
                self.account_book.balance(u, a) as int == if u == sender_id@ && a == rusd_v {
                    o.account_book.balance(u, a) - (if o.debt_covered(sender_id@) {
                        0
                    } else {
                        o.debt_amount(sender_id@) - o.debt_pool.contribution(sender_id@, rusd_v)
                    })
                } else if u == sender_id@ && has_key(o.debt_pool.positions(), a) {
                    o.account_book.balance(u, a) + o.debt_pool.contribution(u, a)
                } else {
                    o.account_book.balance(u, a) as int
                } by {
                assert(has_key(s1, a) == (a == rusd_v || has_key(o.debt_pool.positions(), a)));
                assert(mid.contribution(sender_id@, a) == settled.contribution(sender_id@, a));
            }
            assert forall|a: Seq<char>| #[trigger]
                self.account_book.total(a) as int == if a == rusd_v {
                    o.account_book.total(a) - (if o.debt_covered(sender_id@) {
                        0
                    } else {
                        o.debt_amount(sender_id@) - o.debt_pool.contribution(sender_id@, rusd_v)
                    })
                } else if has_key(o.debt_pool.positions(), a) {
                    o.account_book.total(a) + o.debt_pool.contribution(sender_id@, a)
                } else {
                    o.account_book.total(a) as int
                } by {
                assert(has_key(s1, a) == (a == rusd_v || has_key(o.debt_pool.positions(), a)));
                assert(mid.contribution(sender_id@, a) == settled.contribution(sender_id@, a));
            }
            assert(raft_total_value as int == total_value(o.debt_pool.positions(), o.price_oracle@));
            assert(ids@ == ids_of(o.user_collaterals@, sender_id@));
            assert(!has_key(self.debt_pool.ratios(), sender_id@));
            assert(releases@ == o.redeem_releases(sender_id@));
            assert(self.debt_pool.positions() == o.redeemed_positions(sender_id@));
            assert(self.debt_pool.ratios() == if total_value(self.debt_pool.positions(), o.price_oracle@) > 0 {
                scaled(without(o.debt_pool.ratios(), sender_id@), total_value(o.debt_pool.positions(), o.price_oracle@), total_value(self.debt_pool.positions(), o.price_oracle@))
            } else {
                without(o.debt_pool.ratios(), sender_id@)
            });
            assert(self.collaterals@.len() == o.collaterals@.len());
            assert(self.user_collaterals == o.user_collaterals);
            assert(Contract::settings_kept(*o, *self));
        }
        Ok(releases)
    }
}

} // verus!
