//! Deposit accounts: the tokens each user has deposited, and the storage
//! deposit that pays for holding them.

use vstd::prelude::*;
use crate::errors::CraftingError;
use crate::oracle::{lemma_table_map_upsert, table_map};
use crate::table::{
    AccountId, amount_of, copy_table, find_key, has_key, lemma_index_of, put, remove_key, unique_keys, value_of,
};
use crate::utils::{storage_byte_cost, STORAGE_PRICE_PER_BYTE};

verus! {

/// Bytes of an account with no token: its key, tag, amount, token count and
/// storage counter.
pub const INIT_ACCOUNT_STORAGE: u64 = 98;

/// Bytes of one token row: key prefix, token identifier as a key, amount.
pub const TOKEN_STORAGE: u64 = 148;

/// The storage deposit that an account holding `n` tokens needs.
pub open spec fn storage_cost(n: nat) -> int {
    (INIT_ACCOUNT_STORAGE + TOKEN_STORAGE * n) * STORAGE_PRICE_PER_BYTE
}

/// An account as stored: one variant per layout, read through
/// `into_current`.
pub enum VAccount {
    Current(Account),
}

impl VAccount {
    /// The account in the current layout.
    pub fn into_current(self, account_id: &AccountId) -> (r: Account)
        ensures
            self matches VAccount::Current(a) && r == a,
    {
        match self {
            VAccount::Current(account) => account,
        }
    }
}

impl From<Account> for VAccount {
    fn from(account: Account) -> (r: VAccount) {
        VAccount::Current(account)
    }
}

impl vstd::std_specs::convert::FromSpecImpl<Account> for VAccount {
    open spec fn obeys_from_spec() -> bool {
        true
    }

    open spec fn from_spec(account: Account) -> VAccount {
        VAccount::Current(account)
    }
}

/// A user's deposits.
pub struct Account {
    /// The storage deposit, in the host's native unit.
    pub near_amount: u128,
    /// The balance of each registered token, in order of registration.
    pub tokens: Vec<(AccountId, u128)>,
    pub storage_used: u64,
}

impl Account {
    /// The token rows, in order of registration.
    pub open spec fn entries(&self) -> Seq<(String, u128)> {
        self.tokens@
    }

    pub open spec fn wf(&self) -> bool {
        unique_keys(self.entries())
    }

    /// The balance of each registered token.
    pub open spec fn balances(&self) -> Map<Seq<char>, u128> {
        table_map(self.entries())
    }

    /// An account with no deposit and no token.
    pub fn new(account_id: &AccountId) -> (r: Self)
        ensures
            r.wf(),
            r.near_amount == 0,
            r.storage_used == 0,
            r.entries().len() == 0,
    {
        Account { near_amount: 0, tokens: Vec::new(), storage_used: 0 }
    }

    /// The balance of `token_id`, if it is registered.
    pub fn get_balance(&self, token_id: &AccountId) -> (r: Option<u128>)
        requires
            self.wf(),
        ensures
            r == value_of(self.entries(), token_id@),
            r == if self.balances().contains_key(token_id@) {
                Some(self.balances()[token_id@])
            } else {
                None
            },
    {
        match find_key(&self.tokens, token_id) {
            Some(i) => {
                proof {
                    lemma_index_of(self.tokens@, i as int);
                }
                Some(self.tokens[i].1)
            },
            None => None,
        }
    }

    /// The registered tokens, in order of registration.
    pub fn get_tokens(&self) -> (r: Vec<AccountId>)
        ensures
            r@ == self.entries().map_values(|e: (String, u128)| e.0),
    {
        let mut out: Vec<AccountId> = Vec::new();
        let mut i: usize = 0;
        while i < self.tokens.len()
            invariant
                i <= self.tokens@.len(),
                out@ == self.tokens@.subrange(0, i as int).map_values(|e: (String, u128)| e.0),
            decreases self.tokens@.len() - i,
        {
            out.push(self.tokens[i].0.clone());
            assert(self.tokens@.subrange(0, i + 1).map_values(|e: (String, u128)| e.0) =~= out@);
            i = i + 1;
        }
        assert(self.tokens@.subrange(0, self.tokens@.len() as int) =~= self.tokens@);
        out
    }

    /// Adds `amount` to `token`. A registered token takes it with no storage
    /// check. An unregistered one is registered only where the storage
    /// deposit covers one more token; otherwise nothing changes and the
    /// answer is `false`.
    pub fn deposit_with_storage_check(&mut self, token: &AccountId, amount: u128) -> (r: Result<
        bool,
        CraftingError,
    >)
        requires
            old(self).wf(),
        ensures
            final(self).wf(),
            final(self).near_amount == old(self).near_amount,
            final(self).storage_used == old(self).storage_used,
            old(self).balances().contains_key(token@) ==> r == if old(self).balances()[token@]
                + amount <= u128::MAX {
                Ok::<bool, CraftingError>(true)
            } else {
                Err(CraftingError::Overflow)
            },
            !old(self).balances().contains_key(token@) ==> r == Ok::<bool, CraftingError>(
                storage_cost(old(self).entries().len() + 1) <= old(self).near_amount,
            ),
            r == Ok::<bool, CraftingError>(true) ==> final(self).balances() == old(
                self,
            ).balances().insert(
                token@,
                (if old(self).balances().contains_key(token@) {
                    old(self).balances()[token@]
                } else {
                    0
                } + amount) as u128,
            ),
            r != Ok::<bool, CraftingError>(true) ==> *final(self) == *old(self),
    {
        match self.get_balance(token) {
            Some(balance) => {
                match balance.checked_add(amount) {
                    Some(b) => {
                        proof {
                            lemma_table_map_upsert(self.tokens@, *token, b);
                        }
                        put(&mut self.tokens, token, b);
                        Ok(true)
                    },
                    None => Err(CraftingError::Overflow),
                }
            },
            None => {
                let affordable = match Self::storage_for(self.tokens.len() as u128 + 1) {
                    Some(needed) => needed <= self.near_amount,
                    None => false,
                };
                if affordable {
                    proof {
                        lemma_table_map_upsert(self.tokens@, *token, amount);
                    }
                    put(&mut self.tokens, token, amount);
                    Ok(true)
                } else {
                    Ok(false)
                }
            },
        }
    }

    /// Adds `amount` to `token`, registering it where it is new.
    pub fn deposit(&mut self, token: &AccountId, amount: u128) -> (r: Result<(), CraftingError>)
        requires
            old(self).wf(),
        ensures
            final(self).wf(),
            final(self).near_amount == old(self).near_amount,
            final(self).storage_used == old(self).storage_used,
            r == if !old(self).balances().contains_key(token@) || old(self).balances()[token@]
                + amount <= u128::MAX {
                Ok::<(), CraftingError>(())
            } else {
                Err(CraftingError::Overflow)
            },
            r is Ok ==> final(self).balances() == old(self).balances().insert(
                token@,
                (if old(self).balances().contains_key(token@) {
                    old(self).balances()[token@]
                } else {
                    0
                } + amount) as u128,
            ),
            r is Ok ==> final(self).entries().len() == if old(self).balances().contains_key(token@) {
                old(self).entries().len()
            } else {
                old(self).entries().len() + 1
            },
            r is Err ==> *final(self) == *old(self),
    {
        let b = match self.get_balance(token) {
            Some(x) => match x.checked_add(amount) {
                Some(b) => b,
                None => {
                    return Err(CraftingError::Overflow);
                },
            },
            None => amount,
        };
        proof {
            lemma_table_map_upsert(self.tokens@, *token, b);
        }
        put(&mut self.tokens, token, b);
        Ok(())
    }

    /// Takes `amount` of `token` out of the account.
    pub fn withdraw(&mut self, token: &AccountId, amount: u128) -> (r: Result<(), CraftingError>)
        requires
            old(self).wf(),
        ensures
            final(self).wf(),
            final(self).near_amount == old(self).near_amount,
            final(self).storage_used == old(self).storage_used,
            r == if !old(self).balances().contains_key(token@) {
                Err(CraftingError::TokenNotRegistered)
            } else if old(self).balances()[token@] < amount {
                Err(CraftingError::NotEnoughTokens)
            } else {
                Ok::<(), CraftingError>(())
            },
            r is Ok ==> final(self).balances() == old(self).balances().insert(
                token@,
                (old(self).balances()[token@] - amount) as u128,
            ),
            r is Ok ==> final(self).entries().len() == old(self).entries().len(),
            r is Err ==> *final(self) == *old(self),
    {
        match self.get_balance(token) {
            Some(x) => {
                if x < amount {
                    return Err(CraftingError::NotEnoughTokens);
                }
                proof {
                    lemma_table_map_upsert(self.tokens@, *token, (x - amount) as u128);
                }
                put(&mut self.tokens, token, x - amount);
                Ok(())
            },
            None => Err(CraftingError::TokenNotRegistered),
        }
    }

    /// The storage deposit that `n` tokens need, where it fits in a `u128`.
    fn storage_for(n: u128) -> (r: Option<u128>)
        requires
            n <= u64::MAX + 1,
        ensures
            r == if storage_cost(n as nat) <= u128::MAX {
                Some(storage_cost(n as nat) as u128)
            } else {
                None::<u128>
            },
    {
        let bytes = n * (TOKEN_STORAGE as u128) + INIT_ACCOUNT_STORAGE as u128;
        bytes.checked_mul(storage_byte_cost())
    }

    /// The storage deposit that this account needs, or `u128::MAX` where that
    /// does not fit.
    pub fn storage_usage(&self) -> (r: u128)
        ensures
            r == if storage_cost(self.entries().len()) <= u128::MAX {
                storage_cost(self.entries().len())
            } else {
                u128::MAX as int
            },
    {
        match Self::storage_for(self.tokens.len() as u128) {
            Some(v) => v,
            None => u128::MAX,
        }
    }

    /// The storage deposit beyond what this account needs.
    pub fn storage_available(&self) -> (r: u128)
        ensures
            r == if self.near_amount > storage_cost(self.entries().len()) {
                self.near_amount - storage_cost(self.entries().len())
            } else {
                0
            },
    {
        let locked = self.storage_usage();
        if self.near_amount > locked {
            self.near_amount - locked
        } else {
            0
        }
    }

    /// Whether the storage deposit covers this account's storage.
    pub fn assert_storage_usage(&self) -> (r: Result<(), CraftingError>)
        ensures
            r == if storage_cost(self.entries().len()) <= self.near_amount {
                Ok::<(), CraftingError>(())
            } else {
                Err(CraftingError::InsufficientStorage)
            },
    {
        match Self::storage_for(self.tokens.len() as u128) {
            Some(v) if v <= self.near_amount => Ok(()),
            _ => Err(CraftingError::InsufficientStorage),
        }
    }

    /// The least storage deposit of any account.
    pub fn min_storage_usage() -> (r: u128)
        ensures
            r == storage_cost(0),
    {
        match Self::storage_for(0) {
            Some(v) => v,
            None => u128::MAX,
        }
    }

    /// Registers each of `token_ids` not yet registered, with balance zero.
    pub fn register(&mut self, token_ids: &Vec<AccountId>)
        requires
            old(self).wf(),
        ensures
            final(self).wf(),
            final(self).near_amount == old(self).near_amount,
            final(self).storage_used == old(self).storage_used,
            forall|k: Seq<char>| #[trigger]
                final(self).balances().contains_key(k) == (old(self).balances().contains_key(k)
                    || exists|j: int| 0 <= j < token_ids@.len() && (#[trigger] token_ids@[j])@ == k),
            forall|k: Seq<char>|
                old(self).balances().contains_key(k) ==> #[trigger] final(self).balances()[k] == old(
                    self,
                ).balances()[k],
            forall|k: Seq<char>|
                !old(self).balances().contains_key(k) && #[trigger] final(self).balances().contains_key(
                    k,
                ) ==> final(self).balances()[k] == 0,
    {
        let mut i: usize = 0;
        while i < token_ids.len()
            invariant
                self.wf(),
                i <= token_ids@.len(),
                self.near_amount == old(self).near_amount,
                self.storage_used == old(self).storage_used,
                forall|k: Seq<char>| #[trigger]
                    self.balances().contains_key(k) == (old(self).balances().contains_key(k)
                        || exists|j: int| 0 <= j < i && (#[trigger] token_ids@[j])@ == k),
                forall|k: Seq<char>|
                    old(self).balances().contains_key(k) ==> #[trigger] self.balances()[k] == old(
                        self,
                    ).balances()[k],
                forall|k: Seq<char>|
                    !old(self).balances().contains_key(k) && #[trigger] self.balances().contains_key(
                        k,
                    ) ==> self.balances()[k] == 0,
            decreases token_ids@.len() - i,
        {
            let t = &token_ids[i];
            if self.get_balance(t).is_none() {
                proof {
                    lemma_table_map_upsert(self.tokens@, *t, 0);
                }
                put(&mut self.tokens, t, 0);
            }
            assert forall|k: Seq<char>| #[trigger]
                self.balances().contains_key(k) == (old(self).balances().contains_key(k)
                    || exists|j: int| 0 <= j < i + 1 && (#[trigger] token_ids@[j])@ == k) by {
                if k == token_ids@[i as int]@ {
                    assert(token_ids@[i as int]@ == k);
                }
                if exists|j: int| 0 <= j < i + 1 && (#[trigger] token_ids@[j])@ == k {
                    let j = choose|j: int| 0 <= j < i + 1 && (#[trigger] token_ids@[j])@ == k;
                    if j < i {
                        assert(exists|j: int| 0 <= j < i && (#[trigger] token_ids@[j])@ == k);
                    }
                }
            }
            i = i + 1;
        }
    }

    /// Unregisters `token_id`, which must hold nothing; an unregistered token
    /// is left as it is.
    pub fn unregister(&mut self, token_id: &AccountId) -> (r: Result<(), CraftingError>)
        requires
            old(self).wf(),
        ensures
            final(self).wf(),
            final(self).near_amount == old(self).near_amount,
            final(self).storage_used == old(self).storage_used,
            r == if old(self).balances().contains_key(token_id@) && old(self).balances()[token_id@]
                != 0 {
                Err(CraftingError::NonZeroTokenBalance)
            } else {
                Ok::<(), CraftingError>(())
            },
            r is Ok ==> final(self).balances() == old(self).balances().remove(token_id@),
            r is Ok ==> final(self).entries().len() <= old(self).entries().len(),
            r is Err ==> *final(self) == *old(self),
    {
        match self.get_balance(token_id) {
            Some(x) => {
                if x != 0 {
                    return Err(CraftingError::NonZeroTokenBalance);
                }
            },
            None => {},
        }
        let ghost before = self.tokens@;
        remove_key(&mut self.tokens, token_id);
        proof {
            let t = self.tokens@;
            assert forall|q: Seq<char>|
                #![trigger has_key(t, q)]
                has_key(t, q) == (has_key(before, q) && q != token_id@) && (q != token_id@
                    ==> amount_of(t, q) == amount_of(before, q)) by {
                assert(value_of(t, q) == if q == token_id@ {
                    None
                } else {
                    value_of(before, q)
                });
            }
            assert(self.balances() =~= table_map(before).remove(token_id@));
        }
        Ok(())
    }

    /// A copy of the account.
    pub fn duplicate(&self) -> (r: Account)
        ensures
            r.near_amount == self.near_amount,
            r.storage_used == self.storage_used,
            r.entries() == self.entries(),
    {
        Account {
            near_amount: self.near_amount,
            tokens: copy_table(&self.tokens),
            storage_used: self.storage_used,
        }
    }
}

} // verus!
