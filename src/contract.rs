//! The exchange: registered assets, collateral records, deposit accounts, and
//! the two ledgers with the oracle that values them.

use vstd::prelude::*;
use crate::account::Account;
use crate::accountbook::AccountBook;
use crate::debtpool::DebtPool;
use crate::errors::CraftingError;
use crate::oracle::PriceInfo;
use crate::utils::FEE_DIVISOR;
use crate::table::{AccountId, contains_id, find_key, has_id, lemma_index_of, put, unique_keys, value_of};

verus! {

/// Index of a collateral record.
pub type CollateralId = u64;

/// State byte of a collateral record whose claim is still open.
pub const COLLATERAL_OPEN: u8 = 0;

/// State byte of a collateral record whose collateral was released.
pub const COLLATERAL_REDEEMED: u8 = 1;

/// Whether the exchange takes operations.
#[derive(Clone, Copy, Debug, PartialEq, Eq, Structural)]
pub enum RunningState {
    Running,
    Paused,
}

impl RunningState {
    /// The state's name.
    pub fn as_str(&self) -> (r: &'static str)
        ensures
            *self == RunningState::Running ==> r@ == "Running"@,
            *self == RunningState::Paused ==> r@ == "Paused"@,
    {
        match self {
            RunningState::Running => "Running",
            RunningState::Paused => "Paused",
        }
    }
}

/// How an outbound call that the host ran on the exchange's behalf ended.
#[derive(Clone, Copy, Debug, PartialEq, Eq, Structural)]
pub enum PromiseOutcome {
    Successful,
    Failed,
}

/// One mint: who locked which collateral and minted which synthetic asset.
pub struct Collateral {
    pub issuer: AccountId,
    pub token: AccountId,
    pub token_amount: u128,
    pub raft: AccountId,
    pub raft_amount: u128,
    pub join_debtpool: bool,
    pub block_index: u64,
    pub create_time: u64,
    pub state: u8,
}

impl Collateral {
    /// A copy of the record.
    pub fn duplicate(&self) -> (r: Collateral)
        ensures
            r == *self,
    {
        Collateral {
            issuer: self.issuer.clone(),
            token: self.token.clone(),
            token_amount: self.token_amount,
            raft: self.raft.clone(),
            raft_amount: self.raft_amount,
            join_debtpool: self.join_debtpool,
            block_index: self.block_index,
            create_time: self.create_time,
            state: self.state,
        }
    }
}

/// A registered collateral token or synthetic asset.
pub struct Asset {
    pub name: String,
    pub symbol: String,
    pub standard: String,
    pub decimals: u32,
    pub address: AccountId,
    pub feed_address: AccountId,
    /// Least collateral ratio, in percent, of an individual mint.
    pub collateral_ratio: u128,
    pub state: u8,
}

impl Asset {
    /// A copy of the asset.
    pub fn duplicate(&self) -> (r: Asset)
        ensures
            r == *self,
    {
        Asset {
            name: self.name.clone(),
            symbol: self.symbol.clone(),
            standard: self.standard.clone(),
            decimals: self.decimals,
            address: self.address.clone(),
            feed_address: self.feed_address.clone(),
            collateral_ratio: self.collateral_ratio,
            state: self.state,
        }
    }
}

/// The ids of the records of `user`, in order of minting.
pub open spec fn ids_of(s: Seq<(String, u64)>, user: Seq<char>) -> Seq<u64>
    decreases s.len(),
{
    if s.len() == 0 {
        Seq::empty()
    } else {
        ids_of(s.drop_last(), user) + if s.last().0@ == user {
            seq![s.last().1]
        } else {
            Seq::empty()
        }
    }
}

/// `10` to the power `d`.
pub open spec fn pow10(d: nat) -> nat
    decreases d,
{
    if d == 0 {
        1
    } else {
        10 * pow10((d - 1) as nat)
    }
}

/// `10` to the power `d`, where it fits in a `u128`.
pub fn checked_pow10(d: u32) -> (r: Option<u128>)
    ensures
        r == if pow10(d as nat) <= u128::MAX {
            Some(pow10(d as nat) as u128)
        } else {
            None::<u128>
        },
{
    let mut acc: u128 = 1;
    let mut i: u32 = 0;
    while i < d
        invariant
            i <= d,
            acc == pow10(i as nat),
        decreases d - i,
    {
        proof {
            assert(pow10((i + 1) as nat) == 10 * pow10(i as nat));
        }
        match acc.checked_mul(10) {
            Some(v) => {
                acc = v;
            },
            None => {
                proof {
                    lemma_pow10_grows((i + 1) as nat, d as nat);
                }
                return None;
            },
        }
        i = i + 1;
    }
    Some(acc)
}

pub proof fn lemma_pow10_positive(d: nat)
    ensures
        pow10(d) >= 1,
    decreases d,
{
    if d > 0 {
        lemma_pow10_positive((d - 1) as nat);
    }
}

proof fn lemma_pow10_grows(a: nat, b: nat)
    requires
        a <= b,
    ensures
        pow10(a) <= pow10(b),
    decreases b - a,
{
    if a < b {
        lemma_pow10_grows(a, (b - 1) as nat);
        assert(pow10(b) == 10 * pow10((b - 1) as nat));
    }
}

/// The exchange's whole state.
pub struct Contract {
    pub owner_id: AccountId,
    pub state: RunningState,
    /// Least and greatest leverage of a pooled mint.
    pub leverage_ratio: (u8, u8),
    /// Fee on an individual redemption, in thousandths.
    pub interest_fee: u32,
    /// Fee on a swap, in thousandths.
    pub exchange_fee: u32,
    pub accounts: Vec<(AccountId, Account)>,
    pub whitelisted_tokens: Vec<AccountId>,
    pub token_list: Vec<(AccountId, Asset)>,
    pub whitelisted_rafts: Vec<AccountId>,
    pub raft_list: Vec<(AccountId, Asset)>,
    pub collaterals: Vec<Collateral>,
    /// `(user, record)` for each record, in order of minting.
    pub user_collaterals: Vec<(AccountId, CollateralId)>,
    pub debt_pool: DebtPool,
    pub account_book: AccountBook,
    pub price_oracle: PriceInfo,
}

impl Contract {
    pub open spec fn wf(&self) -> bool {
        &&& unique_keys(self.accounts@)
        &&& forall|i: int| 0 <= i < self.accounts@.len() ==> (#[trigger] self.accounts@[i]).1.wf()
        &&& unique_keys(self.token_list@)
        &&& unique_keys(self.raft_list@)
        &&& self.debt_pool.wf()
        &&& self.account_book.wf()
        &&& self.price_oracle.wf()
        &&& self.interest_fee <= FEE_DIVISOR
        &&& self.exchange_fee <= FEE_DIVISOR
    }

    /// `new` keeps the governance of `old`: owner, running state, band, fees,
    /// whitelists, registered assets and prices.
    pub open spec fn settings_kept(old: Contract, new: Contract) -> bool {
        &&& new.owner_id == old.owner_id
        &&& new.state == old.state
        &&& new.leverage_ratio == old.leverage_ratio
        &&& new.interest_fee == old.interest_fee
        &&& new.exchange_fee == old.exchange_fee
        &&& new.whitelisted_tokens == old.whitelisted_tokens
        &&& new.token_list == old.token_list
        &&& new.whitelisted_rafts == old.whitelisted_rafts
        &&& new.raft_list == old.raft_list
        &&& new.price_oracle == old.price_oracle
    }

    /// The account of `id`, if registered.
    pub open spec fn account(&self, id: Seq<char>) -> Option<Account> {
        value_of(self.accounts@, id)
    }

    /// The registered collateral token `id`.
    pub open spec fn token_asset(&self, id: Seq<char>) -> Option<Asset> {
        value_of(self.token_list@, id)
    }

    /// The registered synthetic asset `id`.
    pub open spec fn raft_asset(&self, id: Seq<char>) -> Option<Asset> {
        value_of(self.raft_list@, id)
    }

    pub open spec fn running(&self) -> bool {
        self.state == RunningState::Running
    }

    /// A fresh exchange owned by `owner_id`: running, leverage band 1 to 10,
    /// no interest fee, an exchange fee of three thousandths.
    pub fn new(owner_id: AccountId) -> (r: Self)
        ensures
            r.wf(),
            r.owner_id == owner_id,
            r.running(),
            r.leverage_ratio == (1u8, 10u8),
            r.interest_fee == 0,
            r.exchange_fee == 3,
            r.accounts@.len() == 0,
            r.collaterals@.len() == 0,
            r.debt_pool.positions().len() == 0,
            r.debt_pool.ratios().len() == 0,
    {
        Contract {
            owner_id,
            state: RunningState::Running,
            leverage_ratio: (1, 10),
            interest_fee: 0,
            exchange_fee: 3,
            accounts: Vec::new(),
            whitelisted_tokens: Vec::new(),
            token_list: Vec::new(),
            whitelisted_rafts: Vec::new(),
            raft_list: Vec::new(),
            collaterals: Vec::new(),
            user_collaterals: Vec::new(),
            debt_pool: DebtPool::new(),
            account_book: AccountBook::new(),
            price_oracle: PriceInfo::new(),
        }
    }

    /// Refuses every operation while paused.
    pub fn assert_contract_running(&self) -> (r: Result<(), CraftingError>)
        ensures
            r == if self.running() {
                Ok::<(), CraftingError>(())
            } else {
                Err(CraftingError::ContractPaused)
            },
    {
        match self.state {
            RunningState::Running => Ok(()),
            RunningState::Paused => Err(CraftingError::ContractPaused),
        }
    }

    pub fn is_in_whitelisted_tokens(&self, token: &AccountId) -> (r: bool)
        ensures
            r == has_id(self.whitelisted_tokens@, token@),
    {
        contains_id(&self.whitelisted_tokens, token)
    }

    pub fn is_in_whitelisted_rafts(&self, raft: &AccountId) -> (r: bool)
        ensures
            r == has_id(self.whitelisted_rafts@, raft@),
    {
        contains_id(&self.whitelisted_rafts, raft)
    }

    /// The registered collateral token `token`.
    pub fn query_token(&self, token: &AccountId) -> (r: Option<Asset>)
        requires
            self.wf(),
        ensures
            r == self.token_asset(token@),
    {
        match find_key(&self.token_list, token) {
            Some(i) => {
                proof {
                    lemma_index_of(self.token_list@, i as int);
                }
                Some(self.token_list[i].1.duplicate())
            },
            None => None,
        }
    }

    /// The registered synthetic asset `raft`.
    pub fn query_raft(&self, raft: &AccountId) -> (r: Option<Asset>)
        requires
            self.wf(),
        ensures
            r == self.raft_asset(raft@),
    {
        match find_key(&self.raft_list, raft) {
            Some(i) => {
                proof {
                    lemma_index_of(self.raft_list@, i as int);
                }
                Some(self.raft_list[i].1.duplicate())
            },
            None => None,
        }
    }

    /// The collateral record `collateral_id`.
    pub fn query_collateral(&self, collateral_id: CollateralId) -> (r: Option<Collateral>)
        ensures
            r == if collateral_id < self.collaterals@.len() {
                Some(self.collaterals@[collateral_id as int])
            } else {
                None::<Collateral>
            },
    {
        if collateral_id < self.collaterals.len() as u64 {
            Some(self.collaterals[collateral_id as usize].duplicate())
        } else {
            None
        }
    }

    /// The ids of `user`'s collateral records, in order of minting.
    pub fn query_user_collateral_ids(&self, user: &AccountId) -> (r: Vec<CollateralId>)
        ensures
            r@ == ids_of(self.user_collaterals@, user@),
    {
        let ghost s = self.user_collaterals@;
        let mut out: Vec<CollateralId> = Vec::new();
        let mut i: usize = 0;
        while i < self.user_collaterals.len()
            invariant
                s == self.user_collaterals@,
                i <= s.len(),
                out@ == ids_of(s.subrange(0, i as int), user@),
            decreases s.len() - i,
        {
            assert(s.subrange(0, i + 1).drop_last() =~= s.subrange(0, i as int));
            if self.user_collaterals[i].0 == *user {
                out.push(self.user_collaterals[i].1);
            }
            assert(out@ =~= ids_of(s.subrange(0, i + 1), user@));
            i = i + 1;
        }
        assert(s.subrange(0, s.len() as int) =~= s);
        out
    }

    /// Only the owner and `user` may read `user`'s records.
    pub fn assert_query_authority(&self, caller: &AccountId, user: &AccountId) -> (r: Result<
        (),
        CraftingError,
    >)
        ensures
            r == if caller@ == self.owner_id@ || caller@ == user@ {
                Ok::<(), CraftingError>(())
            } else {
                Err(CraftingError::NoPermission)
            },
    {
        if *caller == self.owner_id || *caller == *user {
            Ok(())
        } else {
            Err(CraftingError::NoPermission)
        }
    }

    /// Only the owner may administer.
    pub fn assert_owner(&self, caller: &AccountId) -> (r: Result<(), CraftingError>)
        ensures
            r == if caller@ == self.owner_id@ {
                Ok::<(), CraftingError>(())
            } else {
                Err(CraftingError::Unauthorized)
            },
    {
        if *caller == self.owner_id {
            Ok(())
        } else {
            Err(CraftingError::Unauthorized)
        }
    }

    /// A copy of the account of `account_id`, if registered.
    pub fn internal_get_account(&self, account_id: &AccountId) -> (r: Option<Account>)
        requires
            self.wf(),
        ensures
            r is Some == self.account(account_id@) is Some,
            r matches Some(a) ==> a.wf() && a.near_amount == self.account(account_id@)->0.near_amount
                && a.storage_used == self.account(account_id@)->0.storage_used && a.entries()
                == self.account(account_id@)->0.entries(),
    {
        match find_key(&self.accounts, account_id) {
            Some(i) => {
                proof {
                    lemma_index_of(self.accounts@, i as int);
                }
                Some(self.accounts[i].1.duplicate())
            },
            None => None,
        }
    }

    /// A copy of the account of `account_id`, which must be registered.
    pub fn internal_unwrap_account(&self, account_id: &AccountId) -> (r: Result<
        Account,
        CraftingError,
    >)
        requires
            self.wf(),
        ensures
            r is Err == self.account(account_id@) is None,
            r is Err ==> r == Err::<Account, CraftingError>(CraftingError::AccountNotRegistered),
            r matches Ok(a) ==> a.wf() && a.near_amount == self.account(account_id@)->0.near_amount
                && a.storage_used == self.account(account_id@)->0.storage_used && a.entries()
                == self.account(account_id@)->0.entries(),
    {
        match self.internal_get_account(account_id) {
            Some(a) => Ok(a),
            None => Err(CraftingError::AccountNotRegistered),
        }
    }

    /// A copy of the account of `account_id`, or a fresh one.
    pub fn internal_unwrap_or_default_account(&self, account_id: &AccountId) -> (r: Account)
        requires
            self.wf(),
        ensures
            r.wf(),
            self.account(account_id@) is None ==> r.near_amount == 0 && r.entries().len() == 0,
            self.account(account_id@) matches Some(a) ==> r.near_amount == a.near_amount
                && r.storage_used == a.storage_used && r.entries() == a.entries(),
    {
        match self.internal_get_account(account_id) {
            Some(a) => a,
            None => Account::new(account_id),
        }
    }

    /// Stores `account` without a storage check.
    pub(crate) fn store_account(&mut self, account_id: &AccountId, account: Account)
        requires
            old(self).wf(),
            account.wf(),
        ensures
            final(self).wf(),
            final(self).accounts@ == crate::table::upsert(old(self).accounts@, *account_id, account),
            final(self).account(account_id@) == Some(account),
            forall|q: Seq<char>|
                q != account_id@ ==> #[trigger] final(self).account(q) == old(self).account(q),
            final(self).owner_id == old(self).owner_id,
            final(self).state == old(self).state,
            final(self).leverage_ratio == old(self).leverage_ratio,
            final(self).interest_fee == old(self).interest_fee,
            final(self).exchange_fee == old(self).exchange_fee,
            final(self).whitelisted_tokens == old(self).whitelisted_tokens,
            final(self).token_list == old(self).token_list,
            final(self).whitelisted_rafts == old(self).whitelisted_rafts,
            final(self).raft_list == old(self).raft_list,
            final(self).collaterals == old(self).collaterals,
            final(self).user_collaterals == old(self).user_collaterals,
            final(self).debt_pool == old(self).debt_pool,
            final(self).account_book == old(self).account_book,
            final(self).price_oracle == old(self).price_oracle,
    {
        proof {
            crate::table::lemma_upsert(self.accounts@, *account_id, account);
        }
        let ghost s = self.accounts@;
        put(&mut self.accounts, account_id, account);
        proof {
            let t = self.accounts@;
            assert forall|i: int| 0 <= i < t.len() implies (#[trigger] t[i]).1.wf() by {
                if i < s.len() && t[i].1 != account {
                    assert(t[i] == s[i]);
                }
            }
        }
    }

    /// Stores `account`, which must afford its storage.
    pub fn internal_save_account(&mut self, account_id: &AccountId, account: Account) -> (r: Result<
        (),
        CraftingError,
    >)
        requires
            old(self).wf(),
            account.wf(),
        ensures
            final(self).wf(),
            r == if crate::account::storage_cost(account.entries().len()) <= account.near_amount {
                Ok::<(), CraftingError>(())
            } else {
                Err(CraftingError::InsufficientStorage)
            },
            r is Ok ==> final(self).account(account_id@) == Some(account),
            r is Ok ==> Contract::only_account_changed(*old(self), *final(self), account_id@),
            r is Err ==> *final(self) == *old(self),
    {
        account.assert_storage_usage()?;
        self.store_account(account_id, account);
        Ok(())
    }
}

} // verus!
