use crafting::account::Account;
use crafting::contract::{Contract, PromiseOutcome, RunningState};
use crafting::debtpool::{DebtPool, WrappedBalance};
use crafting::errors::CraftingError;
use crafting::oracle::PriceInfo;
use crafting::settlement::Settlement;
use crafting::utils::{PRICE_PRECISION, RATIO_DIVISOR};

fn s(x: &str) -> String {
    x.to_string()
}

const PRICE: u128 = PRICE_PRECISION as u128;
const BIG_STORAGE: u128 = 1_000_000_000_000_000_000_000_000;

/// An exchange with collateral token `near`, settlement asset `rusd`
/// (symbol rUSD) and synthetic asset `xau`, all priced at `PRICE`.
fn exchange() -> Contract {
    let owner = s("owner");
    let mut c = Contract::new(owner.clone());
    c.add_token_list(&owner, s("Near"), s("NEAR"), s("nep141"), 0, s("near"), s("feed"), 150, 0).unwrap();
    c.add_raft_list(&owner, s("Dollar"), s("rUSD"), s("nep141"), 0, s("rusd"), s("feed"), 0).unwrap();
    c.add_raft_list(&owner, s("Gold"), s("rXAU"), s("nep141"), 0, s("xau"), s("feed"), 0).unwrap();
    c.add_whitelisted_tokens(&owner, &vec![s("near")]).unwrap();
    c.add_whitelisted_rafts(&owner, &vec![s("rusd"), s("xau")]).unwrap();
    c.feed_price(&owner, s("near"), PRICE).unwrap();
    c.feed_price(&owner, s("rusd"), PRICE).unwrap();
    c.feed_price(&owner, s("xau"), PRICE).unwrap();
    c
}

/// Registers `user` with a large storage deposit and `near` collateral.
fn fund(c: &mut Contract, user: &str, near: u128) {
    c.internal_register_account(&s(user), BIG_STORAGE).unwrap();
    c.ft_on_transfer(&s("near"), &s(user), near).unwrap();
}

fn pool_mint(c: &mut Contract, user: &str, near: u128, raft: &str, amount: u128) {
    c.mint(&s("near"), near, &s(raft), amount, true).unwrap();
    c.mint_callback(&s(user), &s("near"), near, &s(raft), amount, true, PromiseOutcome::Successful, 1, 1)
        .unwrap();
}

fn ratio_sum(c: &Contract, users: &[&str]) -> u128 {
    users.iter().map(|u| c.debtpool_debt_ratio(&s("owner"), &s(u)).unwrap()).sum()
}

#[test]
fn single_depositor_round_trip() {
    let mut c = exchange();
    fund(&mut c, "alice", 1_000);
    pool_mint(&mut c, "alice", 100, "rusd", 100);
    assert_eq!(c.debtpool_debt_ratio(&s("alice"), &s("alice")), Ok(RATIO_DIVISOR));
    let releases = c.redeem_in_debtpool(&s("alice")).unwrap();
    assert_eq!(releases, vec![(s("near"), 100)]);
    assert_eq!(c.debtpool_debt_ratio(&s("alice"), &s("alice")), Ok(0));
    assert_eq!(c.debtpool_user_raft_total_value(&s("alice"), &s("alice")), Ok(0));
    assert_eq!(c.debtpool_user_raft_amount(&s("alice"), &s("alice"), &s("rusd")), Ok(0));
    let account = c.internal_get_account(&s("alice")).unwrap();
    assert_eq!(account.get_balance(&s("near")), Some(900));
    assert_eq!(c.get_collateral(0).unwrap().state, 1);
}

#[test]
fn repeated_redemption_releases_nothing_twice() {
    let mut c = exchange();
    fund(&mut c, "alice", 1_000);
    pool_mint(&mut c, "alice", 100, "rusd", 100);
    assert_eq!(c.redeem_in_debtpool(&s("alice")).unwrap().len(), 1);
    assert_eq!(c.redeem_in_debtpool(&s("alice")).unwrap(), vec![]);
    let account = c.internal_get_account(&s("alice")).unwrap();
    assert_eq!(account.get_balance(&s("near")), Some(900));
}

#[test]
fn two_depositor_dilution() {
    let mut prices = PriceInfo::new();
    prices.feed_price(s("x"), 1);
    let mut pool = DebtPool::new();
    pool.join(&prices, &s("a"), &s("x"), 100).unwrap();
    assert_eq!(pool.query_debt_ratio(&s("a")), 1_000_000);
    pool.join(&prices, &s("b"), &s("x"), 100).unwrap();
    assert_eq!(pool.query_debt_ratio(&s("a")), 500_000);
    assert_eq!(pool.query_debt_ratio(&s("b")), 500_000);
    assert_eq!(pool.calc_raft_total_value(&prices), Ok(WrappedBalance { amount: 200, is_positive: true }));
}

#[test]
fn join_keeps_ratio_sum_within_rounding() {
    let mut c = exchange();
    fund(&mut c, "a", 1_000);
    fund(&mut c, "b", 1_000);
    fund(&mut c, "d", 1_000);
    pool_mint(&mut c, "a", 100, "rusd", 100);
    pool_mint(&mut c, "b", 30, "xau", 33);
    pool_mint(&mut c, "d", 7, "rusd", 7);
    pool_mint(&mut c, "a", 11, "xau", 13);
    let sum = ratio_sum(&c, &["a", "b", "d"]);
    assert!(sum <= RATIO_DIVISOR);
    assert!(sum + 3 >= RATIO_DIVISOR);
}

#[test]
fn join_into_priced_out_pool_is_refused() {
    let mut prices = PriceInfo::new();
    prices.feed_price(s("x"), 1);
    let mut pool = DebtPool::new();
    pool.join(&prices, &s("a"), &s("x"), 100).unwrap();
    assert_eq!(pool.join(&prices, &s("b"), &s("y"), 5), Err(CraftingError::PriceNotFound));
    assert_eq!(pool.query_debt_ratio(&s("b")), 0);
    assert_eq!(pool.query_user_raft_amount(&s("b"), &s("y")), 0);
}

#[test]
fn rescale_after_exit() {
    let mut prices = PriceInfo::new();
    prices.feed_price(s("x"), 1);
    let mut pool = DebtPool::new();
    pool.join(&prices, &s("a"), &s("x"), 100).unwrap();
    pool.join(&prices, &s("b"), &s("x"), 100).unwrap();
    pool.remove_debt_ratio(&s("a"));
    pool.calc_all_debt_ratio(200, 100).unwrap();
    assert_eq!(pool.query_debt_ratio(&s("b")), 1_000_000);
    pool.calc_all_debt_ratio(100, 0).unwrap();
    assert_eq!(pool.query_debt_ratio(&s("b")), 1_000_000);
}

#[test]
fn swap_conserves_pool_value() {
    let mut c = exchange();
    let owner = s("owner");
    c.feed_price(&owner, s("xau"), 3 * PRICE).unwrap();
    fund(&mut c, "alice", 1_000);
    pool_mint(&mut c, "alice", 100, "rusd", 1_000);
    let before = c.debtpool_raft_total_value().unwrap();
    c.swap_in_debtpool(&s("alice"), &s("rusd"), &s("xau"), 500).unwrap();
    let after = c.debtpool_raft_total_value().unwrap();
    // fee 1 stays with the owner; 499 rUSD buy 166 units of gold worth 498
    assert_eq!(c.debtpool_user_raft_amount(&owner, &owner, &s("rusd")), Ok(1));
    assert_eq!(c.debtpool_user_raft_amount(&owner, &s("alice"), &s("rusd")), Ok(500));
    assert_eq!(c.debtpool_user_raft_amount(&owner, &s("alice"), &s("xau")), Ok(166));
    assert!(after.is_positive && before.is_positive);
    assert_eq!(before.amount - after.amount, PRICE);
    assert!(before.amount - after.amount < 3 * PRICE);
    let user_after = c.debtpool_user_raft_total_value(&s("alice"), &s("alice")).unwrap();
    assert_eq!(1_000 * PRICE - user_after, PRICE + PRICE);
}

#[test]
fn swap_beyond_contribution_is_refused() {
    let mut c = exchange();
    fund(&mut c, "alice", 1_000);
    pool_mint(&mut c, "alice", 100, "rusd", 100);
    assert_eq!(
        c.swap_in_debtpool(&s("alice"), &s("rusd"), &s("xau"), 101),
        Err(CraftingError::InsufficientBalance)
    );
    assert_eq!(c.swap_in_debtpool(&s("alice"), &s("rusd"), &s("xau"), 0), Err(CraftingError::IllegalAmount));
}

fn shortfall_setup(book_balance: u128) -> Contract {
    let mut c = exchange();
    fund(&mut c, "alice", 1_000);
    pool_mint(&mut c, "alice", 10, "rusd", 10);
    pool_mint(&mut c, "alice", 5, "xau", 5);
    c.deposit_in_accountbook(&s("rusd"), book_balance).unwrap();
    c.account_book_callback_deposit(&s("alice"), &s("rusd"), book_balance, PromiseOutcome::Successful)
        .unwrap();
    c
}

#[test]
fn redemption_shortfall_fallback_succeeds() {
    let mut c = shortfall_setup(5);
    let releases = c.redeem_in_debtpool(&s("alice")).unwrap();
    assert_eq!(releases, vec![(s("near"), 10), (s("near"), 5)]);
    assert_eq!(c.debtpool_debt_ratio(&s("alice"), &s("alice")), Ok(0));
    assert_eq!(c.debtpool_user_raft_amount(&s("alice"), &s("alice"), &s("rusd")), Ok(0));
    assert_eq!(c.accountbook_user_raft_amount(&s("alice"), &s("alice"), &s("rusd")), Ok(0));
    assert_eq!(c.accountbook_user_raft_amount(&s("alice"), &s("alice"), &s("xau")), Ok(5));
}

#[test]
fn redemption_shortfall_without_cover_fails() {
    let mut c = shortfall_setup(4);
    assert_eq!(c.redeem_in_debtpool(&s("alice")), Err(CraftingError::InsufficientBalance));
    assert_eq!(c.debtpool_debt_ratio(&s("alice"), &s("alice")), Ok(RATIO_DIVISOR));
    assert_eq!(c.debtpool_user_raft_amount(&s("alice"), &s("alice"), &s("rusd")), Ok(10));
    assert_eq!(c.accountbook_user_raft_amount(&s("alice"), &s("alice"), &s("rusd")), Ok(4));
}

#[test]
fn failed_transfer_refunds_registered_account() {
    let mut c = exchange();
    fund(&mut c, "alice", 100);
    let r = c.exchange_callback_post_withdraw(&s("near"), &s("alice"), 50, PromiseOutcome::Failed);
    assert_eq!(r, Ok(Settlement::Refunded));
    let account = c.internal_get_account(&s("alice")).unwrap();
    assert_eq!(account.get_balance(&s("near")), Some(150));
}

#[test]
fn failed_transfer_goes_to_lost_found() {
    let mut c = exchange();
    let bob = s("bob");
    c.internal_register_account(&bob, Account::min_storage_usage()).unwrap();
    let r = c.exchange_callback_post_withdraw(&s("near"), &bob, 50, PromiseOutcome::Failed);
    assert_eq!(r, Ok(Settlement::LostFound));
    let owner = c.internal_get_account(&s("owner")).unwrap();
    assert_eq!(owner.get_balance(&s("near")), Some(50));
    assert_eq!(c.internal_get_account(&bob).unwrap().get_balance(&s("near")), None);
}

#[test]
fn failed_transfer_of_unlisted_token_is_fatal() {
    let mut c = exchange();
    let bob = s("bob");
    c.internal_register_account(&bob, Account::min_storage_usage()).unwrap();
    let r = c.exchange_callback_post_withdraw(&s("other"), &bob, 50, PromiseOutcome::Failed);
    assert_eq!(r, Err(CraftingError::NonWhitelistedLostFound));
    assert!(c.internal_get_account(&s("owner")).is_none());
}

#[test]
fn successful_transfer_stands() {
    let mut c = exchange();
    fund(&mut c, "alice", 100);
    let r = c.exchange_callback_post_withdraw(&s("near"), &s("alice"), 50, PromiseOutcome::Successful);
    assert_eq!(r, Ok(Settlement::Confirmed));
    assert_eq!(c.internal_get_account(&s("alice")).unwrap().get_balance(&s("near")), Some(100));
}

#[test]
fn signed_balance_flips_sign() {
    let w = WrappedBalance { amount: 10, is_positive: true };
    assert_eq!(w.minus(15), Ok(WrappedBalance { amount: 5, is_positive: false }));
    let n = WrappedBalance { amount: 5, is_positive: false };
    assert_eq!(n.plus(5), Ok(WrappedBalance { amount: 0, is_positive: true }));
    assert_eq!(n.plus(7), Ok(WrappedBalance { amount: 2, is_positive: true }));
    assert_eq!(n.minus(7), Ok(WrappedBalance { amount: 12, is_positive: false }));
    let top = WrappedBalance { amount: u128::MAX, is_positive: true };
    assert_eq!(top.plus(1), Err(CraftingError::Overflow));
}

#[test]
fn oracle_prices() {
    let mut p = PriceInfo::new();
    assert_eq!(p.get_price(&s("x")), Err(CraftingError::PriceNotFound));
    p.feed_price(s("x"), 7);
    p.feed_price(s("x"), 9);
    assert_eq!(p.get_price(&s("x")), Ok(9));
}

#[test]
fn storage_costs() {
    assert_eq!(Account::min_storage_usage(), 98 * 10_000_000_000_000_000_000);
    let mut a = Account::new(&s("a"));
    a.near_amount = Account::min_storage_usage();
    assert_eq!(a.deposit_with_storage_check(&s("t"), 5), Ok(false));
    a.near_amount = 246 * 10_000_000_000_000_000_000;
    assert_eq!(a.deposit_with_storage_check(&s("t"), 5), Ok(true));
    assert_eq!(a.storage_usage(), 246 * 10_000_000_000_000_000_000);
    assert_eq!(a.storage_available(), 0);
    assert_eq!(a.withdraw(&s("t"), 6), Err(CraftingError::NotEnoughTokens));
    assert_eq!(a.withdraw(&s("u"), 1), Err(CraftingError::TokenNotRegistered));
    assert_eq!(a.unregister(&s("t")), Err(CraftingError::NonZeroTokenBalance));
    a.withdraw(&s("t"), 5).unwrap();
    a.unregister(&s("t")).unwrap();
    assert_eq!(a.get_tokens(), Vec::<String>::new());
}

#[test]
fn malformed_token_ids_are_refused() {
    let mut c = exchange();
    fund(&mut c, "alice", 10);
    assert_eq!(c.register_tokens(&s("alice"), &vec![s("Bad Id")]), Err(CraftingError::InvalidAccountId));
    c.register_tokens(&s("alice"), &vec![s("gold.near")]).unwrap();
    let account = c.internal_get_account(&s("alice")).unwrap();
    assert_eq!(account.get_balance(&s("gold.near")), Some(0));
    c.unregister_tokens(&s("alice"), &vec![s("gold.near")]).unwrap();
    assert_eq!(c.internal_get_account(&s("alice")).unwrap().get_balance(&s("gold.near")), None);
}

#[test]
fn mint_checks() {
    let mut c = exchange();
    assert_eq!(c.mint(&s("other"), 1, &s("rusd"), 1, true), Err(CraftingError::TokenNotWhitelisted));
    assert_eq!(c.mint(&s("near"), 1, &s("other"), 1, true), Err(CraftingError::RaftNotWhitelisted));
    assert_eq!(c.mint(&s("near"), 0, &s("rusd"), 1, true), Err(CraftingError::NoAttachedDeposit));
    assert_eq!(c.mint(&s("near"), 1, &s("rusd"), 0, true), Err(CraftingError::SyntheticAmountError));
    c.change_state(&s("owner"), RunningState::Paused).unwrap();
    assert_eq!(c.mint(&s("near"), 1, &s("rusd"), 1, true), Err(CraftingError::ContractPaused));
}

#[test]
fn mint_callback_bands() {
    let mut c = exchange();
    fund(&mut c, "alice", 1_000);
    let a = s("alice");
    // leverage 20 lies above the band of 1 to 10
    let r = c.mint_callback(&a, &s("near"), 1, &s("rusd"), 20, true, PromiseOutcome::Successful, 1, 1);
    assert_eq!(r, Err(CraftingError::LeverageOutOfRange));
    let r = c.mint_callback(&a, &s("near"), 1, &s("rusd"), 1, true, PromiseOutcome::Failed, 1, 1);
    assert_eq!(r, Err(CraftingError::TransferFailed));
    // individual: 200 percent of collateral, against a minimum of zero
    let r = c.mint_callback(&a, &s("near"), 2, &s("rusd"), 1, false, PromiseOutcome::Successful, 1, 1);
    assert_eq!(r, Ok(0));
    assert_eq!(c.accountbook_user_raft_amount(&a, &a, &s("rusd")), Ok(1));
    assert_eq!(c.collateral_count(), 1);
    assert_eq!(c.user_collaterals(&a, &a).unwrap().len(), 1);
    assert_eq!(c.user_collaterals(&s("bob"), &a).err(), Some(CraftingError::NoPermission));
}

#[test]
fn individual_redemption() {
    let mut c = exchange();
    let owner = s("owner");
    c.set_interest_fee(&owner, 100).unwrap();
    fund(&mut c, "alice", 1_000);
    let a = s("alice");
    c.mint_callback(&a, &s("near"), 300, &s("rusd"), 100, false, PromiseOutcome::Successful, 1, 1).unwrap();
    assert_eq!(c.redeem_in_accountbook(&a, 0), Err(CraftingError::InsufficientBalance));
    c.account_book_callback_deposit(&a, &s("rusd"), 20, PromiseOutcome::Successful).unwrap();
    assert_eq!(c.redeem_in_accountbook(&a, 0), Ok((s("near"), 300)));
    assert_eq!(c.accountbook_user_raft_amount(&a, &a, &s("rusd")), Ok(10));
    assert_eq!(c.accountbook_user_raft_amount(&owner, &owner, &s("rusd")), Ok(10));
    assert_eq!(c.accountbook_raft_amount(&s("rusd")), 20);
    assert_eq!(c.redeem_in_accountbook(&a, 0), Err(CraftingError::InvalidCollateralState));
    assert_eq!(c.internal_get_account(&a).unwrap().get_balance(&s("near")), Some(700));
}

#[test]
fn book_withdraw_and_compensation() {
    let mut c = exchange();
    let a = s("alice");
    c.account_book_callback_deposit(&a, &s("xau"), 30, PromiseOutcome::Successful).unwrap();
    assert_eq!(c.withdraw_in_accountbook(&a, &s("xau"), 0), Err(CraftingError::IllegalWithdrawAmount));
    assert_eq!(c.withdraw_in_accountbook(&a, &s("xau"), 31), Err(CraftingError::InsufficientBalance));
    c.withdraw_in_accountbook(&a, &s("xau"), 20).unwrap();
    assert_eq!(c.accountbook_raft_amount(&s("xau")), 10);
    c.account_book_callback_withdraw(&a, &s("xau"), 20, PromiseOutcome::Failed).unwrap();
    assert_eq!(c.accountbook_user_raft_amount(&a, &a, &s("xau")), Ok(30));
}

#[test]
fn book_swap() {
    let mut c = exchange();
    let a = s("alice");
    c.account_book_callback_deposit(&a, &s("rusd"), 1_000, PromiseOutcome::Successful).unwrap();
    c.swap_in_accountbook(&a, &s("rusd"), &s("xau"), 1_000).unwrap();
    assert_eq!(c.accountbook_user_raft_amount(&a, &a, &s("xau")), Ok(997));
    assert_eq!(c.accountbook_user_raft_amount(&a, &a, &s("rusd")), Ok(0));
    assert_eq!(c.accountbook_raft_amount(&s("rusd")), 3);
    assert_eq!(c.debtpool_raft_amount(&s("rusd")), WrappedBalance { amount: 997, is_positive: false });
    assert_eq!(c.debtpool_raft_amount(&s("xau")), WrappedBalance { amount: 997, is_positive: true });
}

#[test]
fn owner_only_administration() {
    let mut c = exchange();
    assert_eq!(c.set_exchange_fee(&s("eve"), 5), Err(CraftingError::Unauthorized));
    assert_eq!(c.set_exchange_fee(&s("owner"), 1_001), Err(CraftingError::IllegalFee));
    assert_eq!(c.set_leverage_ratio(&s("owner"), (0, 5)), Err(CraftingError::InvalidLeverageRatio));
    c.set_leverage_ratio(&s("owner"), (2, 50)).unwrap();
    assert_eq!(c.change_state(&s("owner"), RunningState::Running), Ok(false));
    assert_eq!(c.change_state(&s("owner"), RunningState::Paused), Ok(true));
    assert_eq!(RunningState::Paused.as_str(), "Paused");
    c.remove_whitelisted_rafts(&s("owner"), &vec![s("xau")]).unwrap();
    assert_eq!(c.whitelisted_rafts().len(), 1);
    c.set_owner(&s("owner"), s("carol")).unwrap();
    assert_eq!(c.contract_owner(), s("carol"));
}

#[test]
fn refusals_name_their_reason() {
    let mut c = exchange();
    let owner = s("owner");
    let a = s("alice");
    assert_eq!(c.redeem_in_debtpool(&a), Err(CraftingError::NoCollaterals));
    assert_eq!(c.redeem_in_accountbook(&a, 0), Err(CraftingError::CollateralNotFound));
    assert_eq!(
        c.mint_callback(&a, &s("gold"), 1, &s("rusd"), 1, true, PromiseOutcome::Successful, 1, 1),
        Err(CraftingError::AssetNotFound)
    );
    // a pooled mint into an account-less user: the collateral debit finds no account
    pool_mint(&mut c, "alice", 100, "rusd", 100);
    assert_eq!(c.redeem_in_debtpool(&a), Err(CraftingError::AccountNotRegistered));
    assert_eq!(c.redeem_in_accountbook(&s("bob"), 0), Err(CraftingError::NotIssuer));
    assert_eq!(c.redeem_in_accountbook(&a, 0), Err(CraftingError::NotIndividualCollateral));
    c.feed_price(&owner, s("near"), 0).unwrap();
    assert_eq!(
        c.mint_callback(&a, &s("near"), 1, &s("rusd"), 1, true, PromiseOutcome::Successful, 1, 1),
        Err(CraftingError::ZeroValue)
    );
    c.feed_price(&owner, s("near"), PRICE).unwrap();
    c.add_raft_list(&owner, s("Dollar"), s("rUSD"), s("nep141"), 0, s("rusd"), s("feed"), 0).unwrap();
    c.add_token_list(&owner, s("Near"), s("NEAR"), s("nep141"), 0, s("near"), s("feed"), 150, 0).unwrap();
    assert_eq!(c.internal_storage_withdraw(&a, 0), Err(CraftingError::AccountNotRegistered));
    assert_eq!(c.internal_deposit(&a, &s("near"), 1), Err(CraftingError::AccountNotRegistered));
}

#[test]
fn collateral_ratio_floor() {
    let a = s("alice");
    let mut c = exchange();
    c.raft_list[1].1.collateral_ratio = 150;
    let r = c.mint_callback(&a, &s("near"), 1, &s("xau"), 1, false, PromiseOutcome::Successful, 1, 1);
    assert_eq!(r, Err(CraftingError::CollateralRatioTooLow));
    assert_eq!(c.collateral_count(), 0);
    let r = c.mint_callback(&a, &s("near"), 3, &s("xau"), 2, false, PromiseOutcome::Successful, 1, 1);
    assert_eq!(r, Ok(0));
}

#[test]
fn settlement_asset_is_required() {
    let owner = s("owner");
    let mut c = Contract::new(owner.clone());
    c.add_token_list(&owner, s("Near"), s("NEAR"), s("nep141"), 0, s("near"), s("feed"), 0, 0).unwrap();
    c.add_raft_list(&owner, s("Gold"), s("rXAU"), s("nep141"), 0, s("xau"), s("feed"), 0).unwrap();
    c.feed_price(&owner, s("near"), PRICE).unwrap();
    c.feed_price(&owner, s("xau"), PRICE).unwrap();
    c.mint_callback(&s("a"), &s("near"), 1, &s("xau"), 1, true, PromiseOutcome::Successful, 1, 1).unwrap();
    assert_eq!(c.redeem_in_debtpool(&s("a")), Err(CraftingError::SettlementAssetMissing));
}

#[test]
fn negative_pool_value_blocks_joins() {
    let mut prices = PriceInfo::new();
    prices.feed_price(s("x"), 1);
    prices.feed_price(s("y"), 10);
    let mut pool = DebtPool::new();
    pool.join(&prices, &s("a"), &s("x"), 5).unwrap();
    pool.calc_sub_raft_amount(&s("y"), 1).unwrap();
    assert_eq!(pool.calc_raft_total_value(&prices), Ok(WrappedBalance { amount: 5, is_positive: false }));
    assert_eq!(pool.join(&prices, &s("b"), &s("x"), 1), Err(CraftingError::InvalidTotalValue));
}

#[test]
fn storage_deposit_rules() {
    let mut c = exchange();
    let a = s("alice");
    c.internal_register_account(&a, Account::min_storage_usage()).unwrap();
    assert_eq!(c.internal_storage_withdraw(&a, 0), Err(CraftingError::NoStorageCanWithdraw));
    c.internal_register_account(&a, 10).unwrap();
    assert_eq!(c.internal_storage_withdraw(&a, 11), Err(CraftingError::StorageWithdrawTooMuch));
    assert_eq!(c.internal_storage_withdraw(&a, 0), Ok(10));
    assert_eq!(c.internal_deposit(&a, &s("near"), 5), Err(CraftingError::InsufficientStorage));
    assert_eq!(c.internal_deposit(&a, &s("gold"), 5), Err(CraftingError::TokenNotWhitelisted));
    assert_eq!(c.internal_get_deposit(&a, &s("near")), 0);
    c.internal_register_account(&a, BIG_STORAGE).unwrap();
    c.internal_deposit(&a, &s("near"), 5).unwrap();
    assert_eq!(c.internal_get_deposit(&a, &s("near")), 5);
}

#[test]
fn exit_keeps_ratio_sum() {
    let mut c = exchange();
    fund(&mut c, "a", 1_000);
    fund(&mut c, "b", 1_000);
    pool_mint(&mut c, "a", 100, "rusd", 100);
    pool_mint(&mut c, "b", 100, "rusd", 100);
    assert_eq!(ratio_sum(&c, &["a", "b"]), RATIO_DIVISOR);
    assert_eq!(c.redeem_in_debtpool(&s("a")).unwrap(), vec![(s("near"), 100)]);
    assert_eq!(c.debtpool_debt_ratio(&s("b"), &s("b")), Ok(RATIO_DIVISOR));
    assert_eq!(c.debtpool_raft_amount(&s("rusd")), WrappedBalance { amount: 100, is_positive: true });
}

#[test]
fn leftover_settlement_stays_pooled() {
    let mut c = exchange();
    let owner = s("owner");
    fund(&mut c, "a", 1_000);
    fund(&mut c, "b", 1_000);
    pool_mint(&mut c, "a", 100, "rusd", 100);
    pool_mint(&mut c, "b", 100, "xau", 100);
    c.feed_price(&owner, s("xau"), PRICE / 2).unwrap();
    // total 150, a owns half: a debt of 75 from a pooled holding of 100
    c.redeem_in_debtpool(&s("a")).unwrap();
    assert_eq!(c.debtpool_user_raft_amount(&owner, &s("a"), &s("rusd")), Ok(25));
    assert_eq!(c.accountbook_user_raft_amount(&owner, &s("a"), &s("rusd")), Ok(0));
    assert_eq!(c.accountbook_raft_amount(&s("rusd")), 0);
    assert_eq!(c.debtpool_raft_amount(&s("rusd")), WrappedBalance { amount: 25, is_positive: true });
    assert_eq!(c.debtpool_debt_ratio(&owner, &s("a")), Ok(0));
    assert_eq!(c.debtpool_debt_ratio(&owner, &s("b")), Ok(RATIO_DIVISOR));
}

#[test]
fn individual_redemption_at_exact_balance() {
    let mut c = exchange();
    let owner = s("owner");
    c.set_interest_fee(&owner, 100).unwrap();
    fund(&mut c, "alice", 1_000);
    let a = s("alice");
    c.mint_callback(&a, &s("near"), 300, &s("rusd"), 100, false, PromiseOutcome::Successful, 1, 1).unwrap();
    c.account_book_callback_deposit(&a, &s("rusd"), 10, PromiseOutcome::Successful).unwrap();
    assert_eq!(c.redeem_in_accountbook(&a, 0), Ok((s("near"), 300)));
    assert_eq!(c.accountbook_user_raft_amount(&a, &a, &s("rusd")), Ok(0));
    assert_eq!(c.accountbook_raft_amount(&s("rusd")), 10);
}

#[test]
fn deposit_hook_refuses_while_paused() {
    let mut c = exchange();
    c.internal_register_account(&s("alice"), BIG_STORAGE).unwrap();
    c.change_state(&s("owner"), RunningState::Paused).unwrap();
    assert_eq!(c.ft_on_transfer(&s("near"), &s("alice"), 5), Err(CraftingError::ContractPaused));
    c.change_state(&s("owner"), RunningState::Running).unwrap();
    assert_eq!(c.ft_on_transfer(&s("gold"), &s("alice"), 5), Err(CraftingError::TokenNotWhitelisted));
    assert_eq!(c.ft_on_transfer(&s("near"), &s("bob"), 5), Err(CraftingError::AccountNotRegistered));
    c.ft_on_transfer(&s("near"), &s("alice"), 5).unwrap();
    assert_eq!(c.internal_get_deposit(&s("alice"), &s("near")), 5);
}
