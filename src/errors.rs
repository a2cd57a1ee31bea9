//! Why an operation of the exchange was refused.

use vstd::prelude::*;

verus! {

/// The condition that an operation violated. A refused operation changes no
/// state.
#[derive(Clone, Copy, Debug, PartialEq, Eq, Structural)]
pub enum CraftingError {
    /// The contract is paused.
    ContractPaused,
    /// The caller is not the owner.
    Unauthorized,
    /// The caller may not see another user's records.
    NoPermission,
    /// No price was ever fed for the asset.
    PriceNotFound,
    /// A value does not fit the integer type that holds it.
    Overflow,
    /// The collateral token is not whitelisted.
    TokenNotWhitelisted,
    /// A valuation divides by a value of zero.
    ZeroValue,
    /// The synthetic asset is not whitelisted.
    RaftNotWhitelisted,
    /// The collateral amount is zero.
    NoAttachedDeposit,
    /// The synthetic amount is zero.
    SyntheticAmountError,
    /// The leverage ratio lies outside the governance band.
    LeverageOutOfRange,
    /// The collateral ratio lies below the asset's minimum.
    CollateralRatioTooLow,
    /// The asset is not registered.
    AssetNotFound,
    /// An amount that must be positive is zero.
    IllegalAmount,
    /// A ledger row does not cover the amount.
    InsufficientBalance,
    /// The pool's total value is negative, or zero where it divides.
    InvalidTotalValue,
    /// No settlement asset is registered.
    SettlementAssetMissing,
    /// The user has no collateral record.
    NoCollaterals,
    /// No collateral record has that index.
    CollateralNotFound,
    /// The caller did not issue the collateral record.
    NotIssuer,
    /// The collateral record belongs to the debt pool.
    NotIndividualCollateral,
    /// The collateral record is not in its initial state.
    InvalidCollateralState,
    /// The account is not registered.
    AccountNotRegistered,
    /// The token is not registered in the account.
    TokenNotRegistered,
    /// The account holds too little of the token.
    NotEnoughTokens,
    /// The account's storage deposit does not cover its storage.
    InsufficientStorage,
    /// A non-whitelisted token cannot go to the lost-found ledger.
    NonWhitelistedLostFound,
    /// A fee exceeds its divisor.
    IllegalFee,
    /// A withdrawal amount is zero.
    IllegalWithdrawAmount,
    /// A token with a non-zero balance cannot be unregistered.
    NonZeroTokenBalance,
    /// An account identifier is malformed.
    InvalidAccountId,
    /// The leverage band lies outside its limits.
    InvalidLeverageRatio,
    /// No storage deposit is free to withdraw.
    NoStorageCanWithdraw,
    /// More storage deposit was asked for than is free.
    StorageWithdrawTooMuch,
    /// The inbound transfer did not succeed.
    TransferFailed,
}

} // verus!
