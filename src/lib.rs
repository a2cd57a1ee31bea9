//! Ledger engine of a synthetic-asset exchange: a shared debt pool with
//! proportional debt ratios, a per-user account book, a price oracle and the
//! settlement of collateral releases.

pub mod table;
pub mod errors;
pub mod utils;
pub mod oracle;
pub mod debtpool;
pub mod accountbook;
pub mod account;
pub mod contract;
pub mod minting;
pub mod trading;
pub mod settlement;
pub mod redemption;
pub mod owner;
pub mod views;
