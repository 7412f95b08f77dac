//! A transaction-processing engine for client accounts: deposits, withdrawals,
//! disputes, resolutions and chargebacks, applied row by row to a set of
//! accounts, with the balances kept as exact fixed-point amounts.
pub mod model;
pub mod text;
pub mod operations;
pub mod laws;
pub mod decode;
pub mod csv_process;
pub mod output;
