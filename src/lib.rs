//! An expense ledger engine: dated spending entries, split between contributors
//! by a share ratio, grouped by calendar month, totalled per payer and per
//! category, and stored one entry per line of comma-separated text.
pub mod model;
pub mod text;
pub mod period;
pub mod aggregate;
pub mod number;
pub mod codec;
pub mod common;
