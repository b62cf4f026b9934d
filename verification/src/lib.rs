//! Core of a local-first personal finance ledger: calendar dates, money in
//! minor units with checked arithmetic, and the per-currency balance rule of
//! double-entry bookkeeping.

pub mod date;
pub mod ledger;
pub mod money;
pub mod text;

pub use date::{Date, DateError};
pub use ledger::{is_balanced, Posting};
pub use money::{CurrencyCode, Money, MoneyError};
