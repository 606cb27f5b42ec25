//! Portfolio ledger with market-price extraction.
//!
//! The library keeps a ledger of purchased lots, normalizes the identifiers
//! that name assets and custody hosts, extracts market prices from the quote
//! page's known layouts, validates fetched price lists, and encodes the ledger
//! to and from its persisted form.

pub mod amount;
pub mod args;
pub mod assets;
pub mod codec;
mod clock;
pub mod data;
pub mod num;
pub mod text;
pub mod yf;
