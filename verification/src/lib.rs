//! Transaction review engine of a hardware-wallet signing application.
//!
//! A transaction reaches the device in chunks. The crate decodes the compact
//! integers in it, renders amounts and addresses as text, and decides, field
//! by field, what the trusted display has to show before a signature may be
//! released.
//!
//! - `u256`: the compact encoding of integers of up to 256 bits, its
//!   resumable decoder and its renderings;
//! - `base58`: base-58 text and the arithmetic behind it;
//! - `staging`: the byte store in which the text of a field is laid out;
//! - `tx_reviewer`: the engine that reviews one field at a time;
//! - `tx_reviewer_inner`: the review that streams its screens into one
//!   session of the display;
//! - `types`: the fields of a transaction as the engine reads them;
//! - `numeral`, `text`, `bytes`, `decode`, `error`: what the others share.

pub mod base58;
pub mod bytes;
pub mod decode;
pub mod error;
pub mod numeral;
pub mod staging;
pub mod text;
pub mod tx_reviewer;
pub mod tx_reviewer_inner;
pub mod types;
pub mod u256;
