//! Dual-venue level-2 order book ingestion and merge library.
//!
//! The crate reconstructs a normalized order book for each of two trading
//! venues — one venue resends its full top-of-book on every message, the
//! other sends a snapshot followed by keyed deltas — and merges the two
//! books into a single depth-truncated view with derived cross-venue
//! signals.  Prices and sizes are exact fixed-point decimals; every book
//! mutation and every signal formula is specified and verified here, while
//! transports, JSON framing and rendering live with the binary around the
//! library.

pub mod config;
pub mod fixed;
pub mod hyperliquid;
pub mod merger;
pub mod paradex;
pub mod text;
pub mod types;
