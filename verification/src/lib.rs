//! A per-connection price ledger behind a fixed-width binary protocol.
//!
//! The [`codec`] module decodes 9-byte request frames into typed requests and
//! encodes 4-byte big-endian replies. The [`ledger`] module keeps one
//! connection's (timestamp, price) observations ordered by timestamp and
//! answers inclusive-range mean-price queries over them.

pub mod codec;
pub mod ledger;
