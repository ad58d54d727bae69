//! A dynamic token-compression ledger.
//!
//! The ledger mints extra *compressed token* ids (`>= n_vocab`), each standing for one raw
//! token window (`pattern`) together with the ternary code that decodes back into it. A long
//! context can then be shortened to a single ledger-backed id, and the whole ledger can be
//! sent to a peer and received back in a compact binary form.
//!
//! Modules:
//!   * [`viability`]: the viability score of an entry, held by its IEEE 754 bit pattern.
//!   * [`bytes`]: little-endian words and the hash that keys a window.
//!   * [`model`]: what a ledger is, mathematically.
//!   * [`ledger`]: the in-memory ledger (mint, reuse, prune, evict, look up).
//!   * [`laws`]: what every operation keeps, and how the operations relate.
//!   * [`layout`]: the bytes of the wire format.
//!   * [`wire`]: encoding and decoding of a ledger.
//!   * [`transport`]: the laws of sending and receiving.
//!   * [`text`]: numbers and words in text.
//!   * [`endpoint`]: what a ledger endpoint answers to a request.
//!   * [`replies`]: the laws of what the endpoint answers.

pub mod bytes;
pub mod endpoint;
pub mod laws;
pub mod layout;
pub mod ledger;
pub mod model;
pub mod replies;
pub mod text;
pub mod transport;
pub mod viability;
pub mod wire;

pub use ledger::{GeneratedToken, Ledger, LedgerConfig, TernaryCode};
pub use viability::Viability;
