//! Stateless visitor tokens built on a format-preserving permutation of
//! timestamps: an eight-round Feistel network over Z_24, a base-24 number
//! and its base-62 spelling, with a key per time window.

pub mod arith;
pub mod mix;
pub mod feistel;
pub mod codec;
pub mod text;
pub mod fingerprint;
pub mod calendar;
pub mod timestamp;
pub mod token;

pub use fingerprint::{make_fingerprint, recover_values};
pub use timestamp::{parse_timestamp, Timestamp, TimestampError};
pub use token::{
    make_token, token_generation, validate_token, validate_token_at, Validation,
    DEFAULT_WINDOW_MINUTES,
};
