//! Filter expressions for a remote key-value store: an expression tree and
//! its verified two-phase (size, then write) binary encoder.
pub mod msgpack;
pub mod expressions;
pub mod index_types;

pub use msgpack::{Buffer, EncodeError, Value};
