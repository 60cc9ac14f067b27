//! Order-preserving lossy codes for column values: a small dictionary maps
//! each value of an ordered type to an 8- or 16-bit code, such that predicates
//! on codes give no false negatives.
pub mod code;
pub mod dict;
pub mod laws;
pub mod order;
pub mod select;

pub use code::{Code, Mode};
pub use dict::{Dict, ValReq};
