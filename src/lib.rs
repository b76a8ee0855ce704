//! Validation of block headers and transactions: compact targets,
//! proof of work, merkle roots and 256-bit arithmetic.

pub mod block;
pub mod decode;
pub mod encode;
pub mod hash;
pub mod transaction;
pub mod uint;
pub mod util;
