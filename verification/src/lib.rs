//! Argon2 password hashing (version 0x10), Argon2d and Argon2i variants,
//! together with the PHC-string verifier.

pub mod argon2;
mod b2;
pub mod block;
pub mod compress;
pub mod octword;
pub mod phc;

pub use crate::argon2::argon2d_simple;
pub use crate::argon2::argon2i_simple;
pub use crate::argon2::h0;
pub use crate::argon2::h_prime;
pub use crate::argon2::index_alpha;
pub use crate::argon2::split_u64;
pub use crate::argon2::xor_all;
pub use crate::argon2::Argon2;
pub use crate::argon2::IndexGen;
pub use crate::argon2::ParamErr;
pub use crate::argon2::Variant;
pub use crate::block::zero;
pub use crate::block::Block;
pub use crate::block::Matrix;
pub use crate::compress::g;
pub use crate::compress::g_two;
pub use crate::compress::p_col;
pub use crate::compress::p_row;
pub use crate::octword::u64x2;
pub use crate::phc::base64_no_pad;
pub use crate::phc::constant_eq;
pub use crate::phc::debase64_no_pad;
pub use crate::phc::DecodeError;
pub use crate::phc::Verifier;
