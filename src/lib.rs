//! Arithmetic over GF(p^2) with p = 2^31 - 1, a keyed sign-and-multiply
//! transform over sequences of field elements, and the frame-of-reference
//! engine built on them.

pub mod field;
pub mod transform;
pub mod system;

pub use field::{
    GFp2, P, PHI_A, PHI_B, modp, mul_mod, add_mod, sub_mod, mul_gfp2, to_gfp2, exp_gfp2, exp_phi,
    exp_phi_inverse, check_irreducible,
};
pub use transform::{
    binary_haar_transform, apply_phi_transform, chunk_size_for, get_chunk_size, BASE_CHUNK_SIZE,
};
pub use system::ForeSystem;
