//! Modular-arithmetic core of an RNS-based polynomial ring: contexts over
//! chains of word-sized prime moduli, per-modulus transforms between the
//! power basis and the transform domain, and exact correctly-rounded
//! rescaling of ring elements from one modulus chain to another.

pub mod arith;
pub mod bigint;
pub mod context;
pub mod crt;
pub mod error;
pub mod matrix;
pub mod poly;
pub mod rns;
pub mod scaler;
pub mod traits;
pub mod transform;
