//! Capability contracts at the boundary of the ring core: encoding,
//! decoding, encryption and decryption are implemented by higher layers
//! on top of `Poly`, `Context` and `Scaler`, and consumed here only
//! through these narrow traits.

use vstd::prelude::*;
use std::rc::Rc;
use crate::context::Context;
use crate::poly::Poly;

verus! {

/// A named plaintext encoding scheme.
#[derive(Clone, Copy, PartialEq, Eq, Structural, Debug)]
pub enum Encoding {
    /// Coefficients encode the value positionally.
    Poly,
    /// Slot-wise (SIMD) encoding through the transform domain.
    Simd,
}

/// Scheme parameters as the boundary sees them: the ring and the
/// plaintext modulus.
pub struct BfvParameters {
    pub ctx: Rc<Context>,
    pub plaintext_modulus: u64,
}

/// An encoded application value: a ring element together with the
/// encoding it was produced under.
pub struct Plaintext {
    pub poly: Poly,
    pub encoding: Option<Encoding>,
}

/// An encryption of a plaintext: a vector of ring elements.
pub struct Ciphertext {
    pub c: Vec<Poly>,
}

/// Encode values into a plaintext.
pub trait Encoder<T> where Self: Sized {
    /// The type of errors.
    type Error;

    /// Attempt to encode `value` under the given encoding and parameters.
    fn try_encode(value: T, encoding: Encoding, par: &Rc<BfvParameters>) -> Result<
        Self,
        Self::Error,
    >;
}

/// Decode plaintext values.
pub trait Decoder where Self: Sized {
    /// The type of errors.
    type Error;

    /// Attempt to decode the plaintext, with an optional encoding hint.
    fn try_decode(a: &Plaintext, encoding: Option<Encoding>) -> Result<Self, Self::Error>;
}

/// Encrypt a plaintext into a ciphertext.
pub trait Encryptor {
    /// The type of errors.
    type Error;

    /// Encrypt a plaintext.
    fn encrypt(&self, plaintext: &Plaintext) -> Result<Ciphertext, Self::Error>;
}

/// Decrypt a ciphertext into a plaintext.
pub trait Decryptor {
    /// The type of errors.
    type Error;

    /// Decrypt a ciphertext.
    fn decrypt(&self, ciphertext: &Ciphertext) -> Result<Plaintext, Self::Error>;
}

} // verus!
