//! Newtype parameters naming each dimension, count and size of the scheme,
//! and the error conditions reported by checked entry points.

use vstd::prelude::*;

verus! {

/// Number of mask elements of an LWE ciphertext (and of an LWE secret key).
#[derive(Clone, Copy, Debug, PartialEq, Eq, Structural)]
pub struct LweDimension(pub usize);

/// Number of torus elements of a whole LWE ciphertext: the dimension plus one body element.
#[derive(Clone, Copy, Debug, PartialEq, Eq, Structural)]
pub struct LweSize(pub usize);

/// Number of mask polynomials of a GLWE ciphertext (and of a GLWE secret key).
#[derive(Clone, Copy, Debug, PartialEq, Eq, Structural)]
pub struct GlweDimension(pub usize);

/// Number of polynomials of a whole GLWE ciphertext: the dimension plus one body polynomial.
#[derive(Clone, Copy, Debug, PartialEq, Eq, Structural)]
pub struct GlweSize(pub usize);

/// Number of coefficients of a polynomial modulo `X^N + 1`.
#[derive(Clone, Copy, Debug, PartialEq, Eq, Structural)]
pub struct PolynomialSize(pub usize);

/// Exponent of a monic monomial `X^r`.
#[derive(Clone, Copy, Debug, PartialEq, Eq, Structural)]
pub struct MonomialDegree(pub usize);

/// Number of plaintexts of a plaintext vector.
#[derive(Clone, Copy, Debug, PartialEq, Eq, Structural)]
pub struct PlaintextCount(pub usize);

/// Number of ciphertexts of a ciphertext vector.
#[derive(Clone, Copy, Debug, PartialEq, Eq, Structural)]
pub struct GlweCiphertextCount(pub usize);

/// Number of levels of a gadget decomposition.
#[derive(Clone, Copy, Debug, PartialEq, Eq, Structural)]
pub struct DecompositionLevelCount(pub usize);

/// Base-two logarithm of the base of a gadget decomposition.
#[derive(Clone, Copy, Debug, PartialEq, Eq, Structural)]
pub struct DecompositionBaseLog(pub usize);

/// Base-two logarithm of a noise standard deviation, measured on the real
/// torus `[0, 1)`: a value of `-29` asks for a standard deviation of `2^-29`.
/// Only negative values are meaningful: the kernel's noise is always a small
/// fraction of the torus.
#[derive(Clone, Copy, Debug, PartialEq, Eq, Structural)]
pub struct LogStandardDev(pub i64);

impl LweDimension {
    /// The size of a ciphertext of this dimension: one more element for the body.
    pub fn to_lwe_size(self) -> (r: LweSize)
        requires
            self.0 < usize::MAX,
        ensures
            r.0 == self.0 + 1,
    {
        LweSize(self.0 + 1)
    }
}

impl GlweDimension {
    /// The size of a ciphertext of this dimension: one more polynomial for the body.
    pub fn to_glwe_size(self) -> (r: GlweSize)
        requires
            self.0 < usize::MAX,
        ensures
            r.0 == self.0 + 1,
    {
        GlweSize(self.0 + 1)
    }
}

/// The distinct shape-mismatch conditions reported by checked entry points.
#[derive(Clone, Copy, Debug, PartialEq, Eq, Structural)]
pub enum ShapeError {
    /// A key and a ciphertext disagree on the LWE dimension.
    LweDimensionMismatch,
    /// A key and a ciphertext disagree on the GLWE dimension.
    GlweDimensionMismatch,
    /// Two entities disagree on the polynomial size.
    PolynomialSizeMismatch,
    /// A plaintext vector does not hold exactly the expected number of elements.
    PlaintextCountMismatch,
}

} // verus!
