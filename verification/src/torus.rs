//! Torus elements: unsigned integers of a fixed bit-width whose arithmetic
//! wraps modulo `2^width`, standing for fixed-point values in `[0, 1)`.

use vstd::prelude::*;
use vstd::arithmetic::power2::{pow2, lemma2_to64};
use vstd::arithmetic::div_mod::{lemma_small_mod, lemma_mod_multiples_vanish};

verus! {

/// An unsigned integer of fixed bit-width (32 or 64) whose add, subtract,
/// multiply and negate wrap modulo `2^width`.  Every ciphertext and plaintext
/// coefficient of the kernel is such an element.
pub trait TorusElement: Copy + Sized {
    /// The integer held, as a mathematical integer in `[0, modulus())`.
    spec fn value(self) -> int;

    /// The bit-width of the element.
    spec fn width() -> nat;

    /// The wrapping modulus, `2^width`.
    spec fn modulus() -> int;

    /// Facts every width obeys: the modulus is the corresponding power of two
    /// and the width is one of the two supported ones.
    proof fn type_properties()
        ensures
            Self::modulus() == pow2(Self::width()),
            Self::width() == 32 || Self::width() == 64,
    ;

    /// The held value always lies below the modulus.
    proof fn value_range(self)
        ensures
            0 <= self.value() < Self::modulus(),
    ;

    /// The zero element.
    fn zero() -> (r: Self)
        ensures
            r.value() == 0,
    ;

    /// Wrapping addition.
    fn wadd(self, other: Self) -> (r: Self)
        ensures
            r.value() == (self.value() + other.value()) % Self::modulus(),
    ;

    /// Wrapping subtraction.
    fn wsub(self, other: Self) -> (r: Self)
        ensures
            r.value() == (self.value() - other.value()) % Self::modulus(),
    ;

    /// Wrapping multiplication.
    fn wmul(self, other: Self) -> (r: Self)
        ensures
            r.value() == (self.value() * other.value()) % Self::modulus(),
    ;

    /// Wrapping negation.
    fn wneg(self) -> (r: Self)
        ensures
            r.value() == (0 - self.value()) % Self::modulus(),
    ;

    /// The element whose value is `x` reduced modulo the modulus.
    fn from_u64(x: u64) -> (r: Self)
        ensures
            r.value() == (x as int) % Self::modulus(),
    ;

    /// The held value, as a machine integer.
    fn to_u64(self) -> (r: u64)
        ensures
            r as int == self.value(),
    ;

    /// The bit-width, as a machine integer.
    fn bits() -> (r: u32)
        ensures
            r as nat == Self::width(),
    ;
}

/// The wrapping modulus of any torus element is at least two and fits the
/// widest supported machine word.
pub proof fn lemma_modulus_pos<T: TorusElement>()
    ensures
        T::modulus() > 1,
        T::modulus() <= 0x1_0000_0000_0000_0000,
{
    T::type_properties();
    lemma2_to64();
}

/// `x % m` for `x` already in `[0, 2m)` keeps or shifts `x` down by one `m`.
pub proof fn lemma_mod_in_twice_range(x: int, m: int)
    requires
        m > 0,
        0 <= x < 2 * m,
    ensures
        x % m == if x < m { x } else { x - m },
{
    if x < m {
        lemma_small_mod(x as nat, m as nat);
    } else {
        lemma_mod_multiples_vanish(1, x - m, m);
        lemma_small_mod((x - m) as nat, m as nat);
    }
}

/// `x % m` for `x` already in `(-m, m)` keeps `x` or shifts it up by one `m`.
pub proof fn lemma_mod_in_signed_range(x: int, m: int)
    requires
        m > 0,
        0 - m < x < m,
    ensures
        x % m == if x >= 0 { x } else { x + m },
{
    if x >= 0 {
        lemma_small_mod(x as nat, m as nat);
    } else {
        lemma_mod_multiples_vanish(1, x, m);
        lemma_small_mod((x + m) as nat, m as nat);
    }
}

impl TorusElement for u32 {
    open spec fn value(self) -> int {
        self as int
    }

    open spec fn width() -> nat {
        32
    }

    open spec fn modulus() -> int {
        0x1_0000_0000
    }

    proof fn type_properties() {
        lemma2_to64();
    }

    proof fn value_range(self) {
    }

    fn zero() -> (r: Self) {
        0
    }

    fn wadd(self, other: Self) -> (r: Self) {
        proof {
            lemma_mod_in_twice_range(self + other, 0x1_0000_0000);
        }
        self.wrapping_add(other)
    }

    fn wsub(self, other: Self) -> (r: Self) {
        proof {
            lemma_mod_in_signed_range(self - other, 0x1_0000_0000);
        }
        self.wrapping_sub(other)
    }

    fn wmul(self, other: Self) -> (r: Self) {
        self.wrapping_mul(other)
    }

    fn wneg(self) -> (r: Self) {
        proof {
            lemma_mod_in_signed_range(0 - self, 0x1_0000_0000);
        }
        0u32.wrapping_sub(self)
    }

    fn from_u64(x: u64) -> (r: Self) {
        (x % 0x1_0000_0000) as u32
    }

    fn to_u64(self) -> (r: u64) {
        self as u64
    }

    fn bits() -> (r: u32) {
        32
    }
}

impl TorusElement for u64 {
    open spec fn value(self) -> int {
        self as int
    }

    open spec fn width() -> nat {
        64
    }

    open spec fn modulus() -> int {
        0x1_0000_0000_0000_0000
    }

    proof fn type_properties() {
        lemma2_to64();
    }

    proof fn value_range(self) {
    }

    fn zero() -> (r: Self) {
        0
    }

    fn wadd(self, other: Self) -> (r: Self) {
        proof {
            lemma_mod_in_twice_range(self + other, 0x1_0000_0000_0000_0000);
        }
        self.wrapping_add(other)
    }

    fn wsub(self, other: Self) -> (r: Self) {
        proof {
            lemma_mod_in_signed_range(self - other, 0x1_0000_0000_0000_0000);
        }
        self.wrapping_sub(other)
    }

    fn wmul(self, other: Self) -> (r: Self) {
        self.wrapping_mul(other)
    }

    fn wneg(self) -> (r: Self) {
        proof {
            lemma_mod_in_signed_range(0 - self, 0x1_0000_0000_0000_0000);
        }
        0u64.wrapping_sub(self)
    }

    fn from_u64(x: u64) -> (r: Self) {
        x
    }

    fn to_u64(self) -> (r: u64) {
        self
    }

    fn bits() -> (r: u32) {
        64
    }
}

} // verus!
