//! Random generators: a cryptographically secure uniform generator, a secret
//! generator producing uniform binary coefficients for keys, and an
//! encryption generator producing uniform masks and Gaussian-like noise.
//!
//! The noise sampler is a central-limit approximation of the discrete
//! Gaussian: the sum of twelve uniform draws in `[-B, B]` with `B` set to
//! half the requested standard deviation (in torus units), which gives a
//! variance of `12 * B^2 / 3 = sigma^2` and a support bounded by `12 * B`.

use vstd::prelude::*;
use vstd::arithmetic::power2::{pow2, lemma_pow2_strictly_increases, lemma2_to64};
use vstd::arithmetic::div_mod::{lemma_small_mod, lemma_sub_mod_noop, lemma_div_is_ordered};
use vstd::bits::lemma_u64_shl_is_mul;
use rand::RngCore;
use rand::SeedableRng;
use crate::torus::{TorusElement, lemma_modulus_pos};
use crate::params::LogStandardDev;

verus! {

#[verifier::external_type_specification]
#[verifier::external_body]
pub struct ExStdRng(rand::rngs::StdRng);

/// Relies on `rand::rngs::StdRng` with `SeedableRng::from_entropy`: a
/// cryptographically secure generator seeded from the operating system; it
/// aborts the process only if the entropy source is unavailable.
#[verifier::external_body]
fn rng_from_entropy() -> rand::rngs::StdRng {
    rand::rngs::StdRng::from_entropy()
}

/// Relies on `rand::SeedableRng::seed_from_u64`: a deterministic generator
/// state computed from the seed alone.
#[verifier::external_body]
fn rng_from_seed(seed: u64) -> rand::rngs::StdRng {
    rand::rngs::StdRng::seed_from_u64(seed)
}

/// Relies on `rand::RngCore::next_u64`: the next eight bytes of the stream.
/// Nothing can be promised of a random value.
#[verifier::external_body]
fn rng_next_u64(rng: &mut rand::rngs::StdRng) -> u64 {
    rng.next_u64()
}

/// A generator of uniform random torus elements.  Each draw consumes exactly
/// eight bytes of the underlying stream, so a seeded generator is fully
/// deterministic.
pub struct RandomGenerator {
    rng: rand::rngs::StdRng,
}

impl RandomGenerator {
    /// A generator seeded from the operating system, or deterministically
    /// from the given seed.
    pub fn new(seed: Option<u64>) -> Self {
        match seed {
            Some(s) => RandomGenerator { rng: rng_from_seed(s) },
            None => RandomGenerator { rng: rng_from_entropy() },
        }
    }

    /// The next uniform torus element: one draw reduced modulo `2^width`.
    /// The modulus divides `2^64`, so the reduction keeps the draw uniform.
    pub fn random_uniform<T: TorusElement>(&mut self) -> T {
        T::from_u64(rng_next_u64(&mut self.rng))
    }

    /// The next uniform binary element: zero or one.
    pub fn random_uniform_binary<T: TorusElement>(&mut self) -> (r: T)
        ensures
            0 <= r.value() < 2,
    {
        let x = rng_next_u64(&mut self.rng) % 2;
        proof {
            lemma_modulus_pos::<T>();
            lemma_small_mod(x as nat, T::modulus() as nat);
        }
        T::from_u64(x)
    }

    /// A buffer of `size` uniform torus elements.
    pub fn random_uniform_tensor<T: TorusElement>(&mut self, size: usize) -> (r: Vec<T>)
        ensures
            r@.len() == size,
    {
        let mut out: Vec<T> = Vec::new();
        for i in 0..size
            invariant
                out@.len() == i,
        {
            let x = self.random_uniform();
            out.push(x);
        }
        out
    }

    /// A buffer of `size` uniform binary elements.
    pub fn random_binary_tensor<T: TorusElement>(&mut self, size: usize) -> (r: Vec<T>)
        ensures
            r@.len() == size,
            forall|i: int| 0 <= i < size ==> 0 <= (#[trigger] r@[i]).value() < 2,
    {
        let mut out: Vec<T> = Vec::new();
        for i in 0..size
            invariant
                out@.len() == i,
                forall|j: int| 0 <= j < i ==> 0 <= (#[trigger] out@[j]).value() < 2,
        {
            let x = self.random_uniform_binary();
            out.push(x);
        }
        out
    }
}

/// A generator of secret-key material: uniform binary coefficients.
pub struct SecretRandomGenerator {
    inner: RandomGenerator,
}

impl SecretRandomGenerator {
    /// A generator seeded from the operating system, or deterministically
    /// from the given seed.
    pub fn new(seed: Option<u64>) -> Self {
        SecretRandomGenerator { inner: RandomGenerator::new(seed) }
    }

    /// A buffer of `size` uniform binary secret coefficients.
    pub fn random_binary_tensor<T: TorusElement>(&mut self, size: usize) -> (r: Vec<T>)
        ensures
            r@.len() == size,
            forall|i: int| 0 <= i < size ==> 0 <= (#[trigger] r@[i]).value() < 2,
    {
        self.inner.random_binary_tensor(size)
    }
}

/// The standard deviation asked for, in torus units: `2^(width + log_std)`,
/// or zero when the exponent is negative (a standard deviation below one
/// torus step).
pub open spec fn noise_amplitude(width: nat, log_std: int) -> int {
    if width + log_std >= 0 {
        pow2((width + log_std) as nat) as int
    } else {
        0
    }
}

/// Every noise sample lies within `12 * (amplitude / 2)` torus steps of zero:
/// the extreme value of the sum of twelve draws in `[-amplitude/2, amplitude/2]`.
pub open spec fn noise_bound<T: TorusElement>(std_dev: LogStandardDev) -> int {
    12 * (noise_amplitude(T::width(), std_dev.0 as int) / 2)
}

/// `v` is the wrapped representation of the signed noise magnitude `e`.
pub open spec fn represents_noise(v: int, e: int, m: int) -> bool {
    v == e % m
}

/// `v` wraps some signed noise magnitude within the bound of `std_dev`.
pub open spec fn is_bounded_noise<T: TorusElement>(v: int, std_dev: LogStandardDev) -> bool {
    exists|e: int|
        #[trigger] represents_noise(v, e, T::modulus()) && -noise_bound::<T>(std_dev) <= e
            <= noise_bound::<T>(std_dev)
}

/// A smaller standard deviation gives a smaller noise bound.
pub proof fn lemma_noise_bound_monotonic<T: TorusElement>(s1: LogStandardDev, s2: LogStandardDev)
    requires
        s1.0 <= s2.0,
    ensures
        noise_bound::<T>(s1) <= noise_bound::<T>(s2),
{
    let w = T::width();
    let a1 = noise_amplitude(w, s1.0 as int);
    let a2 = noise_amplitude(w, s2.0 as int);
    if w + s1.0 >= 0 && s1.0 < s2.0 {
        lemma_pow2_strictly_increases((w + s1.0) as nat, (w + s2.0) as nat);
    }
    assert(a1 <= a2);
    lemma_div_is_ordered(a1, a2, 2);
}

/// A generator of encryption material: uniform masks and bounded
/// Gaussian-like noise at a configured standard deviation.
pub struct EncryptionRandomGenerator {
    inner: RandomGenerator,
}

impl EncryptionRandomGenerator {
    /// A generator seeded from the operating system, or deterministically
    /// from the given seed.
    pub fn new(seed: Option<u64>) -> Self {
        EncryptionRandomGenerator { inner: RandomGenerator::new(seed) }
    }

    /// A buffer of `size` uniform mask elements.
    pub fn random_mask_tensor<T: TorusElement>(&mut self, size: usize) -> (r: Vec<T>)
        ensures
            r@.len() == size,
    {
        self.inner.random_uniform_tensor(size)
    }

    /// One noise sample: a torus element holding a signed magnitude `e` with
    /// `|e| <= noise_bound`, drawn from the central-limit sampler described
    /// in the module documentation.
    #[verifier::loop_isolation(false)]
    pub fn random_noise<T: TorusElement>(&mut self, std_dev: LogStandardDev) -> (r: T)
        requires
            std_dev.0 < 0,
        ensures
            is_bounded_noise::<T>(r.value(), std_dev),
    {
        proof {
            lemma_modulus_pos::<T>();
            T::type_properties();
        }
        let ghost m = T::modulus();
        let w = T::bits() as i64;
        let ex = w + std_dev.0;
        let half: u64 = if ex <= 0 {
            0u64
        } else {
            proof {
                lemma_pow2_strictly_increases((ex as int) as nat, T::width());
                lemma_u64_shl_is_mul(1u64, ex as u64);
            }
            let sigma = 1u64 << (ex as u64);
            sigma / 2
        };
        proof {
            lemma2_to64();
            assert(half as int == noise_amplitude(T::width(), std_dev.0 as int) / 2);
            if ex > 0 {
                lemma_pow2_strictly_increases((ex as int) as nat, T::width());
            }
            assert(2 * (half as int) < m);
        }
        let span = 2 * half + 1;
        let mut acc = T::zero();
        let ghost mut esum: int = 0;
        proof {
            lemma_small_mod(0, m as nat);
        }
        for i in 0..12u64
            invariant
                0 <= esum <= i * (2 * (half as int)),
                acc.value() == esum % m,
        {
            let d = rng_next_u64(&mut self.inner.rng) % span;
            proof {
                lemma_small_mod(d as nat, m as nat);
                vstd::arithmetic::div_mod::lemma_add_mod_noop(esum, d as int, m);
                assert((i + 1) * (2 * (half as int)) == i * (2 * (half as int)) + 2 * (
                half as int)) by (nonlinear_arith);
            }
            acc = acc.wadd(T::from_u64(d));
            proof {
                esum = esum + d;
            }
        }
        let offset = T::from_u64(half);
        let ghost e0 = esum;
        let mut r = acc;
        proof {
            lemma_small_mod(half as nat, m as nat);
            assert(r.value() == (e0 - 0 * (half as int)) % m);
        }
        for i in 0..12u64
            invariant
                r.value() == (e0 - i * (half as int)) % m,
        {
            proof {
                lemma_sub_mod_noop(e0 - i * (half as int), half as int, m);
                assert((i + 1) * (half as int) == i * (half as int) + (half as int))
                    by (nonlinear_arith);
            }
            r = r.wsub(offset);
        }
        proof {
            let e = e0 - 12 * (half as int);
            assert(represents_noise(r.value(), e, m));
            assert(-noise_bound::<T>(std_dev) <= e <= noise_bound::<T>(std_dev));
        }
        r
    }

    /// A buffer of `size` noise samples, each bounded as `random_noise` says.
    #[verifier::loop_isolation(false)]
    pub fn random_noise_tensor<T: TorusElement>(
        &mut self,
        size: usize,
        std_dev: LogStandardDev,
    ) -> (r: Vec<T>)
        requires
            std_dev.0 < 0,
        ensures
            r@.len() == size,
            forall|i: int|
                0 <= i < size ==> #[trigger] is_bounded_noise::<T>(r@[i].value(), std_dev),
    {
        let mut out: Vec<T> = Vec::new();
        for i in 0..size
            invariant
                out@.len() == i,
                forall|j: int|
                    0 <= j < i ==> #[trigger] is_bounded_noise::<T>(out@[j].value(), std_dev),
        {
            let x = self.random_noise(std_dev);
            out.push(x);
        }
        out
    }
}

} // verus!
