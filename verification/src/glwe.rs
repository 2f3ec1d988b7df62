//! GLWE secret keys and ciphertexts: the polynomial-ring analogue of LWE.
//! The mask is a vector of polynomials, the inner product becomes a sum of
//! ring products modulo `X^N + 1`, and encryption adds noise to every
//! coefficient of the body polynomial.

use vstd::prelude::*;
use vstd::arithmetic::div_mod::{
    lemma_small_mod, lemma_add_mod_noop, lemma_sub_mod_noop, lemma_sub_mod_noop_right,
};
use crate::torus::{TorusElement, lemma_modulus_pos};
use crate::params::{
    GlweDimension, GlweSize, PolynomialSize, GlweCiphertextCount, LogStandardDev, ShapeError,
};
use crate::polynomial::{Polynomial, poly_mul_coef, is_power_of_two};
use crate::random::{
    SecretRandomGenerator, EncryptionRandomGenerator, is_bounded_noise,
};
use crate::lwe::PlaintextVector;

verus! {

/// The coefficient values of every polynomial of a list.
pub open spec fn poly_list_values<T: TorusElement>(ps: Seq<Polynomial<T>>) -> Seq<Seq<int>> {
    Seq::new(ps.len(), |i: int| ps[i].values())
}

/// Every polynomial of the list has `n` coefficients.
pub open spec fn all_of_size<T: TorusElement>(ps: Seq<Polynomial<T>>, n: nat) -> bool {
    forall|i: int| 0 <= i < ps.len() ==> (#[trigger] ps[i]).spec_len() == n
}

/// Coefficient `k` of the sum over `j` of the ring products
/// `masks[j] * keys[j]`, as an unreduced integer.
pub open spec fn glwe_dot_coef(masks: Seq<Seq<int>>, keys: Seq<Seq<int>>, k: int) -> int
    decreases masks.len(),
{
    if masks.len() == 0 {
        0
    } else {
        glwe_dot_coef(masks.drop_last(), keys, k) + if masks.len() - 1 < keys.len() {
            poly_mul_coef(masks.last(), keys[masks.len() - 1], k)
        } else {
            0
        }
    }
}

/// Coefficient `k` of the phase of a GLWE ciphertext under a key: the body
/// coefficient minus the mask / key ring inner product, reduced.
pub open spec fn glwe_phase_coef(
    masks: Seq<Seq<int>>,
    keys: Seq<Seq<int>>,
    body: Seq<int>,
    k: int,
    m: int,
) -> int {
    (body[k] - glwe_dot_coef(masks, keys, k)) % m
}

/// The ciphertext `(masks, body)` encrypts the polynomial `plain` under
/// `keys` at standard deviation `std_dev`: every phase coefficient sits
/// within the noise bound of the matching plaintext coefficient.
pub open spec fn glwe_encrypts<T: TorusElement>(
    keys: Seq<Seq<int>>,
    masks: Seq<Seq<int>>,
    body: Seq<int>,
    plain: Seq<int>,
    std_dev: LogStandardDev,
) -> bool {
    forall|k: int|
        0 <= k < body.len() ==> is_bounded_noise::<T>(
            ((#[trigger] glwe_phase_coef(masks, keys, body, k, T::modulus())) - plain[k])
                % T::modulus(),
            std_dev,
        )
}

/// Changing one mask polynomial by a summand whose ring product with its
/// key polynomial is `delta` changes the mask / key inner product by
/// `delta`, modulo `m`.
pub proof fn lemma_glwe_dot_update(
    masks1: Seq<Seq<int>>,
    masks2: Seq<Seq<int>>,
    keys: Seq<Seq<int>>,
    j: int,
    kc: int,
    m: int,
    delta: int,
)
    requires
        m > 0,
        masks1.len() == masks2.len(),
        0 <= j < masks1.len(),
        j < keys.len(),
        forall|i: int| 0 <= i < masks1.len() && i != j ==> #[trigger] masks2[i] == masks1[i],
        poly_mul_coef(masks2[j], keys[j], kc) % m == (poly_mul_coef(masks1[j], keys[j], kc)
            + delta) % m,
    ensures
        glwe_dot_coef(masks2, keys, kc) % m == (glwe_dot_coef(masks1, keys, kc) + delta) % m,
    decreases masks1.len(),
{
    let last = masks1.len() - 1;
    let pre1 = glwe_dot_coef(masks1.drop_last(), keys, kc);
    let pre2 = glwe_dot_coef(masks2.drop_last(), keys, kc);
    if last == j {
        assert(masks1.drop_last() =~= masks2.drop_last());
        let pm1 = poly_mul_coef(masks1[j], keys[j], kc);
        let pm2 = poly_mul_coef(masks2[j], keys[j], kc);
        lemma_add_mod_noop(pre1, pm2, m);
        lemma_add_mod_noop(pre1, pm1 + delta, m);
        vstd::arithmetic::div_mod::lemma_mod_twice(pm1 + delta, m);
    } else {
        lemma_glwe_dot_update(masks1.drop_last(), masks2.drop_last(), keys, j, kc, m, delta);
        assert(masks2[last] == masks1[last]);
        let pm = poly_mul_coef(masks1[last], keys[last], kc);
        lemma_add_mod_noop(pre2, pm, m);
        lemma_add_mod_noop(pre1 + delta, pm, m);
        vstd::arithmetic::div_mod::lemma_mod_twice(pre1 + delta, m);
        lemma_add_mod_noop(pre1, pm, m);
        vstd::arithmetic::div_mod::lemma_mod_twice(pre1 + pm, m);
        lemma_add_mod_noop(pre1 + pm, delta, m);
        assert((pre2 + pm) % m == (pre1 + pm + delta) % m);
    }
}

/// Decrypting a GLWE encryption recovers every plaintext coefficient up to
/// a wrapped noise of magnitude at most the bound of `std_dev` — and that
/// bound shrinks with the standard deviation
/// (`lemma_noise_bound_monotonic`).
pub proof fn lemma_glwe_round_trip<T: TorusElement>(
    keys: Seq<Seq<int>>,
    masks: Seq<Seq<int>>,
    body: Seq<int>,
    plain: Seq<int>,
    std_dev: LogStandardDev,
    decrypted: Seq<int>,
)
    requires
        glwe_encrypts::<T>(keys, masks, body, plain, std_dev),
        decrypted.len() == body.len(),
        forall|k: int|
            0 <= k < body.len() ==> #[trigger] decrypted[k] == glwe_phase_coef(
                masks,
                keys,
                body,
                k,
                T::modulus(),
            ),
    ensures
        forall|k: int|
            0 <= k < body.len() ==> is_bounded_noise::<T>(
                ((#[trigger] decrypted[k]) - plain[k]) % T::modulus(),
                std_dev,
            ),
{
    assert forall|k: int| 0 <= k < body.len() implies is_bounded_noise::<T>(
        ((#[trigger] decrypted[k]) - plain[k]) % T::modulus(),
        std_dev,
    ) by {
        assert(is_bounded_noise::<T>(
            (glwe_phase_coef(masks, keys, body, k, T::modulus()) - plain[k]) % T::modulus(),
            std_dev,
        ));
    }
}

/// Every coefficient of every polynomial of the ciphertext equals `v`.
pub open spec fn glwe_filled_with<T: TorusElement>(ct: GlweCiphertext<T>, v: int) -> bool {
    &&& forall|j: int, kc: int|
        0 <= j < ct.mask@.len() && 0 <= kc < ct.body.spec_len()
            ==> #[trigger] ct.mask_values()[j][kc] == v
    &&& forall|kc: int| 0 <= kc < ct.body.spec_len() ==> #[trigger] ct.body_values()[kc] == v
}

/// A GLWE ciphertext: `glwe_dimension` mask polynomials plus one body
/// polynomial, all of the same size.  Owns its buffers.
pub struct GlweCiphertext<T: TorusElement> {
    pub mask: Vec<Polynomial<T>>,
    pub body: Polynomial<T>,
}

impl<T: TorusElement> GlweCiphertext<T> {
    /// The values of the mask polynomials.
    pub open spec fn mask_values(&self) -> Seq<Seq<int>> {
        poly_list_values(self.mask@)
    }

    /// The values of the body polynomial.
    pub open spec fn body_values(&self) -> Seq<int> {
        self.body.values()
    }

    /// All polynomials share the size `n`.
    pub open spec fn wf(&self, n: nat) -> bool {
        &&& all_of_size(self.mask@, n)
        &&& self.body.spec_len() == n
    }

    /// An all-`value` ciphertext: `size.0 - 1` mask polynomials and a body,
    /// each of `poly_size` coefficients.
    pub fn allocate(value: T, poly_size: PolynomialSize, size: GlweSize) -> (r: Self)
        requires
            size.0 > 0,
        ensures
            r.mask@.len() == size.0 - 1,
            r.wf(poly_size.0 as nat),
            glwe_filled_with(r, value.value()),
    {
        let mut mask: Vec<Polynomial<T>> = Vec::new();
        let dim = size.0 - 1;
        for j in 0..dim
            invariant
                mask@.len() == j,
                all_of_size(mask@, poly_size.0 as nat),
                forall|t: int, kc: int|
                    0 <= t < j && 0 <= kc < poly_size.0 ==> #[trigger] mask@[t].values()[kc]
                        == value.value(),
        {
            mask.push(Polynomial::allocate(value, poly_size));
        }
        let r = GlweCiphertext { mask, body: Polynomial::allocate(value, poly_size) };
        proof {
            assert(glwe_filled_with(r, value.value()));
        }
        r
    }

    /// The dimension: the number of mask polynomials.
    pub fn glwe_dimension(&self) -> (r: GlweDimension)
        ensures
            r.0 == self.mask@.len(),
    {
        GlweDimension(self.mask.len())
    }

    /// The shared polynomial size.
    pub fn polynomial_size(&self) -> (r: PolynomialSize)
        ensures
            r.0 == self.body.spec_len(),
    {
        self.body.polynomial_size()
    }

    /// Replace the body polynomial, e.g. with an encoded lookup table.
    pub fn set_body(&mut self, body: Polynomial<T>)
        requires
            body.spec_len() == old(self).body.spec_len(),
        ensures
            final(self).body == body,
            final(self).mask == old(self).mask,
    {
        self.body = body;
    }
}

/// A contiguous vector of GLWE ciphertexts of one shared shape.
pub struct GlweCiphertextVector<T: TorusElement> {
    pub cts: Vec<GlweCiphertext<T>>,
    pub glwe_dimension: GlweDimension,
    pub polynomial_size: PolynomialSize,
}

impl<T: TorusElement> GlweCiphertextVector<T> {
    /// Every held ciphertext has the nominal dimension and size.
    pub open spec fn wf(&self) -> bool {
        forall|i: int|
            0 <= i < self.cts@.len() ==> {
                &&& (#[trigger] self.cts@[i]).wf(self.polynomial_size.0 as nat)
                &&& self.cts@[i].mask@.len() == self.glwe_dimension.0
            }
    }

    /// An all-`value` vector of `count` ciphertexts.
    #[verifier::loop_isolation(false)]
    pub fn allocate(
        value: T,
        poly_size: PolynomialSize,
        size: GlweSize,
        count: GlweCiphertextCount,
    ) -> (r: Self)
        requires
            size.0 > 0,
        ensures
            r.cts@.len() == count.0,
            r.glwe_dimension.0 == size.0 - 1,
            r.polynomial_size == poly_size,
            r.wf(),
            forall|i: int|
                0 <= i < count.0 ==> glwe_filled_with(#[trigger] r.cts@[i], value.value()),
    {
        let mut cts: Vec<GlweCiphertext<T>> = Vec::new();
        for i in 0..count.0
            invariant
                cts@.len() == i,
                forall|j: int|
                    0 <= j < i ==> {
                        &&& (#[trigger] cts@[j]).wf(poly_size.0 as nat)
                        &&& cts@[j].mask@.len() == size.0 - 1
                        &&& glwe_filled_with(cts@[j], value.value())
                    },
        {
            cts.push(GlweCiphertext::allocate(value, poly_size, size));
        }
        GlweCiphertextVector {
            cts,
            glwe_dimension: GlweDimension(size.0 - 1),
            polynomial_size: poly_size,
        }
    }

    /// The nominal dimension.
    pub fn glwe_dimension(&self) -> (r: GlweDimension)
        ensures
            r == self.glwe_dimension,
    {
        self.glwe_dimension
    }

    /// The nominal polynomial size.
    pub fn polynomial_size(&self) -> (r: PolynomialSize)
        ensures
            r == self.polynomial_size,
    {
        self.polynomial_size
    }

    /// The number of ciphertexts held.
    pub fn glwe_ciphertext_count(&self) -> (r: GlweCiphertextCount)
        ensures
            r.0 == self.cts@.len(),
    {
        GlweCiphertextCount(self.cts.len())
    }
}

/// A GLWE secret key: `glwe_dimension` polynomials of binary coefficients.
pub struct GlweSecretKey<T: TorusElement> {
    pub polys: Vec<Polynomial<T>>,
    pub poly_size: PolynomialSize,
}

impl<T: TorusElement> GlweSecretKey<T> {
    /// The values of the key polynomials.
    pub open spec fn values_list(&self) -> Seq<Seq<int>> {
        poly_list_values(self.polys@)
    }

    /// All key polynomials have the nominal size and binary coefficients.
    pub open spec fn wf(&self) -> bool {
        forall|i: int|
            0 <= i < self.polys@.len() ==> {
                &&& (#[trigger] self.polys@[i]).spec_len() == self.poly_size.0
                &&& forall|k: int|
                    0 <= k < self.poly_size.0 ==> 0 <= #[trigger] self.polys@[i].values()[k] < 2
            }
    }

    /// A fresh uniform binary key.
    pub fn generate_binary(
        dimension: GlweDimension,
        poly_size: PolynomialSize,
        generator: &mut SecretRandomGenerator,
    ) -> (r: Self)
        ensures
            r.polys@.len() == dimension.0,
            r.poly_size == poly_size,
            r.wf(),
    {
        let mut polys: Vec<Polynomial<T>> = Vec::new();
        for j in 0..dimension.0
            invariant
                polys@.len() == j,
                forall|i: int|
                    0 <= i < j ==> {
                        &&& (#[trigger] polys@[i]).spec_len() == poly_size.0
                        &&& forall|k: int|
                            0 <= k < poly_size.0 ==> 0 <= #[trigger] polys@[i].values()[k] < 2
                    },
        {
            let coefs = generator.random_binary_tensor(poly_size.0);
            polys.push(Polynomial::from_container(coefs));
        }
        GlweSecretKey { polys, poly_size }
    }

    /// The dimension: the number of key polynomials.
    pub fn glwe_dimension(&self) -> (r: GlweDimension)
        ensures
            r.0 == self.polys@.len(),
    {
        GlweDimension(self.polys.len())
    }

    /// The nominal polynomial size.
    pub fn polynomial_size(&self) -> (r: PolynomialSize)
        ensures
            r == self.poly_size,
    {
        self.poly_size
    }

    /// The key coefficients read out as one long binary buffer, polynomial
    /// after polynomial: the flattened LWE secret key that sample extraction
    /// decrypts under.
    #[verifier::loop_isolation(false)]
    pub fn flattened_coefs(&self) -> (r: Vec<T>)
        requires
            self.wf(),
            self.poly_size.0 > 0,
            self.polys@.len() * self.poly_size.0 <= usize::MAX,
        ensures
            r@.len() == self.polys@.len() * self.poly_size.0,
            forall|i: int| 0 <= i < r@.len() ==> 0 <= (#[trigger] r@[i]).value() < 2,
            forall|i: int|
                0 <= i < r@.len() ==> (#[trigger] r@[i]).value() == self.polys@[i / (
                self.poly_size.0 as int)].values()[i % (self.poly_size.0 as int)],
    {
        let mut out: Vec<T> = Vec::new();
        let n = self.poly_size.0;
        let dim = self.polys.len();
        for j in 0..dim
            invariant
                n == self.poly_size.0,
                out@.len() == j * n,
                j <= dim == self.polys@.len(),
                self.polys@.len() * n <= usize::MAX,
                forall|i: int| 0 <= i < out@.len() ==> 0 <= (#[trigger] out@[i]).value() < 2,
                forall|i: int|
                    0 <= i < out@.len() ==> (#[trigger] out@[i]).value() == self.polys@[i / (
                    n as int)].values()[i % (n as int)],
        {
            proof {
                assert((j + 1) * n == j * n + n) by (nonlinear_arith);
                assert(j * n + n <= dim * n) by (nonlinear_arith)
                    requires j + 1 <= dim, n >= 0;
            }
            for k in 0..n
                invariant
                    n == self.poly_size.0,
                    out@.len() == j * n + k,
                    j < dim == self.polys@.len(),
                    j * n + n <= dim * n <= usize::MAX,
                    self.wf(),
                    forall|i: int| 0 <= i < out@.len() ==> 0 <= (#[trigger] out@[i]).value() < 2,
                    forall|i: int|
                        0 <= i < out@.len() ==> (#[trigger] out@[i]).value() == self.polys@[i / (
                        n as int)].values()[i % (n as int)],
            {
                out.push(self.polys[j].coef(k));
                proof {
                    let i = j * n + k;
                    vstd::arithmetic::div_mod::lemma_fundamental_div_mod_converse(
                        i as int,
                        n as int,
                        j as int,
                        k as int,
                    );
                    assert(i / (n as int) == j && i % (n as int) == k);
                }
            }
        }
        out
    }

    /// The sum over `j` of the ring products `masks[j] * keys[j]`, wrapped.
    #[verifier::loop_isolation(false)]
    fn mask_key_dot(&self, masks: &Vec<Polynomial<T>>) -> (r: Polynomial<T>)
        requires
            self.wf(),
            masks@.len() == self.polys@.len(),
            all_of_size(masks@, self.poly_size.0 as nat),
            0 < self.poly_size.0 <= usize::MAX / 2,
            is_power_of_two(self.poly_size.0 as nat),
        ensures
            r.spec_len() == self.poly_size.0,
            forall|k: int|
                0 <= k < self.poly_size.0 ==> #[trigger] r.values()[k] == glwe_dot_coef(
                    poly_list_values(masks@),
                    self.values_list(),
                    k,
                ) % T::modulus(),
    {
        proof {
            lemma_modulus_pos::<T>();
        }
        let ghost m = T::modulus();
        let ghost mlist = poly_list_values(masks@);
        let ghost klist = self.values_list();
        let n = self.poly_size.0;
        let dim = self.polys.len();
        let zero = T::zero();
        let mut acc = Polynomial::allocate(zero, PolynomialSize(n));
        let mut scratch = Polynomial::allocate(zero, PolynomialSize(n));
        proof {
            assert(mlist.subrange(0, 0) =~= Seq::<Seq<int>>::empty());
            lemma_small_mod(0, m as nat);
        }
        for j in 0..dim
            invariant
                acc.spec_len() == n,
                scratch.spec_len() == n,
                forall|k: int|
                    0 <= k < n ==> #[trigger] acc.values()[k] == glwe_dot_coef(
                        mlist.subrange(0, j as int),
                        klist,
                        k,
                    ) % m,
        {
            let ghost acc_before = acc;
            scratch.fill_with_mul_karatsuba(&masks[j], &self.polys[j]);
            acc.update_with_wrapping_add(&scratch);
            proof {
                let pre = mlist.subrange(0, j as int);
                let post = mlist.subrange(0, j + 1 as int);
                assert(post.drop_last() =~= pre);
                assert(post.last() == mlist[j as int]);
                assert forall|k: int| 0 <= k < n implies #[trigger] acc.values()[k]
                    == glwe_dot_coef(post, klist, k) % m by {
                    let d = glwe_dot_coef(pre, klist, k);
                    let p = poly_mul_coef(mlist[j as int], klist[j as int], k);
                    assert(scratch.values()[k] == p % m);
                    lemma_add_mod_noop(d, p, m);
                    assert(acc.values()[k] == (acc_before.values()[k] + scratch.values()[k]) % m);
                }
            }
        }
        proof {
            assert(mlist.subrange(0, dim as int) =~= mlist);
        }
        acc
    }

    /// Encrypt `input` into a freshly allocated ciphertext: uniform mask
    /// polynomials, body equal to the mask / key ring inner product plus the
    /// plaintext polynomial plus one bounded noise sample per coefficient.
    pub fn encrypt_glwe(
        &self,
        input: &PlaintextVector<T>,
        noise: LogStandardDev,
        generator: &mut EncryptionRandomGenerator,
    ) -> (r: GlweCiphertext<T>)
        requires
            self.wf(),
            input.values().len() == self.poly_size.0,
            0 < self.poly_size.0 <= usize::MAX / 2,
            is_power_of_two(self.poly_size.0 as nat),
            noise.0 < 0,
        ensures
            r.wf(self.poly_size.0 as nat),
            r.mask@.len() == self.polys@.len(),
            glwe_encrypts::<T>(
                self.values_list(),
                r.mask_values(),
                r.body_values(),
                input.values(),
                noise,
            ),
    {
        proof {
            lemma_modulus_pos::<T>();
        }
        let ghost m = T::modulus();
        let ghost klist = self.values_list();
        let n = self.poly_size.0;
        let dim = self.polys.len();
        let mut mask: Vec<Polynomial<T>> = Vec::new();
        for j in 0..dim
            invariant
                mask@.len() == j,
                all_of_size(mask@, n as nat),
        {
            let coefs = generator.random_mask_tensor(n);
            mask.push(Polynomial::from_container(coefs));
        }
        let mut body = self.mask_key_dot(&mask);
        let plain_poly = Polynomial::from_container(copy_elements(&input.coefs));
        body.update_with_wrapping_add(&plain_poly);
        let ghost body_mid = body;
        let noise_vec = generator.random_noise_tensor(n, noise);
        let ghost nsv = noise_vec@;
        let noise_poly = Polynomial::from_container(noise_vec);
        body.update_with_wrapping_add(&noise_poly);
        proof {
            let mlist = poly_list_values(mask@);
            let pv = input.values();
            let bv = body.values();
            assert forall|k: int| 0 <= k < bv.len() implies is_bounded_noise::<T>(
                ((#[trigger] glwe_phase_coef(mlist, klist, bv, k, m)) - pv[k]) % m,
                noise,
            ) by {
                let d = glwe_dot_coef(mlist, klist, k);
                let p = pv[k];
                input.coefs@[k].value_range();
                lemma_small_mod(p as nat, m as nat);
                lemma_add_mod_noop(d, p, m);
                assert(body_mid.values()[k] == (d + p) % m);
                assert(is_bounded_noise::<T>(nsv[k].value(), noise));
                assert(noise_poly.values()[k] == nsv[k].value());
                let e = choose|e: int|
                    #[trigger] crate::random::represents_noise(noise_poly.values()[k], e, m)
                        && -crate::random::noise_bound::<T>(noise) <= e
                        <= crate::random::noise_bound::<T>(noise);
                lemma_add_mod_noop(d + p, e, m);
                assert(bv[k] == (d + p + e) % m);
                lemma_sub_mod_noop(d + p + e, d, m);
                lemma_sub_mod_noop_right(bv[k], d, m);
                assert(glwe_phase_coef(mlist, klist, bv, k, m) == (p + e) % m);
                lemma_sub_mod_noop(p + e, p, m);
                assert(((p + e) % m - p) % m == e % m);
                assert(crate::random::represents_noise(
                    (glwe_phase_coef(mlist, klist, bv, k, m) - p) % m,
                    e,
                    m,
                ));
            }
        }
        GlweCiphertext { mask, body }
    }

    /// Decrypt after checking shapes: the dimension and the polynomial size
    /// of the ciphertext must match the key, each mismatch reported as its
    /// own condition.
    pub fn decrypt_glwe(&self, ciphertext: &GlweCiphertext<T>) -> (r: Result<
        PlaintextVector<T>,
        ShapeError,
    >)
        requires
            self.wf(),
            ciphertext.wf(ciphertext.body.spec_len()),
            0 < self.poly_size.0 <= usize::MAX / 2,
            is_power_of_two(self.poly_size.0 as nat),
        ensures
            r is Ok <==> (ciphertext.mask@.len() == self.polys@.len() && ciphertext.body.spec_len()
                == self.poly_size.0),
            r == Err::<PlaintextVector<T>, ShapeError>(ShapeError::GlweDimensionMismatch) <==> ciphertext.mask@.len() != self.polys@.len(),
            r == Err::<PlaintextVector<T>, ShapeError>(ShapeError::PolynomialSizeMismatch) <==> (
            ciphertext.mask@.len() == self.polys@.len() && ciphertext.body.spec_len()
                != self.poly_size.0),
            r matches Ok(p) ==> {
                &&& p.values().len() == self.poly_size.0
                &&& forall|k: int|
                    0 <= k < self.poly_size.0 ==> #[trigger] p.values()[k] == glwe_phase_coef(
                        ciphertext.mask_values(),
                        self.values_list(),
                        ciphertext.body_values(),
                        k,
                        T::modulus(),
                    )
            },
    {
        if ciphertext.mask.len() != self.polys.len() {
            return Err(ShapeError::GlweDimensionMismatch);
        }
        if ciphertext.body.polynomial_size().0 != self.poly_size.0 {
            return Err(ShapeError::PolynomialSizeMismatch);
        }
        Ok(self.decrypt_glwe_unchecked(ciphertext))
    }

    /// Decrypt without validation: the caller guarantees matching shapes.
    /// Returns exactly the phase polynomial, body minus the mask / key ring
    /// inner product; the encryption noise remains in the coefficients.
    pub fn decrypt_glwe_unchecked(&self, ciphertext: &GlweCiphertext<T>) -> (r: PlaintextVector<
        T,
    >)
        requires
            self.wf(),
            ciphertext.wf(self.poly_size.0 as nat),
            ciphertext.mask@.len() == self.polys@.len(),
            0 < self.poly_size.0 <= usize::MAX / 2,
            is_power_of_two(self.poly_size.0 as nat),
        ensures
            r.values().len() == self.poly_size.0,
            forall|k: int|
                0 <= k < self.poly_size.0 ==> #[trigger] r.values()[k] == glwe_phase_coef(
                    ciphertext.mask_values(),
                    self.values_list(),
                    ciphertext.body_values(),
                    k,
                    T::modulus(),
                ),
    {
        proof {
            lemma_modulus_pos::<T>();
        }
        let ghost m = T::modulus();
        let dot = self.mask_key_dot(&ciphertext.mask);
        let mut out = Polynomial::from_container(copy_elements(&ciphertext.body.coefs));
        out.update_with_wrapping_sub(&dot);
        proof {
            let mlist = ciphertext.mask_values();
            let klist = self.values_list();
            let bv = ciphertext.body_values();
            assert forall|k: int| 0 <= k < self.poly_size.0 implies #[trigger] out.values()[k]
                == glwe_phase_coef(mlist, klist, bv, k, m) by {
                let d = glwe_dot_coef(mlist, klist, k);
                ciphertext.body.coefs@[k].value_range();
                lemma_small_mod(bv[k] as nat, m as nat);
                lemma_sub_mod_noop(bv[k], d, m);
                lemma_sub_mod_noop_right(bv[k], d, m);
            }
        }
        PlaintextVector { coefs: out.into_container() }
    }

    /// Encrypt into a caller-provided ciphertext after checking shapes: each
    /// mismatch is reported as its own condition and leaves the output
    /// untouched.
    pub fn discard_encrypt_glwe_ciphertext(
        &self,
        output: &mut GlweCiphertext<T>,
        input: &PlaintextVector<T>,
        noise: LogStandardDev,
        generator: &mut EncryptionRandomGenerator,
    ) -> (r: Result<(), ShapeError>)
        requires
            self.wf(),
            0 < self.poly_size.0 <= usize::MAX / 2,
            is_power_of_two(self.poly_size.0 as nat),
            noise.0 < 0,
        ensures
            r is Ok <==> (old(output).mask@.len() == self.polys@.len() && old(
                output,
            ).body.spec_len() == self.poly_size.0 && input.values().len() == self.poly_size.0),
            r == Err::<(), ShapeError>(ShapeError::GlweDimensionMismatch) <==> old(
                output,
            ).mask@.len() != self.polys@.len(),
            r == Err::<(), ShapeError>(ShapeError::PolynomialSizeMismatch) <==> (old(
                output,
            ).mask@.len() == self.polys@.len() && old(output).body.spec_len()
                != self.poly_size.0),
            r == Err::<(), ShapeError>(ShapeError::PlaintextCountMismatch) <==> (old(
                output,
            ).mask@.len() == self.polys@.len() && old(output).body.spec_len()
                == self.poly_size.0 && input.values().len() != self.poly_size.0),
            r is Err ==> *final(output) == *old(output),
            r is Err ==> *final(generator) == *old(generator),
            r is Ok ==> {
                &&& final(output).wf(self.poly_size.0 as nat)
                &&& final(output).mask@.len() == self.polys@.len()
                &&& glwe_encrypts::<T>(
                    self.values_list(),
                    final(output).mask_values(),
                    final(output).body_values(),
                    input.values(),
                    noise,
                )
            },
    {
        if output.mask.len() != self.polys.len() {
            return Err(ShapeError::GlweDimensionMismatch);
        }
        if output.body.polynomial_size().0 != self.poly_size.0 {
            return Err(ShapeError::PolynomialSizeMismatch);
        }
        if input.plaintext_count() != self.poly_size.0 {
            return Err(ShapeError::PlaintextCountMismatch);
        }
        self.discard_encrypt_glwe_ciphertext_unchecked(output, input, noise, generator);
        Ok(())
    }

    /// Encrypt into a caller-provided ciphertext without validation: the
    /// caller guarantees that every shape already matches.
    pub fn discard_encrypt_glwe_ciphertext_unchecked(
        &self,
        output: &mut GlweCiphertext<T>,
        input: &PlaintextVector<T>,
        noise: LogStandardDev,
        generator: &mut EncryptionRandomGenerator,
    )
        requires
            self.wf(),
            0 < self.poly_size.0 <= usize::MAX / 2,
            is_power_of_two(self.poly_size.0 as nat),
            noise.0 < 0,
            old(output).mask@.len() == self.polys@.len(),
            old(output).body.spec_len() == self.poly_size.0,
            input.values().len() == self.poly_size.0,
        ensures
            final(output).wf(self.poly_size.0 as nat),
            final(output).mask@.len() == self.polys@.len(),
            glwe_encrypts::<T>(
                self.values_list(),
                final(output).mask_values(),
                final(output).body_values(),
                input.values(),
                noise,
            ),
    {
        let fresh = self.encrypt_glwe(input, noise, generator);
        *output = fresh;
    }

    /// Encrypt a whole plaintext vector into a caller-provided ciphertext
    /// vector after checking shapes: the plaintext count must be exactly the
    /// polynomial size times the ciphertext count, and each mismatch is
    /// reported as its own condition, the output left untouched.
    pub fn discard_encrypt_glwe_ciphertext_vector(
        &self,
        output: &mut GlweCiphertextVector<T>,
        input: &PlaintextVector<T>,
        noise: LogStandardDev,
        generator: &mut EncryptionRandomGenerator,
    ) -> (r: Result<(), ShapeError>)
        requires
            self.wf(),
            0 < self.poly_size.0 <= usize::MAX / 2,
            is_power_of_two(self.poly_size.0 as nat),
            noise.0 < 0,
        ensures
            r is Ok <==> (old(output).glwe_dimension.0 == self.polys@.len() && old(
                output,
            ).polynomial_size == self.poly_size && old(output).polynomial_size.0 * old(
                output,
            ).cts@.len() == input.values().len()),
            r == Err::<(), ShapeError>(ShapeError::GlweDimensionMismatch) <==> old(
                output,
            ).glwe_dimension.0 != self.polys@.len(),
            r == Err::<(), ShapeError>(ShapeError::PolynomialSizeMismatch) <==> (old(
                output,
            ).glwe_dimension.0 == self.polys@.len() && old(output).polynomial_size
                != self.poly_size),
            r == Err::<(), ShapeError>(ShapeError::PlaintextCountMismatch) <==> (old(
                output,
            ).glwe_dimension.0 == self.polys@.len() && old(output).polynomial_size
                == self.poly_size && old(output).polynomial_size.0 * old(output).cts@.len()
                != input.values().len()),
            r is Err ==> *final(output) == *old(output),
            r is Err ==> *final(generator) == *old(generator),
            r is Ok ==> {
                &&& final(output).cts@.len() == old(output).cts@.len()
                &&& final(output).glwe_dimension == old(output).glwe_dimension
                &&& final(output).polynomial_size == old(output).polynomial_size
                &&& final(output).wf()
                &&& forall|i: int|
                    0 <= i < final(output).cts@.len() ==> glwe_encrypts::<T>(
                        self.values_list(),
                        (#[trigger] final(output).cts@[i]).mask_values(),
                        final(output).cts@[i].body_values(),
                        input.values().subrange(
                            i * self.poly_size.0,
                            i * self.poly_size.0 + self.poly_size.0,
                        ),
                        noise,
                    )
            },
    {
        if output.glwe_dimension.0 != self.polys.len() {
            return Err(ShapeError::GlweDimensionMismatch);
        }
        if output.polynomial_size.0 != self.poly_size.0 {
            return Err(ShapeError::PolynomialSizeMismatch);
        }
        let ilen = input.plaintext_count();
        let total = match self.poly_size.0.checked_mul(output.cts.len()) {
            Some(t) => t,
            None => {
                return Err(ShapeError::PlaintextCountMismatch);
            },
        };
        if total != ilen {
            return Err(ShapeError::PlaintextCountMismatch);
        }
        self.discard_encrypt_glwe_ciphertext_vector_unchecked(output, input, noise, generator);
        Ok(())
    }

    /// Encrypt a whole plaintext vector without validation: the caller
    /// guarantees that every shape already matches.  Ciphertext `i` encrypts
    /// the `i`-th polynomial-size chunk of the plaintext vector.
    #[verifier::loop_isolation(false)]
    pub fn discard_encrypt_glwe_ciphertext_vector_unchecked(
        &self,
        output: &mut GlweCiphertextVector<T>,
        input: &PlaintextVector<T>,
        noise: LogStandardDev,
        generator: &mut EncryptionRandomGenerator,
    )
        requires
            self.wf(),
            0 < self.poly_size.0 <= usize::MAX / 2,
            is_power_of_two(self.poly_size.0 as nat),
            noise.0 < 0,
            old(output).glwe_dimension.0 == self.polys@.len(),
            old(output).polynomial_size == self.poly_size,
            old(output).polynomial_size.0 * old(output).cts@.len() == input.values().len(),
        ensures
            final(output).cts@.len() == old(output).cts@.len(),
            final(output).glwe_dimension == old(output).glwe_dimension,
            final(output).polynomial_size == old(output).polynomial_size,
            final(output).wf(),
            forall|i: int|
                0 <= i < final(output).cts@.len() ==> glwe_encrypts::<T>(
                    self.values_list(),
                    (#[trigger] final(output).cts@[i]).mask_values(),
                    final(output).cts@[i].body_values(),
                    input.values().subrange(
                        i * self.poly_size.0,
                        i * self.poly_size.0 + self.poly_size.0,
                    ),
                    noise,
                ),
    {
        let n = self.poly_size.0;
        let count = output.cts.len();
        let ilen = input.plaintext_count();
        let ghost ni = n as int;
        proof {
            assert(n * count == ilen);
        }
        for i in 0..count
            invariant
                output.cts@.len() == count,
                output.glwe_dimension == old(output).glwe_dimension,
                output.polynomial_size == old(output).polynomial_size,
                forall|j: int|
                    0 <= j < i ==> {
                        &&& (#[trigger] output.cts@[j]).wf(n as nat)
                        &&& output.cts@[j].mask@.len() == self.polys@.len()
                        &&& glwe_encrypts::<T>(
                            self.values_list(),
                            output.cts@[j].mask_values(),
                            output.cts@[j].body_values(),
                            input.values().subrange(j * ni, j * ni + ni),
                            noise,
                        )
                    },
        {
            proof {
                assert((i + 1) * ni == i * ni + ni) by (nonlinear_arith);
                assert(i * ni + ni <= count * ni) by (nonlinear_arith)
                    requires
                        i + 1 <= count,
                        ni >= 0,
                ;
                vstd::arithmetic::mul::lemma_mul_is_commutative(count as int, ni);
                assert(i * ni + ni <= ilen);
            }
            let chunk = sub_elements(&input.coefs, i * n, n);
            let ghost chunk_view = chunk@;
            let pv = PlaintextVector::from_container(chunk);
            proof {
                assert(pv.values() =~= input.values().subrange(i * ni, i * ni + ni));
            }
            let ct = self.encrypt_glwe(&pv, noise, generator);
            output.cts.set(i, ct);
        }
    }
}

/// An element-for-element copy of a torus buffer.
#[verifier::loop_isolation(false)]
fn copy_elements<T: TorusElement>(v: &Vec<T>) -> (r: Vec<T>)
    ensures
        r@ == v@,
{
    let mut out: Vec<T> = Vec::new();
    let n = v.len();
    for i in 0..n
        invariant
            out@ =~= v@.subrange(0, i as int),
    {
        out.push(v[i]);
        proof {
            assert(out@ =~= v@.subrange(0, i + 1 as int));
        }
    }
    proof {
        assert(v@.subrange(0, n as int) =~= v@);
    }
    out
}

/// A copy of `len` elements of a torus buffer starting at `start`.
#[verifier::loop_isolation(false)]
fn sub_elements<T: TorusElement>(v: &Vec<T>, start: usize, len: usize) -> (r: Vec<T>)
    requires
        start + len <= v@.len(),
    ensures
        r@ == v@.subrange(start as int, start as int + len as int),
{
    let mut out: Vec<T> = Vec::new();
    let vn = v.len();
    for i in 0..len
        invariant
            start + len <= vn,
            out@ =~= v@.subrange(start as int, start as int + i as int),
    {
        out.push(v[start + i]);
        proof {
            assert(out@ =~= v@.subrange(start as int, start as int + (i + 1) as int));
        }
    }
    out
}

} // verus!
