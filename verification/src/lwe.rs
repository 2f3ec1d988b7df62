//! LWE secret keys, plaintexts, ciphertexts, and their encrypt/decrypt
//! operations over the torus.
//!
//! An LWE ciphertext of dimension `n` holds a mask of `n` uniform torus
//! elements and one body element; the body of a fresh encryption is the mask
//! / key dot product plus the plaintext plus a bounded noise sample.

use vstd::prelude::*;
use vstd::arithmetic::div_mod::{
    lemma_small_mod, lemma_add_mod_noop, lemma_sub_mod_noop, lemma_sub_mod_noop_right,
};
use crate::torus::{TorusElement, lemma_modulus_pos};
use crate::params::{LweDimension, LweSize, LogStandardDev, ShapeError};
use crate::polynomial::{seq_values, coef_at};
use crate::random::{
    SecretRandomGenerator, EncryptionRandomGenerator, is_bounded_noise, noise_bound,
    represents_noise,
};

verus! {

/// One encoded message: a single torus element.  Encoding is out of scope;
/// the kernel treats the value as opaque.
#[derive(Clone, Copy, Debug, PartialEq, Eq)]
pub struct Plaintext<T: TorusElement>(pub T);

/// One raw integer message, not yet encoded on the torus.
#[derive(Clone, Copy, Debug, PartialEq, Eq)]
pub struct Cleartext<T: TorusElement>(pub T);

/// Many encoded messages packed contiguously.
pub struct PlaintextVector<T: TorusElement> {
    pub coefs: Vec<T>,
}

impl<T: TorusElement> PlaintextVector<T> {
    /// The packed values.
    pub open spec fn values(&self) -> Seq<int> {
        seq_values(self.coefs@)
    }

    /// A plaintext vector owning the given values.
    pub fn from_container(coefs: Vec<T>) -> (r: Self)
        ensures
            r.values() == seq_values(coefs@),
            r.values().len() == coefs@.len(),
    {
        PlaintextVector { coefs }
    }

    /// Number of plaintexts held.
    pub fn plaintext_count(&self) -> (r: usize)
        ensures
            r == self.values().len(),
    {
        self.coefs.len()
    }
}

/// One integer wrapped as a cleartext, the checked entry point.
pub fn create_cleartext<T: TorusElement>(input: T) -> (r: Result<Cleartext<T>, ShapeError>)
    ensures
        r matches Ok(c) && c.0 == input,
{
    Ok(create_cleartext_unchecked(input))
}

/// One integer wrapped as a cleartext; no validation is needed.
pub fn create_cleartext_unchecked<T: TorusElement>(input: T) -> (r: Cleartext<T>)
    ensures
        r.0 == input,
{
    Cleartext(input)
}

/// Copy the packed plaintext values into a caller-provided buffer after
/// checking that the buffer holds exactly one slot per plaintext; a buffer
/// of another length is refused and left untouched.
pub fn discard_retrieve_plaintext_vector<T: TorusElement>(
    output: &mut Vec<T>,
    input: &PlaintextVector<T>,
) -> (r: Result<(), ShapeError>)
    ensures
        r is Ok <==> old(output)@.len() == input.values().len(),
        old(output)@.len() != input.values().len() <==> r == Err::<(), ShapeError>(
            ShapeError::PlaintextCountMismatch,
        ),
        r is Err ==> final(output)@ == old(output)@,
        r is Ok ==> seq_values(final(output)@) == input.values(),
{
    if output.len() != input.plaintext_count() {
        return Err(ShapeError::PlaintextCountMismatch);
    }
    discard_retrieve_plaintext_vector_unchecked(output, input);
    Ok(())
}

/// Copy the packed plaintext values into a caller-provided buffer without
/// validation: the caller guarantees that the lengths already match.
#[verifier::loop_isolation(false)]
pub fn discard_retrieve_plaintext_vector_unchecked<T: TorusElement>(
    output: &mut Vec<T>,
    input: &PlaintextVector<T>,
)
    requires
        old(output)@.len() == input.values().len(),
    ensures
        final(output)@.len() == old(output)@.len(),
        seq_values(final(output)@) == input.values(),
{
    let n = input.plaintext_count();
    for i in 0..n
        invariant
            output@.len() == n,
            forall|j: int| 0 <= j < i ==> #[trigger] output@[j] == input.coefs@[j],
    {
        output.set(i, input.coefs[i]);
    }
    proof {
        assert(seq_values(final(output)@) =~= input.values());
    }
}

/// The dot product of a mask and a key, as an unreduced integer.
pub open spec fn lwe_dot(mask: Seq<int>, key: Seq<int>) -> int
    decreases mask.len(),
{
    if mask.len() == 0 {
        0
    } else {
        lwe_dot(mask.drop_last(), key) + mask.last() * coef_at(key, mask.len() - 1)
    }
}

/// The phase of a ciphertext under a key: body minus the mask / key dot
/// product, reduced.  Decryption recovers exactly this value.
pub open spec fn lwe_phase(mask: Seq<int>, body: int, key: Seq<int>, m: int) -> int {
    (body - lwe_dot(mask, key)) % m
}

/// The ciphertext `(mask, body)` encrypts `plain` under `key` at standard
/// deviation `std_dev`: its phase sits within the noise bound of `plain`.
pub open spec fn lwe_encrypts<T: TorusElement>(
    key: Seq<int>,
    mask: Seq<int>,
    body: int,
    plain: int,
    std_dev: LogStandardDev,
) -> bool {
    is_bounded_noise::<T>(
        (lwe_phase(mask, body, key, T::modulus()) - plain) % T::modulus(),
        std_dev,
    )
}

/// Decrypting an encryption of `plain` returns `plain` plus a wrapped noise
/// of magnitude at most `noise_bound(std_dev)` — and that bound shrinks with
/// the standard deviation (`lemma_noise_bound_monotonic`).
pub proof fn lemma_lwe_round_trip<T: TorusElement>(
    key: Seq<int>,
    mask: Seq<int>,
    body: int,
    plain: int,
    std_dev: LogStandardDev,
    decrypted: int,
)
    requires
        lwe_encrypts::<T>(key, mask, body, plain, std_dev),
        decrypted == lwe_phase(mask, body, key, T::modulus()),
    ensures
        exists|e: int|
            #[trigger] represents_noise((decrypted - plain) % T::modulus(), e, T::modulus())
                && -noise_bound::<T>(std_dev) <= e <= noise_bound::<T>(std_dev),
{
}

/// An LWE secret key: `lwe_dimension` torus elements restricted to zero and
/// one.  Owns its buffer.
pub struct LweSecretKey<T: TorusElement> {
    pub coefs: Vec<T>,
}

/// An LWE ciphertext: a mask of `lwe_dimension` torus elements plus one body
/// element.  Owns its buffers.
#[derive(Clone)]
pub struct LweCiphertext<T: TorusElement> {
    pub mask: Vec<T>,
    pub body: T,
}

impl<T: TorusElement> LweCiphertext<T> {
    /// The mask values.
    pub open spec fn mask_values(&self) -> Seq<int> {
        seq_values(self.mask@)
    }

    /// The body value.
    pub open spec fn body_value(&self) -> int {
        self.body.value()
    }

    /// An all-`value` ciphertext of the given size (mask plus one body).
    pub fn allocate(value: T, size: LweSize) -> (r: Self)
        requires
            size.0 > 0,
        ensures
            r.mask_values().len() == size.0 - 1,
            r.body_value() == value.value(),
            forall|i: int|
                0 <= i < size.0 - 1 ==> #[trigger] r.mask_values()[i] == value.value(),
    {
        let mut mask: Vec<T> = Vec::new();
        let n = size.0 - 1;
        for i in 0..n
            invariant
                mask@.len() == i,
                forall|j: int| 0 <= j < i ==> #[trigger] mask@[j] == value,
        {
            mask.push(value);
        }
        LweCiphertext { mask, body: value }
    }

    /// The dimension of the ciphertext: the length of its mask.
    pub fn lwe_dimension(&self) -> (r: LweDimension)
        ensures
            r.0 == self.mask_values().len(),
    {
        LweDimension(self.mask.len())
    }
}

impl<T: TorusElement> LweSecretKey<T> {
    /// The key values, each zero or one.
    pub open spec fn values(&self) -> Seq<int> {
        seq_values(self.coefs@)
    }

    /// All coefficients are binary.
    pub open spec fn is_binary(&self) -> bool {
        forall|i: int| 0 <= i < self.values().len() ==> 0 <= #[trigger] self.values()[i] < 2
    }

    /// A fresh uniform binary key of the given dimension.
    pub fn generate_binary(
        dimension: LweDimension,
        generator: &mut SecretRandomGenerator,
    ) -> (r: Self)
        ensures
            r.values().len() == dimension.0,
            r.is_binary(),
    {
        let coefs = generator.random_binary_tensor(dimension.0);
        LweSecretKey { coefs }
    }

    /// A key reading the given buffer as binary coefficients.  The buffer
    /// must hold only zeros and ones; this is how a GLWE key is flattened
    /// into the LWE key that sample extraction decrypts under.
    pub fn binary_from_container(coefs: Vec<T>) -> (r: Self)
        requires
            forall|i: int| 0 <= i < coefs@.len() ==> 0 <= (#[trigger] coefs@[i]).value() < 2,
        ensures
            r.values() == seq_values(coefs@),
            r.is_binary(),
    {
        LweSecretKey { coefs }
    }

    /// The dimension of the key.
    pub fn lwe_dimension(&self) -> (r: LweDimension)
        ensures
            r.0 == self.values().len(),
    {
        LweDimension(self.coefs.len())
    }

    /// The mask / key dot product, wrapped.
    #[verifier::loop_isolation(false)]
    fn dot_mask(&self, mask: &Vec<T>) -> (r: T)
        requires
            mask@.len() == self.values().len(),
        ensures
            r.value() == lwe_dot(seq_values(mask@), self.values()) % T::modulus(),
    {
        proof {
            lemma_modulus_pos::<T>();
        }
        let ghost mv = seq_values(mask@);
        let ghost kv = self.values();
        let ghost m = T::modulus();
        let mut acc = T::zero();
        proof {
            assert(mv.subrange(0, 0) =~= Seq::<int>::empty());
            lemma_small_mod(0, m as nat);
        }
        let n = mask.len();
        for i in 0..n
            invariant
                acc.value() == lwe_dot(mv.subrange(0, i as int), kv) % m,
        {
            proof {
                let pre = mv.subrange(0, i as int);
                let post = mv.subrange(0, i + 1 as int);
                assert(post.drop_last() =~= pre);
                assert(post.last() == mv[i as int]);
                lemma_add_mod_noop(lwe_dot(pre, kv), mv[i as int] * coef_at(kv, i as int), m);
            }
            acc = acc.wadd(mask[i].wmul(self.coefs[i]));
        }
        proof {
            assert(mv.subrange(0, n as int) =~= mv);
        }
        acc
    }

    /// Encrypt `input` into a freshly allocated ciphertext: uniform mask,
    /// body equal to the mask / key dot product plus the plaintext plus one
    /// bounded noise sample.
    pub fn encrypt_lwe(
        &self,
        input: &Plaintext<T>,
        noise: LogStandardDev,
        generator: &mut EncryptionRandomGenerator,
    ) -> (r: LweCiphertext<T>)
        requires
            noise.0 < 0,
        ensures
            r.mask_values().len() == self.values().len(),
            lwe_encrypts::<T>(
                self.values(),
                r.mask_values(),
                r.body_value(),
                input.0.value(),
                noise,
            ),
    {
        proof {
            lemma_modulus_pos::<T>();
        }
        let ghost m = T::modulus();
        let ghost kv = self.values();
        let mask: Vec<T> = generator.random_mask_tensor(self.coefs.len());
        let dot = self.dot_mask(&mask);
        let noise_sample = generator.random_noise(noise);
        let body = dot.wadd(input.0).wadd(noise_sample);
        proof {
            let mv = seq_values(mask@);
            let d = lwe_dot(mv, kv);
            let p = input.0.value();
            input.0.value_range();
            lemma_small_mod(p as nat, m as nat);
            lemma_add_mod_noop(d, p, m);
            // the noise sample wraps some bounded magnitude e
            let e = choose|e: int|
                #[trigger] represents_noise(noise_sample.value(), e, m) && -noise_bound::<T>(noise)
                    <= e <= noise_bound::<T>(noise);
            lemma_add_mod_noop(d + p, e, m);
            assert(body.value() == (d + p + e) % m);
            // the phase of the ciphertext is plain plus e, reduced
            lemma_sub_mod_noop(d + p + e, d, m);
            lemma_sub_mod_noop_right(body.value(), d, m);
            assert(lwe_phase(mv, body.value(), kv, m) == (p + e) % m);
            lemma_sub_mod_noop(p + e, p, m);
            lemma_sub_mod_noop_right((p + e) % m, p, m);
            assert(((p + e) % m - p) % m == e % m);
            assert(represents_noise((lwe_phase(mv, body.value(), kv, m) - p) % m, e, m));
        }
        LweCiphertext { mask, body }
    }

    /// Encrypt into a caller-provided ciphertext after checking shapes: a
    /// ciphertext of another dimension than the key is refused with the
    /// dimension-mismatch condition and left untouched.
    pub fn discard_encrypt_lwe_ciphertext(
        &self,
        output: &mut LweCiphertext<T>,
        input: &Plaintext<T>,
        noise: LogStandardDev,
        generator: &mut EncryptionRandomGenerator,
    ) -> (r: Result<(), ShapeError>)
        requires
            noise.0 < 0,
        ensures
            r is Ok <==> old(output).mask_values().len() == self.values().len(),
            old(output).mask_values().len() != self.values().len() <==> r == Err::<
                (),
                ShapeError,
            >(ShapeError::LweDimensionMismatch),
            r is Err ==> *final(output) == *old(output),
            r is Err ==> *final(generator) == *old(generator),
            r is Ok ==> {
                &&& final(output).mask_values().len() == self.values().len()
                &&& lwe_encrypts::<T>(
                    self.values(),
                    final(output).mask_values(),
                    final(output).body_value(),
                    input.0.value(),
                    noise,
                )
            },
    {
        if self.coefs.len() != output.mask.len() {
            return Err(ShapeError::LweDimensionMismatch);
        }
        self.discard_encrypt_lwe_ciphertext_unchecked(output, input, noise, generator);
        Ok(())
    }

    /// Encrypt into a caller-provided ciphertext without validation: the
    /// caller guarantees that the dimensions already match.
    pub fn discard_encrypt_lwe_ciphertext_unchecked(
        &self,
        output: &mut LweCiphertext<T>,
        input: &Plaintext<T>,
        noise: LogStandardDev,
        generator: &mut EncryptionRandomGenerator,
    )
        requires
            noise.0 < 0,
            old(output).mask_values().len() == self.values().len(),
        ensures
            final(output).mask_values().len() == self.values().len(),
            lwe_encrypts::<T>(
                self.values(),
                final(output).mask_values(),
                final(output).body_value(),
                input.0.value(),
                noise,
            ),
    {
        let fresh = self.encrypt_lwe(input, noise, generator);
        *output = fresh;
    }

    /// Decrypt after checking shapes: a ciphertext of another dimension than
    /// the key is refused with the dimension-mismatch condition.
    pub fn decrypt_lwe(&self, ciphertext: &LweCiphertext<T>) -> (r: Result<
        Plaintext<T>,
        ShapeError,
    >)
        ensures
            r is Ok <==> ciphertext.mask_values().len() == self.values().len(),
            ciphertext.mask_values().len() != self.values().len() <==> r == Err::<
                Plaintext<T>,
                ShapeError,
            >(ShapeError::LweDimensionMismatch),
            r matches Ok(p) ==> p.0.value() == lwe_phase(
                ciphertext.mask_values(),
                ciphertext.body_value(),
                self.values(),
                T::modulus(),
            ),
    {
        if self.coefs.len() != ciphertext.mask.len() {
            return Err(ShapeError::LweDimensionMismatch);
        }
        Ok(self.decrypt_lwe_unchecked(ciphertext))
    }

    /// Decrypt without validation: the caller guarantees matching
    /// dimensions.  Returns exactly the phase, body minus the mask / key dot
    /// product; the encryption noise remains in the returned value.
    pub fn decrypt_lwe_unchecked(&self, ciphertext: &LweCiphertext<T>) -> (r: Plaintext<T>)
        requires
            ciphertext.mask_values().len() == self.values().len(),
        ensures
            r.0.value() == lwe_phase(
                ciphertext.mask_values(),
                ciphertext.body_value(),
                self.values(),
                T::modulus(),
            ),
    {
        let dot = self.dot_mask(&ciphertext.mask);
        let r = ciphertext.body.wsub(dot);
        proof {
            lemma_modulus_pos::<T>();
            let m = T::modulus();
            let d = lwe_dot(seq_values(ciphertext.mask@), self.values());
            lemma_sub_mod_noop_right(ciphertext.body.value(), d, m);
            ciphertext.body.value_range();
            lemma_small_mod(ciphertext.body.value() as nat, m as nat);
            lemma_sub_mod_noop(ciphertext.body.value(), d, m);
        }
        Plaintext(r)
    }
}

} // verus!
