//! The bootstrapping key and the bootstrap algorithm: GGSW-encrypted key
//! material, the signed gadget decomposition, the external product and CMux,
//! blind rotation and sample extraction.
//!
//! The external product multiplies polynomials exactly, in the coefficient
//! domain, through the verified Karatsuba engine; a Fourier-domain
//! accelerator is algebraically equivalent and lives outside the verified
//! kernel.

use vstd::prelude::*;
use vstd::arithmetic::mul::lemma_mul_basics;
use vstd::arithmetic::power2::{
    pow2, lemma2_to64, lemma2_to64_rest, lemma_pow2_adds, lemma_pow2_subtracts,
    lemma_pow2_strictly_increases,
};
use vstd::arithmetic::div_mod::{lemma_mod_bound, lemma_mod_multiples_vanish, lemma_small_mod, lemma_mod_twice};
use vstd::arithmetic::power::{pow, lemma_pow_multiplies, lemma_pow_adds, lemma_pow0, lemma_pow1};
use vstd::arithmetic::power2::lemma_pow2;
use vstd::bits::{lemma_u64_shl_is_mul, lemma_u64_shr_is_div};
use crate::torus::TorusElement;
use crate::params::{
    GlweSize, PolynomialSize, DecompositionLevelCount, DecompositionBaseLog, LweDimension,
    LogStandardDev, MonomialDegree, ShapeError,
};
use crate::polynomial::{Polynomial, is_power_of_two, monomial_mul_seq, poly_mul_coef};
use crate::glwe::{
    GlweCiphertext, GlweSecretKey, all_of_size, glwe_filled_with, glwe_encrypts, glwe_dot_coef,
    glwe_phase_coef, lemma_glwe_dot_update,
};
use crate::lwe::{LweCiphertext, LweSecretKey, PlaintextVector};
use crate::random::EncryptionRandomGenerator;

verus! {

/// A GGSW ciphertext: `glwe_size * level` GLWE ciphertexts, indexed by
/// (decomposition level, mask-row), together encrypting one secret-key bit
/// scaled by successive powers of the decomposition base.
pub struct GgswCiphertext<T: TorusElement> {
    pub rows: Vec<GlweCiphertext<T>>,
}

impl<T: TorusElement> GgswCiphertext<T> {
    /// The matrix has its full shape: one GLWE row per (level, mask-row)
    /// pair, all of the nominal sizes.
    pub open spec fn wf(&self, glwe_size: nat, poly_size: nat, level: nat) -> bool {
        &&& self.rows@.len() == glwe_size * level
        &&& forall|i: int|
            0 <= i < self.rows@.len() ==> {
                &&& (#[trigger] self.rows@[i]).wf(poly_size)
                &&& self.rows@[i].mask@.len() == glwe_size - 1
            }
    }
}

/// The LWE mask entry that sample extraction reads from the mask
/// polynomials of a GLWE ciphertext: entry `(j, k)` is coefficient zero of
/// mask polynomial `j` when `k` is zero, and the negated coefficient
/// `n - k` otherwise — the standard LWE-from-GLWE extraction rule.
pub open spec fn extracted_mask_coef(masks: Seq<Seq<int>>, n: int, m: int, j: int, k: int) -> int {
    if k == 0 {
        masks[j][0]
    } else {
        (0 - masks[j][n - k]) % m
    }
}

/// The workspace of the bootstrap algorithm: the accumulator ciphertext that
/// blind rotation updates in place.  Constructed once per key-size class and
/// passed by exclusive reference into every bootstrap call; two concurrent
/// bootstraps need two workspaces.
pub struct BootstrapBuffers<T: TorusElement> {
    pub acc: GlweCiphertext<T>,
}

impl<T: TorusElement> BootstrapBuffers<T> {
    /// A workspace for keys of the given polynomial and GLWE size.
    pub fn new(poly_size: PolynomialSize, glwe_size: GlweSize) -> (r: Self)
        requires
            glwe_size.0 > 0,
        ensures
            r.acc.wf(poly_size.0 as nat),
            r.acc.mask@.len() == glwe_size.0 - 1,
    {
        BootstrapBuffers { acc: GlweCiphertext::allocate(T::zero(), poly_size, glwe_size) }
    }
}

/// The gadget scale of decomposition level `l`: `2^(width - (l+1)*base_log)`.
pub open spec fn gadget_scale(width: nat, base_log: nat, l: int) -> int {
    pow2((width - (l + 1) * base_log) as nat) as int
}

/// The plaintext polynomial GGSW row `(l, j)` carries for a secret bit
/// scaled to `factor`: a mask row `j` encrypts minus `factor` times key
/// polynomial `j` (adding to a mask polynomial subtracts from the phase);
/// the body row carries `factor` itself on the constant coefficient.
pub open spec fn ggsw_row_plaintext(
    keys: Seq<Seq<int>>,
    j: int,
    factor: int,
    n: nat,
    m: int,
) -> Seq<int> {
    Seq::new(
        n,
        |kc: int|
            if j < keys.len() {
                (0 - factor * keys[j][kc]) % m
            } else if kc == 0 {
                factor % m
            } else {
                0
            },
    )
}

/// Row `t` of a GGSW block for secret bit `bit` is a GLWE encryption of the
/// row plaintext of its (level, mask-row) pair.
pub open spec fn ggsw_row_encrypts<T: TorusElement>(
    row: GlweCiphertext<T>,
    keys: Seq<Seq<int>>,
    bit: int,
    t: int,
    gsz: int,
    width: nat,
    base_log: nat,
    n: nat,
    std_dev: LogStandardDev,
) -> bool {
    glwe_encrypts::<T>(
        keys,
        row.mask_values(),
        row.body_values(),
        ggsw_row_plaintext(keys, t % gsz, bit * gadget_scale(width, base_log, t / gsz), n, T::modulus()),
        std_dev,
    )
}

/// The collection of GGSW ciphertexts encrypting each bit of an LWE secret
/// key under a GLWE secret key: the key material of the bootstrap.
pub struct StandardBootstrapKey<T: TorusElement> {
    pub ggsw: Vec<GgswCiphertext<T>>,
    pub glwe_size: GlweSize,
    pub poly_size: PolynomialSize,
    pub level: DecompositionLevelCount,
    pub base_log: DecompositionBaseLog,
}

impl<T: TorusElement> StandardBootstrapKey<T> {
    /// Every GGSW block has its full shape.
    pub open spec fn wf(&self) -> bool {
        forall|i: int|
            0 <= i < self.ggsw@.len() ==> (#[trigger] self.ggsw@[i]).wf(
                self.glwe_size.0 as nat,
                self.poly_size.0 as nat,
                self.level.0 as nat,
            )
    }

    /// The numeric parameters are in the ranges the algorithm needs: a
    /// power-of-two polynomial size that leaves room for the rotation
    /// exponents, at least one decomposition level, and a decomposition that
    /// fits the torus width.
    pub open spec fn params_ok(&self) -> bool {
        &&& 1 <= self.base_log.0 < 64
        &&& 1 <= self.level.0
        &&& self.level.0 * self.base_log.0 <= T::width()
        &&& 0 < self.poly_size.0 <= usize::MAX / 4
        &&& is_power_of_two(self.poly_size.0 as nat)
        &&& 2 * self.poly_size.0 as int <= T::modulus()
        &&& 1 <= self.glwe_size.0 <= usize::MAX / 2
        &&& (self.glwe_size.0 - 1) * self.poly_size.0 <= usize::MAX / 2
    }

    /// An all-`value` key for the given shape parameters.
    #[verifier::loop_isolation(false)]
    pub fn allocate(
        value: T,
        glwe_size: GlweSize,
        poly_size: PolynomialSize,
        level: DecompositionLevelCount,
        base_log: DecompositionBaseLog,
        lwe_dimension: LweDimension,
    ) -> (r: Self)
        requires
            glwe_size.0 > 0,
            glwe_size.0 * level.0 <= usize::MAX,
        ensures
            r.ggsw@.len() == lwe_dimension.0,
            r.glwe_size == glwe_size,
            r.poly_size == poly_size,
            r.level == level,
            r.base_log == base_log,
            r.wf(),
            forall|i: int, t: int|
                0 <= i < lwe_dimension.0 && 0 <= t < (#[trigger] r.ggsw@[i]).rows@.len()
                    ==> glwe_filled_with(#[trigger] r.ggsw@[i].rows@[t], value.value()),
    {
        let mut ggsw: Vec<GgswCiphertext<T>> = Vec::new();
        let rows_per_block = glwe_size.0 * level.0;
        for i in 0..lwe_dimension.0
            invariant
                ggsw@.len() == i,
                forall|t: int|
                    0 <= t < i ==> (#[trigger] ggsw@[t]).wf(
                        glwe_size.0 as nat,
                        poly_size.0 as nat,
                        level.0 as nat,
                    ),
                forall|t: int, u: int|
                    0 <= t < i && 0 <= u < (#[trigger] ggsw@[t]).rows@.len()
                        ==> glwe_filled_with(#[trigger] ggsw@[t].rows@[u], value.value()),
        {
            let mut rows: Vec<GlweCiphertext<T>> = Vec::new();
            for j in 0..rows_per_block
                invariant
                    rows@.len() == j,
                    forall|t: int|
                        0 <= t < j ==> {
                            &&& (#[trigger] rows@[t]).wf(poly_size.0 as nat)
                            &&& rows@[t].mask@.len() == glwe_size.0 - 1
                            &&& glwe_filled_with(rows@[t], value.value())
                        },
            {
                rows.push(GlweCiphertext::allocate(value, poly_size, glwe_size));
            }
            ggsw.push(GgswCiphertext { rows });
        }
        StandardBootstrapKey { ggsw, glwe_size, poly_size, level, base_log }
    }

/// A GLWE encryption of the zero polynomial, with `factor` added on the
/// constant coefficient of component `j` (a mask polynomial below the key
/// count, the body at the key count), encrypts exactly the GGSW row
/// plaintext of `(j, factor)`.
#[verifier::rlimit(50)]
proof fn lemma_ggsw_row_built(
    enc0: GlweCiphertext<T>,
    row: GlweCiphertext<T>,
    keys: Seq<Seq<int>>,
    zv: Seq<int>,
    factor: int,
    j: int,
    n: nat,
    std_dev: LogStandardDev,
)
    requires
        T::modulus() > 1,
        0 <= factor < T::modulus(),
        n > 0,
        zv.len() == n,
        forall|kc: int| 0 <= kc < n ==> #[trigger] zv[kc] == 0,
        enc0.mask@.len() == keys.len(),
        enc0.wf(n),
        forall|p: int| 0 <= p < keys.len() ==> (#[trigger] keys[p]).len() == n,
        glwe_encrypts::<T>(keys, enc0.mask_values(), enc0.body_values(), zv, std_dev),
        0 <= j <= keys.len(),
        (if j < keys.len() {
            &&& row.body == enc0.body
            &&& row.mask@.len() == enc0.mask@.len()
            &&& (forall|p: int|
                0 <= p < enc0.mask@.len() && p != j ==> #[trigger] row.mask@[p]
                    == enc0.mask@[p])
            &&& row.mask_values()[j] == enc0.mask_values()[j].update(
                0,
                (enc0.mask_values()[j][0] + factor) % T::modulus(),
            )
        } else {
            &&& row.mask@ == enc0.mask@
            &&& row.body_values() == enc0.body_values().update(
                0,
                (enc0.body_values()[0] + factor) % T::modulus(),
            )
        }),
    ensures
        glwe_encrypts::<T>(
            keys,
            row.mask_values(),
            row.body_values(),
            ggsw_row_plaintext(keys, j, factor, n, T::modulus()),
            std_dev,
        ),
{
    let m = T::modulus();
    let bvs = row.body_values();
    let plain = ggsw_row_plaintext(keys, j, factor, n, m);
    assert(bvs.len() == n);
    assert forall|kc: int| 0 <= kc < bvs.len() implies crate::random::is_bounded_noise::<T>(
        ((#[trigger] glwe_phase_coef(row.mask_values(), keys, bvs, kc, m)) - plain[kc]) % m,
        std_dev,
    ) by {
        let d1 = glwe_dot_coef(enc0.mask_values(), keys, kc);
        let b1 = enc0.body_values()[kc];
        let phase1 = glwe_phase_coef(enc0.mask_values(), keys, enc0.body_values(), kc, m);
        assert(crate::random::is_bounded_noise::<T>((phase1 - zv[kc]) % m, std_dev));
        lemma_mod_twice(b1 - d1, m);
        if j < keys.len() {
            // a mask row: the inner product gains factor times the key
            // polynomial, which the row plaintext subtracts back
            let a1 = enc0.mask_values()[j];
            let a2 = row.mask_values()[j];
            let e0 = Seq::new(n, |ii: int| if ii == 0 { factor } else { 0int });
            let a3 = Seq::new(n, |ii: int| a1[ii] + e0[ii]);
            assert(a1.len() == n);
            crate::polynomial::lemma_poly_mul_add_left(a1, e0, a3, keys[j], kc);
            crate::polynomial::lemma_poly_mul_single(e0, keys[j], kc);
            let delta = factor * keys[j][kc];
            assert forall|ii: int| 0 <= ii < n implies #[trigger] a2[ii] % m == #[trigger] a3[ii]
                % m by {
                if ii == 0 {
                    lemma_mod_twice(a1[0] + factor, m);
                }
            }
            crate::polynomial::lemma_poly_mul_congruent_left(a2, a3, keys[j], kc, m);
            assert(crate::polynomial::poly_mul_coef(a2, keys[j], kc) % m == (
            crate::polynomial::poly_mul_coef(a1, keys[j], kc) + delta) % m);
            lemma_glwe_dot_update(enc0.mask_values(), row.mask_values(), keys, j, kc, m, delta);
            let d2 = glwe_dot_coef(row.mask_values(), keys, kc);
            vstd::arithmetic::div_mod::lemma_sub_mod_noop_right(b1, d2, m);
            vstd::arithmetic::div_mod::lemma_sub_mod_noop_right(b1, d1 + delta, m);
            assert(bvs[kc] == b1);
            assert(glwe_phase_coef(row.mask_values(), keys, bvs, kc, m) == (b1 - (d1 + delta))
                % m);
            assert(plain[kc] == (0 - delta) % m);
            vstd::arithmetic::div_mod::lemma_sub_mod_noop(b1 - d1 - delta, 0 - delta, m);
            assert((glwe_phase_coef(row.mask_values(), keys, bvs, kc, m) - plain[kc]) % m == (b1
                - d1) % m);
        } else {
            // the body row: the inner product is untouched and the body
            // gains factor on its constant coefficient
            assert(row.mask_values() =~= enc0.mask_values());
            let d2 = glwe_dot_coef(row.mask_values(), keys, kc);
            assert(d2 == d1);
            let b0 = enc0.body_values()[0];
            if kc == 0 {
                assert(bvs[0] == (b0 + factor) % m);
                vstd::arithmetic::div_mod::lemma_sub_mod_noop(b0 + factor, d1, m);
                vstd::arithmetic::div_mod::lemma_sub_mod_noop_right((b0 + factor) % m, d1, m);
                assert(glwe_phase_coef(row.mask_values(), keys, bvs, 0, m) == (b0 + factor - d1)
                    % m);
                lemma_small_mod(factor as nat, m as nat);
                assert(plain[0] == factor);
                vstd::arithmetic::div_mod::lemma_sub_mod_noop(b0 + factor - d1, factor, m);
                assert((glwe_phase_coef(row.mask_values(), keys, bvs, 0, m) - plain[0]) % m == (
                b0 - d1) % m);
                assert(b1 == b0);
            } else {
                assert(bvs[kc] == b1);
                assert(plain[kc] == 0);
            }
        }
    }
}

    /// Fill the key with fresh GGSW encryptions: for each bit of the LWE
    /// secret key, each (level, row) GLWE ciphertext is an encryption of
    /// zero to which the bit, scaled by the gadget power `2^(width -
    /// (l+1)*base_log)` of its level, is added on the row's own polynomial:
    /// row `(l, j)` encrypts exactly the GGSW row plaintext of that scale.
    #[verifier::loop_isolation(false)]
    #[verifier::rlimit(50)]
    pub fn fill_with_new_key(
        &mut self,
        lwe_key: &LweSecretKey<T>,
        glwe_key: &GlweSecretKey<T>,
        noise: LogStandardDev,
        generator: &mut EncryptionRandomGenerator,
    )
        requires
            old(self).params_ok(),
            lwe_key.values().len() == old(self).ggsw@.len(),
            lwe_key.is_binary(),
            glwe_key.wf(),
            glwe_key.polys@.len() == old(self).glwe_size.0 - 1,
            glwe_key.poly_size == old(self).poly_size,
            noise.0 < 0,
        ensures
            final(self).wf(),
            final(self).ggsw@.len() == old(self).ggsw@.len(),
            final(self).glwe_size == old(self).glwe_size,
            final(self).poly_size == old(self).poly_size,
            final(self).level == old(self).level,
            final(self).base_log == old(self).base_log,
            forall|i: int, t: int|
                0 <= i < old(self).ggsw@.len() && 0 <= t < old(self).glwe_size.0 * old(
                    self,
                ).level.0 ==> ggsw_row_encrypts(
                    #[trigger] final(self).ggsw@[i].rows@[t],
                    glwe_key.values_list(),
                    lwe_key.values()[i],
                    t,
                    old(self).glwe_size.0 as int,
                    T::width(),
                    old(self).base_log.0 as nat,
                    old(self).poly_size.0 as nat,
                    noise,
                ),
    {
        let n = self.poly_size.0;
        let gsz = self.glwe_size.0;
        let dim_g = gsz - 1;
        let lev = self.level.0;
        let blog = self.base_log.0;
        let w = T::bits() as usize;
        let count = self.ggsw.len();
        let ghost m = T::modulus();
        let ghost klist = glwe_key.values_list();
        proof {
            T::type_properties();
            crate::torus::lemma_modulus_pos::<T>();
            lemma_mul_basics(gsz as int);
            lemma2_to64();
            lemma2_to64_rest();
        }
        let mut fresh: Vec<GgswCiphertext<T>> = Vec::new();
        for i in 0..count
            invariant
                fresh@.len() == i,
                forall|t: int|
                    0 <= t < i ==> (#[trigger] fresh@[t]).wf(gsz as nat, n as nat, lev as nat),
                forall|ii: int, t: int|
                    0 <= ii < i && 0 <= t < gsz * lev ==> ggsw_row_encrypts(
                        #[trigger] fresh@[ii].rows@[t],
                        klist,
                        lwe_key.values()[ii],
                        t,
                        gsz as int,
                        T::width(),
                        blog as nat,
                        n as nat,
                        noise,
                    ),
        {
            let bit = lwe_key.coefs[i].to_u64();
            let ghost bv = lwe_key.values()[i as int];
            proof {
                lwe_key.coefs@[i as int].value_range();
            }
            let mut rows: Vec<GlweCiphertext<T>> = Vec::new();
            for l in 0..lev
                invariant
                    rows@.len() == l * gsz,
                    forall|t: int|
                        0 <= t < rows@.len() ==> {
                            &&& (#[trigger] rows@[t]).wf(n as nat)
                            &&& rows@[t].mask@.len() == gsz - 1
                        },
                    forall|t: int|
                        0 <= t < rows@.len() ==> ggsw_row_encrypts(
                            #[trigger] rows@[t],
                            klist,
                            bv,
                            t,
                            gsz as int,
                            T::width(),
                            blog as nat,
                            n as nat,
                            noise,
                        ),
            {
                proof {
                    assert((l + 1) * blog <= lev * blog) by (nonlinear_arith)
                        requires
                            l + 1 <= lev,
                            blog >= 0,
                    ;
                    assert((l + 1) * gsz == l * gsz + gsz) by (nonlinear_arith);
                    assert((l + 1) * blog >= 1) by (nonlinear_arith)
                        requires
                            l + 1 >= 1,
                            blog >= 1,
                    ;
                }
                let shift = w - (l + 1) * blog;
                let ghost fvt = bv * gadget_scale(T::width(), blog as nat, l as int);
                proof {
                    // the scaled bit fits below the modulus, so its wrapped
                    // value is exact
                    lemma_pow2_strictly_increases(shift as nat, T::width());
                    vstd::arithmetic::mul::lemma_mul_basics(
                        gadget_scale(T::width(), blog as nat, l as int),
                    );
                    assert(gadget_scale(T::width(), blog as nat, l as int) == pow2(
                        shift as nat,
                    ) as int);
                    if bit == 0 {
                        assert(0u64 << (shift as u32) == 0u64) by (bit_vector);
                        lemma_small_mod(0, m as nat);
                    } else {
                        assert(bv == 1);
                        lemma_u64_shl_is_mul(1u64, shift as u64);
                        lemma_small_mod(pow2(shift as nat), m as nat);
                    }
                }
                let factor = if bit == 0 {
                    T::from_u64(0u64 << (shift as u32))
                } else {
                    T::from_u64(1u64 << (shift as u64))
                };
                proof {
                    assert(factor.value() == fvt);
                }
                for j in 0..gsz
                    invariant
                        rows@.len() == l * gsz + j,
                        factor.value() == fvt,
                        fvt == bv * gadget_scale(T::width(), blog as nat, l as int),
                        0 <= fvt < m,
                        forall|t: int|
                            0 <= t < rows@.len() ==> {
                                &&& (#[trigger] rows@[t]).wf(n as nat)
                                &&& rows@[t].mask@.len() == gsz - 1
                            },
                        forall|t: int|
                            0 <= t < rows@.len() ==> ggsw_row_encrypts(
                                #[trigger] rows@[t],
                                klist,
                                bv,
                                t,
                                gsz as int,
                                T::width(),
                                blog as nat,
                                n as nat,
                                noise,
                            ),
                {
                    let zeros = PlaintextVector::from_container(zero_tensor::<T>(n));
                    let ghost zv = zeros.values();
                    let mut row = glwe_key.encrypt_glwe(&zeros, noise, generator);
                    let ghost enc0 = row;
                    if j < dim_g {
                        let mut updated = row.mask[j].duplicate();
                        let c = updated.coef(0).wadd(factor);
                        updated.set_coef(0, c);
                        row.mask.set(j, updated);
                    } else {
                        let mut updated = row.body.duplicate();
                        let c = updated.coef(0).wadd(factor);
                        updated.set_coef(0, c);
                        row.body = updated;
                    }
                    proof {
                        Self::lemma_ggsw_row_built(
                            enc0,
                            row,
                            klist,
                            zv,
                            fvt,
                            j as int,
                            n as nat,
                            noise,
                        );
                        let t = l * gsz + j;
                        vstd::arithmetic::div_mod::lemma_fundamental_div_mod_converse(
                            t as int,
                            gsz as int,
                            l as int,
                            j as int,
                        );
                        assert(t / (gsz as int) == l && t % (gsz as int) == j);
                        assert(ggsw_row_encrypts(
                            row,
                            klist,
                            bv,
                            t as int,
                            gsz as int,
                            T::width(),
                            blog as nat,
                            n as nat,
                            noise,
                        ));
                    }
                    rows.push(row);
                }
            }
            proof {
                vstd::arithmetic::mul::lemma_mul_is_commutative(lev as int, gsz as int);
            }
            fresh.push(GgswCiphertext { rows });
        }
        self.ggsw = fresh;
    }

    /// The input LWE dimension the key was built for.
    pub fn key_size(&self) -> (r: LweDimension)
        ensures
            r.0 == self.ggsw@.len(),
    {
        LweDimension(self.ggsw.len())
    }

    /// The polynomial size of the key.
    pub fn polynomial_size(&self) -> (r: PolynomialSize)
        ensures
            r == self.poly_size,
    {
        self.poly_size
    }

    /// The GLWE size of the key.
    pub fn glwe_size(&self) -> (r: GlweSize)
        ensures
            r == self.glwe_size,
    {
        self.glwe_size
    }

    /// One CMux step folded into the accumulator: `acc` plus the external
    /// product of `ggsw` with `delta`.  The decomposition of every
    /// polynomial of `delta` is multiplied, level by level, with the
    /// matching GGSW row, exactly, and added to `acc`.
    #[verifier::loop_isolation(false)]
    fn add_external_product(
        &self,
        acc: &GlweCiphertext<T>,
        ggsw: &GgswCiphertext<T>,
        delta: &GlweCiphertext<T>,
    ) -> (r: GlweCiphertext<T>)
        requires
            self.params_ok(),
            ggsw.wf(self.glwe_size.0 as nat, self.poly_size.0 as nat, self.level.0 as nat),
            acc.wf(self.poly_size.0 as nat),
            acc.mask@.len() == self.glwe_size.0 - 1,
            delta.wf(self.poly_size.0 as nat),
            delta.mask@.len() == self.glwe_size.0 - 1,
        ensures
            r.wf(self.poly_size.0 as nat),
            r.mask@.len() == self.glwe_size.0 - 1,
            external_product_rel(
                ggsw.rows@,
                *acc,
                *delta,
                r,
                self.glwe_size.0 as int,
                self.level.0 as int,
                self.base_log.0 as nat,
                self.poly_size.0 as nat,
            ),
    {
        let n = self.poly_size.0;
        let gsz = self.glwe_size.0;
        let dim_g = gsz - 1;
        let lev = self.level.0;
        let blog = self.base_log.0;
        let ghost m = T::modulus();
        // decompose every polynomial of `delta`, flat index p * level + l
        proof {
            lemma_mul_basics(lev as int);
        }
        let mut digits: Vec<Polynomial<T>> = Vec::new();
        for p in 0..gsz
            invariant
                digits@.len() == p * lev,
                all_of_size(digits@, n as nat),
                forall|t: int, kc: int|
                    0 <= t < digits@.len() && 0 <= kc < n ==> balanced_digit::<T>(
                        #[trigger] digits@[t].values()[kc],
                        blog as nat,
                    ),
                forall|pp: int, kc: int|
                    0 <= pp < p && 0 <= kc < n ==> (horner(
                        #[trigger] digit_col(
                            crate::glwe::poly_list_values(digits@),
                            pp,
                            lev as int,
                            kc,
                        ),
                        pow2(blog as nat) as int,
                    ) * pow2((T::width() - lev * blog) as nat)) % m == closest_representable(
                        glwe_component(*delta, pp)[kc],
                        T::width(),
                        (lev * blog) as nat,
                    ) % m,
        {
            proof {
                assert((p + 1) * lev == p * lev + lev) by (nonlinear_arith);
            }
            let ghost digits_before = digits@;
            let src = if p < dim_g {
                &delta.mask[p]
            } else {
                &delta.body
            };
            let ds = decompose_poly(src, self.base_log.0, lev);
            let ghost ds0 = ds@;
            let mut dsm = ds;
            let mut t: usize = 0;
            while t < lev
                invariant
                    t <= lev,
                    dsm@ =~= ds0.subrange(t as int, lev as int),
                    digits@.len() == p * lev + t,
                    all_of_size(digits@, n as nat),
                    forall|i: int|
                        0 <= i < digits_before.len() ==> #[trigger] digits@[i]
                            == digits_before[i],
                    forall|tt: int|
                        0 <= tt < t ==> #[trigger] digits@[p * lev + tt] == ds0[tt],
                decreases lev - t,
            {
                let d = dsm.remove(0);
                digits.push(d);
                proof {
                    assert(dsm@ =~= ds0.subrange((t + 1) as int, lev as int));
                }
                t = t + 1;
            }
            proof {
                // this source polynomial's digits recompose to its rounded
                // coefficients, and the earlier columns are untouched
                assert(src.values() == glwe_component(*delta, p as int));
                assert forall|kc: int| 0 <= kc < n implies digit_col(
                    crate::glwe::poly_list_values(digits@),
                    p as int,
                    lev as int,
                    kc,
                ) =~= digit_column(ds0, kc) by {
                    assert forall|l: int|
                        0 <= l < lev implies #[trigger] digit_col(
                        crate::glwe::poly_list_values(digits@),
                        p as int,
                        lev as int,
                        kc,
                    )[l] == digit_column(ds0, kc)[l] by {
                        assert(digits@[p * lev + l] == ds0[l]);
                    }
                }
                assert forall|pp: int, kc: int|
                    0 <= pp < p + 1 && 0 <= kc < n implies (horner(
                    #[trigger] digit_col(
                        crate::glwe::poly_list_values(digits@),
                        pp,
                        lev as int,
                        kc,
                    ),
                    pow2(blog as nat) as int,
                ) * pow2((T::width() - lev * blog) as nat)) % m == closest_representable(
                    glwe_component(*delta, pp)[kc],
                    T::width(),
                    (lev * blog) as nat,
                ) % m by {
                    if pp < p {
                        assert forall|l: int|
                            0 <= l < lev implies #[trigger] digit_col(
                            crate::glwe::poly_list_values(digits@),
                            pp,
                            lev as int,
                            kc,
                        )[l] == digit_col(
                            crate::glwe::poly_list_values(digits_before),
                            pp,
                            lev as int,
                            kc,
                        )[l] by {
                            assert(pp * lev + lev <= p * lev) by (nonlinear_arith)
                                requires
                                    pp + 1 <= p,
                                    lev >= 0,
                            ;
                            assert(digits@[pp * lev + l] == digits_before[pp * lev + l]);
                        }
                        assert(digit_col(
                            crate::glwe::poly_list_values(digits@),
                            pp,
                            lev as int,
                            kc,
                        ) =~= digit_col(
                            crate::glwe::poly_list_values(digits_before),
                            pp,
                            lev as int,
                            kc,
                        ));
                        assert((horner(
                            digit_col(
                                crate::glwe::poly_list_values(digits_before),
                                pp,
                                lev as int,
                                kc,
                            ),
                            pow2(blog as nat) as int,
                        ) * pow2((T::width() - lev * blog) as nat)) % m
                            == closest_representable(
                            glwe_component(*delta, pp)[kc],
                            T::width(),
                            (lev * blog) as nat,
                        ) % m);
                    } else {
                        assert(digit_col(
                            crate::glwe::poly_list_values(digits@),
                            pp,
                            lev as int,
                            kc,
                        ) =~= digit_column(ds0, kc));
                    }
                }
                // the fresh words are balanced
                assert forall|t2: int, kc: int|
                    0 <= t2 < digits@.len() && 0 <= kc < n implies balanced_digit::<T>(
                    #[trigger] digits@[t2].values()[kc],
                    blog as nat,
                ) by {
                    if t2 >= p * lev {
                        let tt = t2 - p * lev;
                        assert(digits@[p * lev + tt] == ds0[tt]);
                        assert(digits@[t2] == ds0[tt]);
                    }
                }
            }
        }
        // accumulate, one output polynomial at a time
        let mut out_mask: Vec<Polynomial<T>> = Vec::new();
        let ghost dv = crate::glwe::poly_list_values(digits@);
        for q in 0..dim_g
            invariant
                out_mask@.len() == q,
                all_of_size(out_mask@, n as nat),
                digits@.len() == gsz * lev,
                all_of_size(digits@, n as nat),
                dv == crate::glwe::poly_list_values(digits@),
                forall|qq: int, kc: int|
                    0 <= qq < q && 0 <= kc < n ==> #[trigger] out_mask@[qq].values()[kc] == (
                    glwe_component(*acc, qq)[kc] + ext_sum(
                        dv,
                        ggsw.rows@,
                        lev as int,
                        gsz as int,
                        qq,
                        kc,
                        gsz as int,
                    )) % m,
        {
            let outp = self.accumulate_component(&acc.mask[q], ggsw, &digits, q);
            proof {
                assert(acc.mask[q as int].values() == glwe_component(*acc, q as int));
            }
            out_mask.push(outp);
        }
        let out_body = self.accumulate_component(&acc.body, ggsw, &digits, dim_g);
        let r = GlweCiphertext { mask: out_mask, body: out_body };
        proof {
            // the digit values witness the external-product relation
            assert(acc.body.values() == glwe_component(*acc, dim_g as int));
            assert forall|q: int, kc: int|
                0 <= q < gsz && 0 <= kc < n implies #[trigger] glwe_component(r, q)[kc] == (
            glwe_component(*acc, q)[kc] + ext_sum(
                dv,
                ggsw.rows@,
                lev as int,
                gsz as int,
                q,
                kc,
                gsz as int,
            )) % m by {
                if q < dim_g {
                    assert(glwe_component(r, q) == r.mask_values()[q]);
                    assert(r.mask_values()[q] == r.mask@[q].values());
                } else {
                    assert(glwe_component(r, q) == out_body.values());
                }
            }
            assert forall|t: int, kc: int|
                0 <= t < dv.len() && 0 <= kc < n implies balanced_digit::<T>(
                #[trigger] dv[t][kc],
                blog as nat,
            ) by {
                assert(dv[t] == digits@[t].values());
            }
            assert(dv.len() == gsz * lev);
            assert(forall|t: int| 0 <= t < dv.len() ==> (#[trigger] dv[t]).len() == n);
            assert(external_product_rel(
                ggsw.rows@,
                *acc,
                *delta,
                r,
                gsz as int,
                lev as int,
                blog as nat,
                n as nat,
            ));
        }
        r
    }

    /// One output polynomial of the external product: the base polynomial
    /// plus, for every (source polynomial, level) pair, the exact ring
    /// product of the decomposition digit with component `q` of the
    /// matching GGSW row.
    #[verifier::loop_isolation(false)]
    fn accumulate_component(
        &self,
        base: &Polynomial<T>,
        ggsw: &GgswCiphertext<T>,
        digits: &Vec<Polynomial<T>>,
        q: usize,
    ) -> (r: Polynomial<T>)
        requires
            self.params_ok(),
            ggsw.wf(self.glwe_size.0 as nat, self.poly_size.0 as nat, self.level.0 as nat),
            base.spec_len() == self.poly_size.0,
            digits@.len() == self.glwe_size.0 * self.level.0,
            all_of_size(digits@, self.poly_size.0 as nat),
            q < self.glwe_size.0,
        ensures
            r.spec_len() == self.poly_size.0,
            forall|kc: int|
                0 <= kc < self.poly_size.0 ==> #[trigger] r.values()[kc] == (base.values()[kc]
                    + ext_sum(
                    crate::glwe::poly_list_values(digits@),
                    ggsw.rows@,
                    self.level.0 as int,
                    self.glwe_size.0 as int,
                    q as int,
                    kc,
                    self.glwe_size.0 as int,
                )) % T::modulus(),
    {
        let n = self.poly_size.0;
        let gsz = self.glwe_size.0;
        let dim_g = gsz - 1;
        let lev = self.level.0;
        let nrows = ggsw.rows.len();
        let ghost m = T::modulus();
        let ghost dv = crate::glwe::poly_list_values(digits@);
        let ghost rows = ggsw.rows@;
        proof {
            crate::torus::lemma_modulus_pos::<T>();
        }
        let mut scratch = Polynomial::allocate(T::zero(), PolynomialSize(n));
        let mut outp = base.duplicate();
        proof {
            assert forall|kc: int| 0 <= kc < n implies #[trigger] outp.values()[kc] == (
            base.values()[kc] + ext_sum(dv, rows, lev as int, gsz as int, q as int, kc, 0))
                % m by {
                base.coefs@[kc].value_range();
                lemma_small_mod(base.values()[kc] as nat, m as nat);
            }
        }
        for p in 0..gsz
            invariant
                scratch.spec_len() == n,
                outp.spec_len() == n,
                forall|kc: int|
                    0 <= kc < n ==> #[trigger] outp.values()[kc] == (base.values()[kc] + ext_sum(
                        dv,
                        rows,
                        lev as int,
                        gsz as int,
                        q as int,
                        kc,
                        p as int,
                    )) % m,
        {
            for l in 0..lev
                invariant
                    scratch.spec_len() == n,
                    outp.spec_len() == n,
                    forall|kc: int|
                        0 <= kc < n ==> #[trigger] outp.values()[kc] == (base.values()[kc]
                            + ext_sum(dv, rows, lev as int, gsz as int, q as int, kc, p as int)
                            + ext_sum_levels(
                            dv,
                            rows,
                            p as int,
                            lev as int,
                            gsz as int,
                            q as int,
                            kc,
                            l as int,
                        )) % m,
            {
                proof {
                    assert(p * lev + l < gsz * lev) by (nonlinear_arith)
                        requires
                            p < gsz,
                            l < lev,
                            lev >= 1,
                    ;
                    assert(l * gsz + p < lev * gsz) by (nonlinear_arith)
                        requires
                            p < gsz,
                            l < lev,
                            gsz >= 1,
                    ;
                    vstd::arithmetic::mul::lemma_mul_is_commutative(gsz as int, lev as int);
                    assert(nrows == gsz * lev);
                }
                let row = &ggsw.rows[l * gsz + p];
                let row_poly = if q < dim_g {
                    &row.mask[q]
                } else {
                    &row.body
                };
                let ghost out_before = outp;
                scratch.fill_with_mul_karatsuba(&digits[p * lev + l], row_poly);
                outp.update_with_wrapping_add(&scratch);
                proof {
                    assert forall|kc: int| 0 <= kc < n implies #[trigger] outp.values()[kc] == (
                    base.values()[kc] + ext_sum(dv, rows, lev as int, gsz as int, q as int, kc,
                        p as int,
                    ) + ext_sum_levels(
                        dv,
                        rows,
                        p as int,
                        lev as int,
                        gsz as int,
                        q as int,
                        kc,
                        l + 1,
                    )) % m by {
                        let pm = poly_mul_coef(
                            dv[p * lev + l],
                            glwe_component(rows[l * gsz + p], q as int),
                            kc,
                        );
                        assert(dv[p * lev + l] == digits@[p * lev + l].values());
                        assert(glwe_component(rows[l * gsz + p], q as int) == row_poly.values());
                        assert(scratch.values()[kc] == pm % m);
                        let partial = base.values()[kc] + ext_sum(
                            dv,
                            rows,
                            lev as int,
                            gsz as int,
                            q as int,
                            kc,
                            p as int,
                        ) + ext_sum_levels(
                            dv,
                            rows,
                            p as int,
                            lev as int,
                            gsz as int,
                            q as int,
                            kc,
                            l as int,
                        );
                        vstd::arithmetic::div_mod::lemma_add_mod_noop(partial, pm, m);
                        assert(outp.values()[kc] == (out_before.values()[kc]
                            + scratch.values()[kc]) % m);
                    }
                }
            }
        }
        outp
    }

    /// The blind rotation: rotate the accumulator by the (rounded) body,
    /// then fold in one CMux per mask coefficient, so that the accumulator
    /// ends as the lookup table rotated by the encrypted message.  Then
    /// sample-extract the constant term into the output LWE ciphertext
    /// under the flattened GLWE key.  The caller guarantees matching shapes.
    #[verifier::loop_isolation(false)]
    pub fn bootstrap_unchecked(
        &self,
        output: &mut LweCiphertext<T>,
        input: &LweCiphertext<T>,
        accumulator: &GlweCiphertext<T>,
        buffers: &mut BootstrapBuffers<T>,
    )
        requires
            self.wf(),
            self.params_ok(),
            input.mask_values().len() == self.ggsw@.len(),
            accumulator.wf(self.poly_size.0 as nat),
            accumulator.mask@.len() == self.glwe_size.0 - 1,
            old(output).mask_values().len() == (self.glwe_size.0 - 1) * self.poly_size.0,
        ensures
            final(output).mask_values().len() == old(output).mask_values().len(),
            final(buffers).acc.wf(self.poly_size.0 as nat),
            final(buffers).acc.mask@.len() == self.glwe_size.0 - 1,
            final(output).body_value() == final(buffers).acc.body_values()[0],
            forall|i: int|
                0 <= i < final(output).mask_values().len()
                    ==> #[trigger] final(output).mask_values()[i] == extracted_mask_coef(
                    final(buffers).acc.mask_values(),
                    self.poly_size.0 as int,
                    T::modulus(),
                    i / (self.poly_size.0 as int),
                    i % (self.poly_size.0 as int),
                ),
            exists|chain: Seq<GlweCiphertext<T>>|
                {
                    &&& #[trigger] blind_rotation_chain(*self, *input, *accumulator, chain)
                    &&& final(buffers).acc == chain.last()
                },
    {
        let n = self.poly_size.0;
        let gsz = self.glwe_size.0;
        let dim_g = gsz - 1;
        let n2 = 2 * n;
        let ghost m = T::modulus();
        let ghost n2i = 2 * (n as int);
        // step 1: the only rounding of the algorithm, the body reduced to
        // the rotation precision, then the initial rotation by its inverse
        let b_hat = modulus_switch(input.body, n, n2);
        let base = copy_glwe(accumulator);
        let ghost base_snap = base;
        let mut acc = base;
        rotate_glwe_div(&mut acc, MonomialDegree(b_hat));
        let ghost mut chain: Seq<GlweCiphertext<T>> = seq![acc];
        proof {
            // the copy has the accumulator's exact component values
            assert(rotated_rel(base_snap, chain[0], -(b_hat as int)));
            assert forall|c: int| 0 <= c <= accumulator.mask@.len() implies #[trigger]
                glwe_component(base_snap, c) == glwe_component(*accumulator, c) by {
            }
            assert(rotated_rel(
                *accumulator,
                chain[0],
                0 - switched_degree(input.body_value(), m, n2i),
            ));
        }
        // step 2: one CMux per mask coefficient
        let count = input.mask.len();
        for i in 0..count
            invariant
                acc.wf(n as nat),
                acc.mask@.len() == dim_g,
                count == self.ggsw@.len(),
                chain.len() == i + 1,
                chain.last() == acc,
                rotated_rel(
                    *accumulator,
                    chain[0],
                    0 - switched_degree(input.body_value(), m, n2i),
                ),
                forall|ii: int|
                    0 <= ii < i ==> cmux_rel(
                        self.ggsw@[ii].rows@,
                        #[trigger] chain[ii],
                        chain[ii + 1],
                        switched_degree(input.mask_values()[ii], m, n2i),
                        gsz as int,
                        self.level.0 as int,
                        self.base_log.0 as nat,
                        n as nat,
                    ),
        {
            let ghost acc_pre = acc;
            let a_hat = modulus_switch(input.mask[i], n, n2);
            let copy = copy_glwe(&acc);
            let ghost copy_snap = copy;
            let mut rotated = copy;
            rotate_glwe_mul(&mut rotated, MonomialDegree(a_hat));
            let ghost rot_snap = rotated;
            // delta = rotated - acc
            subtract_glwe(&mut rotated, &acc);
            let ghost dl_snap = rotated;
            acc = self.add_external_product(&acc, &self.ggsw[i], &rotated);
            proof {
                let ahat = switched_degree(input.mask_values()[i as int], m, n2i);
                assert forall|c: int| 0 <= c <= acc_pre.mask@.len() implies #[trigger]
                    glwe_component(copy_snap, c) == glwe_component(acc_pre, c) by {
                }
                assert(rotated_rel(acc_pre, rot_snap, ahat));
                assert(difference_rel(rot_snap, acc_pre, dl_snap));
                assert(cmux_rel(
                    self.ggsw@[i as int].rows@,
                    acc_pre,
                    acc,
                    ahat,
                    gsz as int,
                    self.level.0 as int,
                    self.base_log.0 as nat,
                    n as nat,
                ));
                chain = chain.push(acc);
            }
        }
        // step 3: sample extraction under the flattened key
        let body = acc.body.coef(0);
        proof {
            lemma_mul_basics(n as int);
        }
        let mut mask: Vec<T> = Vec::new();
        for j in 0..dim_g
            invariant
                acc.wf(n as nat),
                acc.mask@.len() == dim_g,
                mask@.len() == j * n,
                (j as int) * (n as int) <= (dim_g as int) * (n as int),
                forall|i: int|
                    0 <= i < mask@.len() ==> (#[trigger] mask@[i]).value() == extracted_mask_coef(
                        acc.mask_values(),
                        n as int,
                        T::modulus(),
                        i / (n as int),
                        i % (n as int),
                    ),
        {
            proof {
                assert((j + 1) * n == j * n + n) by (nonlinear_arith);
                assert((j + 1) * n <= dim_g * n) by (nonlinear_arith)
                    requires
                        j + 1 <= dim_g,
                        n >= 0,
                ;
            }
            for k in 0..n
                invariant
                    acc.wf(n as nat),
                    acc.mask@.len() == dim_g,
                    j < dim_g,
                    mask@.len() == j * n + k,
                    (j as int) * (n as int) + (n as int) <= (dim_g as int) * (n as int),
                    forall|i: int|
                        0 <= i < mask@.len() ==> (#[trigger] mask@[i]).value()
                            == extracted_mask_coef(
                            acc.mask_values(),
                            n as int,
                            T::modulus(),
                            i / (n as int),
                            i % (n as int),
                        ),
            {
                if k == 0 {
                    mask.push(acc.mask[j].coef(0));
                } else {
                    mask.push(acc.mask[j].coef(n - k).wneg());
                }
                proof {
                    let i = j * n + k;
                    vstd::arithmetic::div_mod::lemma_fundamental_div_mod_converse(
                        i as int,
                        n as int,
                        j as int,
                        k as int,
                    );
                    assert(i / (n as int) == j && i % (n as int) == k);
                }
            }
        }
        output.mask = mask;
        output.body = body;
        buffers.acc = acc;
        proof {
            assert(blind_rotation_chain(*self, *input, *accumulator, chain));
            assert(final(buffers).acc == chain.last());
        }
    }

    /// The bootstrap entry point: validate every shape, then run the blind
    /// rotation.  Each mismatch between the key, the input, the output and
    /// the accumulator is reported as its own condition and leaves the
    /// output untouched.
    pub fn bootstrap(
        &self,
        output: &mut LweCiphertext<T>,
        input: &LweCiphertext<T>,
        accumulator: &GlweCiphertext<T>,
        buffers: &mut BootstrapBuffers<T>,
    ) -> (r: Result<(), ShapeError>)
        requires
            self.wf(),
            self.params_ok(),
            all_of_size(accumulator.mask@, accumulator.body.spec_len()),
        ensures
            r is Ok <==> (input.mask_values().len() == self.ggsw@.len() && old(
                output,
            ).mask_values().len() == (self.glwe_size.0 - 1) * self.poly_size.0
                && accumulator.mask@.len() == self.glwe_size.0 - 1 && accumulator.body.spec_len()
                == self.poly_size.0),
            r == Err::<(), ShapeError>(ShapeError::LweDimensionMismatch) <==> (
            input.mask_values().len() != self.ggsw@.len() || old(output).mask_values().len() != (
            self.glwe_size.0 - 1) * self.poly_size.0),
            r == Err::<(), ShapeError>(ShapeError::GlweDimensionMismatch) <==> (
            input.mask_values().len() == self.ggsw@.len() && old(output).mask_values().len() == (
            self.glwe_size.0 - 1) * self.poly_size.0 && accumulator.mask@.len()
                != self.glwe_size.0 - 1),
            r == Err::<(), ShapeError>(ShapeError::PolynomialSizeMismatch) <==> (
            input.mask_values().len() == self.ggsw@.len() && old(output).mask_values().len() == (
            self.glwe_size.0 - 1) * self.poly_size.0 && accumulator.mask@.len() == self.glwe_size.0
                - 1 && accumulator.body.spec_len() != self.poly_size.0),
            r is Err ==> *final(output) == *old(output),
            r is Ok ==> {
                &&& final(output).mask_values().len() == (self.glwe_size.0 - 1)
                    * self.poly_size.0
                &&& final(output).body_value() == final(buffers).acc.body_values()[0]
                &&& forall|i: int|
                    0 <= i < final(output).mask_values().len()
                        ==> #[trigger] final(output).mask_values()[i] == extracted_mask_coef(
                        final(buffers).acc.mask_values(),
                        self.poly_size.0 as int,
                        T::modulus(),
                        i / (self.poly_size.0 as int),
                        i % (self.poly_size.0 as int),
                    )
            },
    {
        proof {
            vstd::arithmetic::mul::lemma_mul_is_commutative(
                (self.glwe_size.0 - 1) as int,
                self.poly_size.0 as int,
            );
        }
        if input.mask.len() != self.ggsw.len() {
            return Err(ShapeError::LweDimensionMismatch);
        }
        let flat = match (self.glwe_size.0 - 1).checked_mul(self.poly_size.0) {
            Some(t) => t,
            None => {
                return Err(ShapeError::LweDimensionMismatch);
            },
        };
        if output.mask.len() != flat {
            return Err(ShapeError::LweDimensionMismatch);
        }
        if accumulator.mask.len() != self.glwe_size.0 - 1 {
            return Err(ShapeError::GlweDimensionMismatch);
        }
        if accumulator.body.polynomial_size().0 != self.poly_size.0 {
            return Err(ShapeError::PolynomialSizeMismatch);
        }
        self.bootstrap_unchecked(output, input, accumulator, buffers);
        Ok(())
    }
}

/// One CMux step of the blind rotation: `next` extends `cur` by the
/// external product of the GGSW block `rows` with the difference between
/// `cur` rotated by `X^ahat` and `cur` itself.
pub open spec fn cmux_rel<T: TorusElement>(
    rows: Seq<GlweCiphertext<T>>,
    cur: GlweCiphertext<T>,
    next: GlweCiphertext<T>,
    ahat: int,
    gsz: int,
    lev: int,
    base_log: nat,
    n: nat,
) -> bool {
    exists|rot: GlweCiphertext<T>, dl: GlweCiphertext<T>|
        #![trigger rotated_rel(cur, rot, ahat), difference_rel(rot, cur, dl)]
        {
            &&& rotated_rel(cur, rot, ahat)
            &&& difference_rel(rot, cur, dl)
            &&& external_product_rel(rows, cur, dl, next, gsz, lev, base_log, n)
        }
}

/// The whole blind rotation, as a chain of accumulator states: the
/// accumulator rotated down by the rounded body, then one CMux per input
/// mask coefficient against the matching GGSW block, each rotation amount
/// the switched degree of its coefficient.
pub open spec fn blind_rotation_chain<T: TorusElement>(
    bsk: StandardBootstrapKey<T>,
    input: LweCiphertext<T>,
    accumulator: GlweCiphertext<T>,
    chain: Seq<GlweCiphertext<T>>,
) -> bool {
    let m = T::modulus();
    let n2 = 2 * bsk.poly_size.0 as int;
    &&& chain.len() == input.mask@.len() + 1
    &&& rotated_rel(accumulator, chain[0], 0 - switched_degree(input.body_value(), m, n2))
    &&& forall|i: int|
        0 <= i < input.mask@.len() ==> cmux_rel(
            bsk.ggsw@[i].rows@,
            #[trigger] chain[i],
            chain[i + 1],
            switched_degree(input.mask_values()[i], m, n2),
            bsk.glwe_size.0 as int,
            bsk.level.0 as int,
            bsk.base_log.0 as nat,
            bsk.poly_size.0 as nat,
        )
}

/// A buffer of `size` zero elements.
#[verifier::loop_isolation(false)]
fn zero_tensor<T: TorusElement>(size: usize) -> (r: Vec<T>)
    ensures
        r@.len() == size,
        forall|i: int| 0 <= i < size ==> (#[trigger] r@[i]).value() == 0,
{
    let mut out: Vec<T> = Vec::new();
    let zero = T::zero();
    for i in 0..size
        invariant
            out@.len() == i,
            forall|j: int| 0 <= j < i ==> (#[trigger] out@[j]).value() == 0,
    {
        out.push(zero);
    }
    out
}

/// An element-for-element copy of a GLWE ciphertext.
#[verifier::loop_isolation(false)]
fn copy_glwe<T: TorusElement>(ct: &GlweCiphertext<T>) -> (r: GlweCiphertext<T>)
    requires
        all_of_size(ct.mask@, ct.body.spec_len()),
    ensures
        r.mask@.len() == ct.mask@.len(),
        r.wf(ct.body.spec_len()),
        r.mask_values() == ct.mask_values(),
        r.body_values() == ct.body_values(),
{
    let mut mask: Vec<Polynomial<T>> = Vec::new();
    let count = ct.mask.len();
    for j in 0..count
        invariant
            mask@.len() == j,
            forall|t: int|
                0 <= t < j ==> {
                    &&& (#[trigger] mask@[t]).spec_len() == ct.body.spec_len()
                    &&& mask@[t].values() == ct.mask@[t].values()
                },
    {
        mask.push(ct.mask[j].duplicate());
    }
    let r = GlweCiphertext { mask, body: ct.body.duplicate() };
    proof {
        assert(r.mask_values() =~= ct.mask_values());
    }
    r
}

/// Component `c` of a GLWE ciphertext: mask polynomial `c` below the mask
/// count, the body at the mask count.
pub open spec fn glwe_component<T: TorusElement>(ct: GlweCiphertext<T>, c: int) -> Seq<int> {
    if c < ct.mask@.len() {
        ct.mask_values()[c]
    } else {
        ct.body_values()
    }
}

/// `b` is `a` with every component multiplied by the monic monomial `X^r`.
pub open spec fn rotated_rel<T: TorusElement>(
    a: GlweCiphertext<T>,
    b: GlweCiphertext<T>,
    r: int,
) -> bool {
    &&& b.mask@.len() == a.mask@.len()
    &&& b.body.spec_len() == a.body.spec_len()
    &&& forall|c: int|
        0 <= c <= a.mask@.len() ==> #[trigger] glwe_component(b, c) == monomial_mul_seq(
            glwe_component(a, c),
            T::modulus(),
            r,
        )
}

/// `d` is the component-wise wrapped difference `a - b`.
pub open spec fn difference_rel<T: TorusElement>(
    a: GlweCiphertext<T>,
    b: GlweCiphertext<T>,
    d: GlweCiphertext<T>,
) -> bool {
    &&& d.mask@.len() == a.mask@.len()
    &&& d.body.spec_len() == a.body.spec_len()
    &&& forall|c: int, kc: int|
        0 <= c <= a.mask@.len() && 0 <= kc < a.body.spec_len() ==> #[trigger] glwe_component(
            d,
            c,
        )[kc] == (glwe_component(a, c)[kc] - glwe_component(b, c)[kc]) % T::modulus()
}

/// A digit value is balanced: as a signed value its magnitude is at most
/// half the decomposition base.
pub open spec fn balanced_digit<T: TorusElement>(d: int, base_log: nat) -> bool {
    d < pow2((base_log - 1) as nat) || d >= T::modulus() - pow2((base_log - 1) as nat)
}

/// The digit column of source polynomial `p` at coefficient `kc`, read out
/// of a flat digit list, level by level.
pub open spec fn digit_col(dvals: Seq<Seq<int>>, p: int, lev: int, kc: int) -> Seq<int> {
    Seq::new(lev as nat, |l: int| dvals[p * lev + l][kc])
}

/// `next` is `acc` plus the external product of the GGSW block `rows` with
/// `delta`: there are balanced digit polynomials, recomposing coefficient
/// by coefficient to `delta` rounded to the decomposition precision, whose
/// level-weighted ring products with the block's rows sum onto every
/// component of `acc`.
pub open spec fn external_product_rel<T: TorusElement>(
    rows: Seq<GlweCiphertext<T>>,
    acc: GlweCiphertext<T>,
    delta: GlweCiphertext<T>,
    next: GlweCiphertext<T>,
    gsz: int,
    lev: int,
    base_log: nat,
    n: nat,
) -> bool {
    exists|dvals: Seq<Seq<int>>|
        {
            &&& #[trigger] dvals.len() == gsz * lev
            &&& (forall|t: int| 0 <= t < dvals.len() ==> (#[trigger] dvals[t]).len() == n)
            &&& (forall|t: int, kc: int|
                0 <= t < dvals.len() && 0 <= kc < n ==> balanced_digit::<T>(
                    #[trigger] dvals[t][kc],
                    base_log,
                ))
            &&& (forall|p: int, kc: int|
                0 <= p < gsz && 0 <= kc < n ==> (horner(
                    #[trigger] digit_col(dvals, p, lev, kc),
                    pow2(base_log) as int,
                ) * pow2((T::width() - lev * base_log) as nat)) % T::modulus()
                    == closest_representable(
                    glwe_component(delta, p)[kc],
                    T::width(),
                    (lev * base_log) as nat,
                ) % T::modulus())
            &&& (forall|q: int, kc: int|
                0 <= q < gsz && 0 <= kc < n ==> #[trigger] glwe_component(next, q)[kc] == (
                glwe_component(acc, q)[kc] + ext_sum(dvals, rows, lev, gsz, q, kc, gsz))
                    % T::modulus())
        }
}

/// The external-product sum for output component `q`, coefficient `kc`,
/// over the first `uptol` levels of source polynomial `p`: each digit
/// polynomial multiplied, in the ring, with component `q` of its matching
/// GGSW row.
pub open spec fn ext_sum_levels<T: TorusElement>(
    digits: Seq<Seq<int>>,
    rows: Seq<GlweCiphertext<T>>,
    p: int,
    lev: int,
    gsz: int,
    q: int,
    kc: int,
    uptol: int,
) -> int
    decreases uptol,
{
    if uptol <= 0 {
        0
    } else {
        ext_sum_levels(digits, rows, p, lev, gsz, q, kc, uptol - 1) + poly_mul_coef(
            digits[p * lev + (uptol - 1)],
            glwe_component(rows[(uptol - 1) * gsz + p], q),
            kc,
        )
    }
}

/// The full external-product sum for output component `q`, coefficient
/// `kc`, over the first `uptop` source polynomials.
pub open spec fn ext_sum<T: TorusElement>(
    digits: Seq<Seq<int>>,
    rows: Seq<GlweCiphertext<T>>,
    lev: int,
    gsz: int,
    q: int,
    kc: int,
    uptop: int,
) -> int
    decreases uptop,
{
    if uptop <= 0 {
        0
    } else {
        ext_sum(digits, rows, lev, gsz, q, kc, uptop - 1) + ext_sum_levels(
            digits,
            rows,
            uptop - 1,
            lev,
            gsz,
            q,
            kc,
            lev,
        )
    }
}

/// Rotate every polynomial of the ciphertext by multiplication with the
/// monic monomial `X^degree`.
#[verifier::loop_isolation(false)]
fn rotate_glwe_mul<T: TorusElement>(ct: &mut GlweCiphertext<T>, degree: MonomialDegree)
    requires
        all_of_size(old(ct).mask@, old(ct).body.spec_len()),
        0 < old(ct).body.spec_len() <= usize::MAX / 4,
    ensures
        final(ct).mask@.len() == old(ct).mask@.len(),
        final(ct).body.spec_len() == old(ct).body.spec_len(),
        all_of_size(final(ct).mask@, old(ct).body.spec_len()),
        rotated_rel(*old(ct), *final(ct), degree.0 as int),
{
    let count = ct.mask.len();
    let ghost n = old(ct).body.spec_len();
    let ghost m = T::modulus();
    for j in 0..count
        invariant
            ct.mask@.len() == count,
            ct.body == old(ct).body,
            all_of_size(ct.mask@, n),
            forall|c: int| j <= c < count ==> #[trigger] ct.mask@[c] == old(ct).mask@[c],
            forall|c: int|
                0 <= c < j ==> #[trigger] ct.mask_values()[c] == monomial_mul_seq(
                    old(ct).mask_values()[c],
                    m,
                    degree.0 as int,
                ),
    {
        let ghost prev = *ct;
        let mut p = ct.mask[j].duplicate();
        p.update_with_monic_monomial_mul(degree);
        ct.mask.set(j, p);
        proof {
            assert(prev.mask@[j as int] == old(ct).mask@[j as int]);
            assert(p.values() == monomial_mul_seq(
                prev.mask@[j as int].values(),
                T::modulus(),
                degree.0 as int,
            ));
            assert(old(ct).mask_values()[j as int] == old(ct).mask@[j as int].values());
            assert forall|c: int| 0 <= c < j + 1 implies #[trigger] ct.mask_values()[c]
                == monomial_mul_seq(old(ct).mask_values()[c], m, degree.0 as int) by {
                if c == j {
                    assert(ct.mask@[c] == p);
                    assert(ct.mask_values()[c] == p.values());
                } else {
                    assert(ct.mask@[c] == prev.mask@[c]);
                    assert(ct.mask_values()[c] == prev.mask_values()[c]);
                }
            }
        }
    }
    let ghost pre_body = *ct;
    let mut b = ct.body.duplicate();
    b.update_with_monic_monomial_mul(degree);
    let ghost bsnap = b;
    ct.body = b;
    proof {
        assert(final(ct).body == bsnap);
        assert(final(ct).mask@ == pre_body.mask@);
        assert forall|c: int| 0 <= c <= old(ct).mask@.len() implies #[trigger] glwe_component(
            *final(ct),
            c,
        ) == monomial_mul_seq(glwe_component(*old(ct), c), m, degree.0 as int) by {
            if c < old(ct).mask@.len() {
                assert(glwe_component(*final(ct), c) == final(ct).mask_values()[c]);
                assert(final(ct).mask_values()[c] == pre_body.mask_values()[c]);
                assert(glwe_component(*old(ct), c) == old(ct).mask_values()[c]);
            } else {
                assert(glwe_component(*final(ct), c) == final(ct).body_values());
                assert(final(ct).body_values() == bsnap.values());
                assert(glwe_component(*old(ct), c) == old(ct).body_values());
            }
        }
    }
}

/// Rotate every polynomial of the ciphertext by division by the monic
/// monomial `X^degree`.
#[verifier::loop_isolation(false)]
fn rotate_glwe_div<T: TorusElement>(ct: &mut GlweCiphertext<T>, degree: MonomialDegree)
    requires
        all_of_size(old(ct).mask@, old(ct).body.spec_len()),
        0 < old(ct).body.spec_len() <= usize::MAX / 4,
    ensures
        final(ct).mask@.len() == old(ct).mask@.len(),
        final(ct).body.spec_len() == old(ct).body.spec_len(),
        all_of_size(final(ct).mask@, old(ct).body.spec_len()),
        rotated_rel(*old(ct), *final(ct), -(degree.0 as int)),
{
    let count = ct.mask.len();
    let ghost n = old(ct).body.spec_len();
    let ghost m = T::modulus();
    for j in 0..count
        invariant
            ct.mask@.len() == count,
            ct.body == old(ct).body,
            all_of_size(ct.mask@, n),
            forall|c: int| j <= c < count ==> #[trigger] ct.mask@[c] == old(ct).mask@[c],
            forall|c: int|
                0 <= c < j ==> #[trigger] ct.mask_values()[c] == monomial_mul_seq(
                    old(ct).mask_values()[c],
                    m,
                    -(degree.0 as int),
                ),
    {
        let ghost prev = *ct;
        let mut p = ct.mask[j].duplicate();
        p.update_with_monic_monomial_div(degree);
        ct.mask.set(j, p);
        proof {
            assert(prev.mask@[j as int] == old(ct).mask@[j as int]);
            assert(p.values() == monomial_mul_seq(
                prev.mask@[j as int].values(),
                T::modulus(),
                -(degree.0 as int),
            ));
            assert(old(ct).mask_values()[j as int] == old(ct).mask@[j as int].values());
            assert forall|c: int| 0 <= c < j + 1 implies #[trigger] ct.mask_values()[c]
                == monomial_mul_seq(old(ct).mask_values()[c], m, -(degree.0 as int)) by {
                if c == j {
                    assert(ct.mask@[c] == p);
                    assert(ct.mask_values()[c] == p.values());
                } else {
                    assert(ct.mask@[c] == prev.mask@[c]);
                    assert(ct.mask_values()[c] == prev.mask_values()[c]);
                }
            }
        }
    }
    let ghost pre_body = *ct;
    let mut b = ct.body.duplicate();
    b.update_with_monic_monomial_div(degree);
    let ghost bsnap = b;
    ct.body = b;
    proof {
        assert(final(ct).body == bsnap);
        assert(final(ct).mask@ == pre_body.mask@);
        assert forall|c: int| 0 <= c <= old(ct).mask@.len() implies #[trigger] glwe_component(
            *final(ct),
            c,
        ) == monomial_mul_seq(glwe_component(*old(ct), c), m, -(degree.0 as int)) by {
            if c < old(ct).mask@.len() {
                assert(glwe_component(*final(ct), c) == final(ct).mask_values()[c]);
                assert(final(ct).mask_values()[c] == pre_body.mask_values()[c]);
                assert(glwe_component(*old(ct), c) == old(ct).mask_values()[c]);
            } else {
                assert(glwe_component(*final(ct), c) == final(ct).body_values());
                assert(final(ct).body_values() == bsnap.values());
                assert(glwe_component(*old(ct), c) == old(ct).body_values());
            }
        }
    }
}

/// Subtract `other` from `ct`, polynomial by polynomial, wrapping.
#[verifier::loop_isolation(false)]
fn subtract_glwe<T: TorusElement>(ct: &mut GlweCiphertext<T>, other: &GlweCiphertext<T>)
    requires
        all_of_size(old(ct).mask@, old(ct).body.spec_len()),
        all_of_size(other.mask@, old(ct).body.spec_len()),
        other.body.spec_len() == old(ct).body.spec_len(),
        other.mask@.len() == old(ct).mask@.len(),
    ensures
        final(ct).mask@.len() == old(ct).mask@.len(),
        final(ct).body.spec_len() == old(ct).body.spec_len(),
        all_of_size(final(ct).mask@, old(ct).body.spec_len()),
        difference_rel(*old(ct), *other, *final(ct)),
{
    let count = ct.mask.len();
    let ghost n = old(ct).body.spec_len();
    let ghost m = T::modulus();
    for j in 0..count
        invariant
            ct.mask@.len() == count,
            ct.body == old(ct).body,
            all_of_size(ct.mask@, n),
            forall|c: int| j <= c < count ==> #[trigger] ct.mask@[c] == old(ct).mask@[c],
            forall|c: int, kc: int|
                0 <= c < j && 0 <= kc < n ==> #[trigger] ct.mask_values()[c][kc] == (old(
                    ct,
                ).mask_values()[c][kc] - other.mask_values()[c][kc]) % m,
    {
        let ghost prev = *ct;
        let mut p = ct.mask[j].duplicate();
        p.update_with_wrapping_sub(&other.mask[j]);
        ct.mask.set(j, p);
        proof {
            assert(prev.mask@[j as int] == old(ct).mask@[j as int]);
            assert(old(ct).mask_values()[j as int] == old(ct).mask@[j as int].values());
            assert forall|c: int, kc: int|
                0 <= c < j + 1 && 0 <= kc < n implies #[trigger] ct.mask_values()[c][kc] == (old(
                ct,
            ).mask_values()[c][kc] - other.mask_values()[c][kc]) % m by {
                if c == j {
                    assert(ct.mask@[c] == p);
                    assert(ct.mask_values()[c] == p.values());
                    assert(other.mask_values()[c] == other.mask@[c].values());
                } else {
                    assert(ct.mask@[c] == prev.mask@[c]);
                    assert(ct.mask_values()[c] == prev.mask_values()[c]);
                }
            }
        }
    }
    let ghost pre_body = *ct;
    let mut b = ct.body.duplicate();
    b.update_with_wrapping_sub(&other.body);
    let ghost bsnap = b;
    ct.body = b;
    proof {
        assert(final(ct).body == bsnap);
        assert(final(ct).mask@ == pre_body.mask@);
        assert forall|c: int, kc: int|
            0 <= c <= old(ct).mask@.len() && 0 <= kc < n implies #[trigger] glwe_component(
            *final(ct),
            c,
        )[kc] == (glwe_component(*old(ct), c)[kc] - glwe_component(*other, c)[kc]) % m by {
            if c < old(ct).mask@.len() {
                assert(glwe_component(*final(ct), c) == final(ct).mask_values()[c]);
                assert(final(ct).mask_values()[c] == pre_body.mask_values()[c]);
                assert(glwe_component(*old(ct), c) == old(ct).mask_values()[c]);
                assert(glwe_component(*other, c) == other.mask_values()[c]);
            } else {
                assert(glwe_component(*final(ct), c) == final(ct).body_values());
                assert(final(ct).body_values() == bsnap.values());
                assert(glwe_component(*old(ct), c) == old(ct).body_values());
                assert(glwe_component(*other, c) == other.body_values());
            }
        }
    }
}

/// The rotation exponent the bootstrap uses for a torus value: the value
/// rounded to the nearest multiple of `modulus / 2n`, read as a count of
/// multiples, modulo `2n`.
pub open spec fn switched_degree(x: int, m: int, n2: int) -> int {
    let amp = m / n2;
    ((x + amp / 2) / amp) % n2
}

/// A power of two is `pow2` of some exponent.
proof fn lemma_is_power_of_two_exists(n: nat)
    requires
        is_power_of_two(n),
    ensures
        exists|e: nat| n == pow2(e),
    decreases n,
{
    lemma2_to64();
    if n == 1 {
        assert(n == pow2(0));
    } else {
        lemma_is_power_of_two_exists(n / 2);
        let e = choose|e: nat| n / 2 == pow2(e);
        lemma_pow2_adds(1, e);
        vstd::arithmetic::div_mod::lemma_fundamental_div_mod(n as int, 2);
        assert(n == pow2(e + 1));
    }
}

/// Reduce a torus element to the rotation precision of a size-`n`
/// accumulator: the nearest multiple of `2^width / 2n`, read as a monomial
/// degree below `2n`.  This is the single rounding step of the bootstrap;
/// every other step of the algorithm is exact modular arithmetic.
#[verifier::loop_isolation(false)]
fn modulus_switch<T: TorusElement>(x: T, n: usize, n2: usize) -> (r: usize)
    requires
        n2 == 2 * n,
        0 < n <= usize::MAX / 4,
        is_power_of_two(n as nat),
        2 * n as int <= T::modulus(),
    ensures
        r < n2,
        r as int == switched_degree(x.value(), T::modulus(), n2 as int),
{
    proof {
        T::type_properties();
        lemma2_to64();
        lemma2_to64_rest();
        assert(is_power_of_two(n2 as nat));
        lemma_is_power_of_two_exists(n2 as nat);
    }
    let ghost m = T::modulus();
    let ghost cap: nat = choose|e: nat| n2 as nat == pow2(e);
    let w = T::bits();
    // the exact log2 of n2, found by doubling
    let mut lg: u32 = 0;
    let mut p: usize = 1;
    while p < n2
        invariant
            1 <= p <= n2,
            lg < 64,
            p as nat == pow2(lg as nat),
        decreases 64 - lg,
    {
        proof {
            lemma2_to64();
            lemma2_to64_rest();
            if lg as nat >= cap {
                if lg as nat > cap {
                    lemma_pow2_strictly_increases(cap, lg as nat);
                }
                assert(false);
            }
            lemma_pow2_adds(1, lg as nat);
            if ((lg + 1) as nat) < cap {
                lemma_pow2_strictly_increases((lg + 1) as nat, cap);
            }
            if lg + 1 >= 63 {
                if (lg + 1) as nat > 63 {
                    lemma_pow2_strictly_increases(63, (lg + 1) as nat);
                }
                assert(false);
            }
        }
        p = 2 * p;
        lg = lg + 1;
    }
    proof {
        lemma2_to64();
        lemma2_to64_rest();
        assert(p == n2);
        if lg as nat > T::width() {
            lemma_pow2_strictly_increases(T::width(), lg as nat);
            assert(false);
        }
        if lg == 0 {
            assert(false);
        }
    }
    let val = x.to_u64();
    let ghost amp = m / (n2 as int);
    let ghost xv = x.value();
    if lg >= w {
        // the amplitude is one torus step: no rounding is left to do
        proof {
            lemma_pow2_subtracts(lg as nat, T::width());
            vstd::arithmetic::div_mod::lemma_div_basics(xv);
            lemma_mod_bound(val as int, n2 as int);
        }
        (val % (n2 as u64)) as usize
    } else {
        let shift = w - lg;
        proof {
            lemma_pow2_subtracts(lg as nat, T::width());
            lemma_pow2_strictly_increases((shift - 1) as nat, 64);
            lemma_u64_shl_is_mul(1u64, (shift - 1) as u64);
            lemma_pow2_adds(1, (shift - 1) as nat);
            lemma_pow2_adds(shift as nat, lg as nat);
        }
        let half: u64 = 1u64 << ((shift - 1) as u64);
        let s = val.wrapping_add(half);
        let shifted = s >> (shift as u64);
        proof {
            lemma_u64_shr_is_div(s, shift as u64);
            assert(half as int == amp / 2);
            assert(amp * (n2 as int) == m);
            let q = (xv + half) / amp;
            if xv + half <= u64::MAX {
                assert(shifted as int == q);
            } else {
                // the carry wrapped: only the full-width torus can get here,
                // and its quotient lost exactly n2 multiples
                x.value_range();
                if T::width() == 32 {
                    lemma_pow2_strictly_increases((shift - 1) as nat, 32);
                    assert(false);
                }
                assert(m == 0x1_0000_0000_0000_0000);
                assert(s as int == xv + half - m);
                vstd::arithmetic::div_mod::lemma_fundamental_div_mod(xv + half, amp);
                let rem = (xv + half) % amp;
                assert(s as int == (q - n2) * amp + rem) by (nonlinear_arith)
                    requires
                        s as int == xv + half - m,
                        xv + half == q * amp + rem,
                        m == amp * (n2 as int),
                ;
                vstd::arithmetic::div_mod::lemma_fundamental_div_mod_converse(
                    s as int,
                    amp,
                    q - n2,
                    rem,
                );
                assert(shifted as int == q - n2);
                lemma_mod_multiples_vanish(1, q - n2, n2 as int);
            }
            lemma_mod_bound(shifted as int, n2 as int);
        }
        (shifted % (n2 as u64)) as usize
    }
}

/// The Horner value of one coefficient's digit column, read from the most
/// significant level down: each step scales the running value by the base
/// and adds the next digit.
pub open spec fn horner(digits: Seq<int>, base: int) -> int
    decreases digits.len(),
{
    if digits.len() == 0 {
        0
    } else {
        horner(digits.drop_last(), base) * base + digits.last()
    }
}

/// The digits of coefficient `k`, level by level, of a list of digit
/// polynomials.
pub open spec fn digit_column<T: TorusElement>(ds: Seq<Polynomial<T>>, k: int) -> Seq<int> {
    Seq::new(ds.len(), |l: int| ds[l].values()[k])
}

/// `x` rounded to the nearest multiple of `2^(width - bits)`: the value the
/// decomposition digits stand for.
pub open spec fn closest_representable(x: int, width: nat, bits: nat) -> int {
    let q = pow2((width - bits) as nat) as int;
    ((x + q / 2) / q) * q
}

/// Prepending a new most-significant digit adds it at the full scale of the
/// digits already present.
proof fn lemma_horner_prepend(d: int, s: Seq<int>, base: int)
    ensures
        horner(seq![d] + s, base) == d * pow(base, s.len()) + horner(s, base),
    decreases s.len(),
{
    reveal_with_fuel(horner, 3);
    if s.len() == 0 {
        assert(seq![d] + s =~= seq![d]);
        assert((seq![d]).drop_last() =~= Seq::<int>::empty());
        lemma_pow0(base);
        assert(horner(Seq::<int>::empty(), base) == 0);
        assert(horner(seq![d], base) == horner((seq![d]).drop_last(), base) * base + d);
    } else {
        lemma_horner_prepend(d, s.drop_last(), base);
        assert((seq![d] + s).drop_last() =~= seq![d] + s.drop_last());
        assert((seq![d] + s).last() == s.last());
        lemma_pow1(base);
        lemma_pow_adds(base, 1, (s.len() - 1) as nat);
        assert(pow(base, s.len()) == base * pow(base, (s.len() - 1) as nat));
        assert((d * pow(base, (s.len() - 1) as nat) + horner(s.drop_last(), base)) * base == d * (
        base * pow(base, (s.len() - 1) as nat)) + horner(s.drop_last(), base) * base)
            by (nonlinear_arith);
    }
}

/// Horner values of pointwise congruent digit columns are congruent.
proof fn lemma_horner_congruent(s1: Seq<int>, s2: Seq<int>, base: int, m: int)
    requires
        m > 0,
        s1.len() == s2.len(),
        forall|i: int| 0 <= i < s1.len() ==> #[trigger] s1[i] % m == #[trigger] s2[i] % m,
    ensures
        horner(s1, base) % m == horner(s2, base) % m,
    decreases s1.len(),
{
    if s1.len() > 0 {
        lemma_horner_congruent(s1.drop_last(), s2.drop_last(), base, m);
        let h1 = horner(s1.drop_last(), base);
        let h2 = horner(s2.drop_last(), base);
        vstd::arithmetic::div_mod::lemma_mul_mod_noop_left(h1, base, m);
        vstd::arithmetic::div_mod::lemma_mul_mod_noop_left(h2, base, m);
        vstd::arithmetic::div_mod::lemma_add_mod_noop(h1 * base, s1.last(), m);
        vstd::arithmetic::div_mod::lemma_add_mod_noop(h2 * base, s2.last(), m);
    }
}

/// Rounding to the nearest multiple of `2h`, written as truncation plus the
/// carry bit below the cut.
proof fn lemma_round_to_nearest(x: int, h: int)
    requires
        x >= 0,
        h >= 1,
    ensures
        (x + h) / (2 * h) == x / (2 * h) + (x / h) % 2,
{
    let q = 2 * h;
    vstd::arithmetic::div_mod::lemma_fundamental_div_mod(x, q);
    let a = x / q;
    let r = x % q;
    lemma_mod_bound(x, q);
    vstd::arithmetic::div_mod::lemma_div_pos_is_pos(x, q);
    if r < h {
        assert(x == (2 * a) * h + r) by (nonlinear_arith)
            requires
                x == q * a + r,
                q == 2 * h,
        ;
        vstd::arithmetic::div_mod::lemma_fundamental_div_mod_converse(x, h, 2 * a, r);
        lemma_mod_multiples_vanish(a, 0, 2);
        lemma_small_mod(0, 2);
        assert(x + h == q * a + (r + h));
        vstd::arithmetic::div_mod::lemma_fundamental_div_mod_converse(x + h, q, a, r + h);
    } else {
        assert(x == (2 * a + 1) * h + (r - h)) by (nonlinear_arith)
            requires
                x == q * a + r,
                q == 2 * h,
        ;
        vstd::arithmetic::div_mod::lemma_fundamental_div_mod_converse(x, h, 2 * a + 1, r - h);
        lemma_mod_multiples_vanish(a, 1, 2);
        lemma_small_mod(1, 2);
        assert(x + h == q * (a + 1) + (r - h)) by (nonlinear_arith)
            requires
                x == q * a + r,
                q == 2 * h,
        ;
        vstd::arithmetic::div_mod::lemma_fundamental_div_mod_converse(x + h, q, a + 1, r - h);
    }
}

/// One coefficient's digit column read out of the flat digit buffer: the
/// digit of level `l` sits at extraction step `level - 1 - l`.
spec fn flat_column(fl: Seq<u64>, k: int, level: int) -> Seq<int> {
    Seq::new(level as nat, |l: int| fl[k * level + (level - 1 - l)] as int)
}

/// The balanced digits of one rounded coefficient, extracted least
/// significant level first, as wrapped machine words.  Returns alongside
/// them the signed digit column (most significant first) they stand for,
/// and the carry left above the top level: the words are congruent to the
/// signed digits, and the signed digits recompose to the input less the
/// carry times the full span.
#[verifier::loop_isolation(false)]
#[verifier::rlimit(50)]
fn decompose_coefficient<T: TorusElement>(u0: u64, b: u64, half_b: u64, level: usize) -> (res: (
    Vec<u64>,
    Ghost<Seq<int>>,
    Ghost<int>,
))
    requires
        1 <= level,
        half_b >= 1,
        b == 2 * half_b,
    ensures
        res.0@.len() == level,
        forall|s: int|
            0 <= s < level ==> #[trigger] res.0@[s] < half_b || res.0@[s] > u64::MAX - half_b,
        res.1@.len() == level,
        forall|s: int|
            0 <= s < level ==> (#[trigger] res.0@[s]) as int % T::modulus() == res.1@[level - 1
                - s] % T::modulus(),
        u0 as int == res.2@ * pow(b as int, level as nat) + horner(res.1@, b as int),
{
    proof {
        T::type_properties();
        lemma2_to64();
        lemma2_to64_rest();
    }
    let ghost m = T::modulus();
    let ghost bi = b as int;
    let mut digits: Vec<u64> = Vec::new();
    let mut u = u0;
    let ghost u0i = u0 as int;
    let ghost mut sd: Seq<int> = Seq::empty();
    let ghost mut powb: int = 1;
    proof {
        lemma_pow0(bi);
        assert(horner(Seq::<int>::empty(), bi) == 0);
    }
    let mut t: usize = 0;
    while t < level
        invariant
            t <= level,
            digits@.len() == t,
            forall|s: int|
                0 <= s < t ==> #[trigger] digits@[s] < half_b || digits@[s] > u64::MAX - half_b,
            sd.len() == t,
            powb == pow(bi, t as nat),
            u0i == (u as int) * powb + horner(sd, bi),
            forall|s: int|
                0 <= s < t ==> (#[trigger] digits@[s]) as int % m == sd[t - 1 - s] % m,
        decreases level - t,
    {
        let ghost uo = u as int;
        let raw = u % b;
        let rest = u / b;
        proof {
            vstd::arithmetic::div_mod::lemma_div_is_ordered_by_denominator(u as int, 2, b as int);
            vstd::arithmetic::div_mod::lemma_div_is_ordered(u as int, u64::MAX as int, 2);
            lemma_mod_bound(u as int, b as int);
            vstd::arithmetic::div_mod::lemma_fundamental_div_mod(uo, bi);
        }
        if raw >= half_b {
            u = rest + 1;
            digits.push(raw.wrapping_sub(b));
        } else {
            u = rest;
            digits.push(raw);
        }
        proof {
            let d_signed = if raw >= half_b {
                raw as int - bi
            } else {
                raw as int
            };
            lemma_horner_prepend(d_signed, sd, bi);
            assert((bi * (rest as int) + raw as int) * powb == (rest as int) * (powb * bi) + (
            raw as int) * powb) by (nonlinear_arith);
            assert(((rest as int) + 1) * (powb * bi) + (raw as int - bi) * powb == (bi * (
            rest as int) + raw as int) * powb) by (nonlinear_arith);
            if raw >= half_b {
                // the wrapped stored digit is congruent to the signed one
                lemma_pow2_adds(T::width(), (64 - T::width()) as nat);
                lemma_mod_multiples_vanish(
                    pow2((64 - T::width()) as nat) as int,
                    raw as int - bi,
                    m,
                );
            }
            let sd_prev = sd;
            sd = seq![d_signed] + sd;
            powb = powb * bi;
            lemma_pow1(bi);
            lemma_pow_adds(bi, 1, t as nat);
            assert(pow(bi, (t + 1) as nat) == bi * pow(bi, t as nat));
            assert(u0i == (u as int) * powb + horner(sd, bi));
            assert forall|s: int| 0 <= s < t + 1 implies (#[trigger] digits@[s]) as int % m
                == sd[t + 1 - 1 - s] % m by {
                if s < t {
                    assert(sd[t - s] == sd_prev[t - 1 - s]);
                }
            }
        }
        t = t + 1;
    }
    (digits, Ghost(sd), Ghost(u as int))
}

/// The signed decomposition of every coefficient: `level` polynomials, the
/// one of level `l` holding the balanced base-`2^base_log` digit of weight
/// `2^(width - (l+1)*base_log)` of the coefficient rounded to
/// `level*base_log` bits.  Every digit is balanced: as a signed value its
/// magnitude is at most half the base, so each wrapped coefficient lies
/// within half a base of zero on the torus.  The digits of each coefficient
/// recompose, modulo the torus, to exactly the rounded coefficient.
#[verifier::loop_isolation(false)]
#[verifier::rlimit(100)]
fn decompose_poly<T: TorusElement>(poly: &Polynomial<T>, base_log: usize, level: usize) -> (r: Vec<
    Polynomial<T>,
>)
    requires
        1 <= base_log < 64,
        1 <= level,
        level * base_log <= T::width(),
    ensures
        r@.len() == level,
        all_of_size(r@, poly.spec_len()),
        forall|l: int, k: int|
            0 <= l < level && 0 <= k < poly.spec_len() ==> {
                let d = #[trigger] r@[l].values()[k];
                d < pow2((base_log - 1) as nat) || d >= T::modulus() - pow2((base_log - 1) as nat)
            },
        forall|k: int|
            0 <= k < poly.spec_len() ==> (horner(#[trigger] digit_column(r@, k), pow2(
                base_log as nat,
            ) as int) * pow2((T::width() - level * base_log) as nat)) % T::modulus()
                == closest_representable(
                poly.values()[k],
                T::width(),
                (level * base_log) as nat,
            ) % T::modulus(),
{
    proof {
        T::type_properties();
    }
    let n = poly.polynomial_size().0;
    let w = T::bits() as usize;
    proof {
        vstd::arithmetic::power2::lemma2_to64();
        vstd::arithmetic::power2::lemma2_to64_rest();
        vstd::arithmetic::power2::lemma_pow2_strictly_increases(base_log as nat, 64);
        if base_log > 1 {
            vstd::arithmetic::power2::lemma_pow2_strictly_increases((base_log - 1) as nat, 64);
        }
        vstd::arithmetic::power2::lemma_pow2_pos(base_log as nat);
        vstd::bits::lemma_u64_shl_is_mul(1u64, base_log as u64);
        vstd::bits::lemma_u64_shl_is_mul(1u64, (base_log - 1) as u64);
        lemma_pow2_adds(1, (base_log - 1) as nat);
        if ((base_log - 1) as nat) < T::width() {
            lemma_pow2_strictly_increases((base_log - 1) as nat, T::width());
        }
    }
    let b: u64 = 1u64 << (base_log as u64);
    let half_b: u64 = 1u64 << ((base_log - 1) as u64);
    proof {
        assert(level * base_log >= 1 * base_log) by (nonlinear_arith)
            requires
                level >= 1,
                base_log >= 0,
        ;
    }
    let sh = w - level * base_log;
    let shu: u64 = sh as u64;
    let ghost m = T::modulus();
    let ghost bi = b as int;
    let ghost qi = pow2(sh as nat) as int;
    proof {
        vstd::arithmetic::power2::lemma_pow2_pos(sh as nat);
        if sh >= 1 {
            lemma_pow2_adds(1, (sh - 1) as nat);
        }
        // the gadget scales recompose to the full modulus
        lemma_pow2(base_log as nat);
        lemma_pow2((base_log * level) as nat);
        lemma_pow_multiplies(2, base_log as nat, level as nat);
        lemma_pow2_adds((base_log * level) as nat, sh as nat);
        assert(base_log * level == level * base_log) by (nonlinear_arith);
        assert(pow(bi, level as nat) * qi == m);
    }
    // per coefficient: round, then extract digits from the bottom level up;
    // flat layout: coefficient k, extraction step t at index k * level + t
    proof {
        lemma_mul_basics(level as int);
    }
    let mut flat: Vec<u64> = Vec::new();
    for k in 0..n
        invariant
            flat@.len() == k * level,
            forall|i: int|
                0 <= i < flat@.len() ==> #[trigger] flat@[i] < half_b || flat@[i] > u64::MAX
                    - half_b,
            forall|kk: int|
                0 <= kk < k ==> (horner(#[trigger] flat_column(flat@, kk, level as int), bi) * qi)
                    % m == closest_representable(
                    poly.values()[kk],
                    T::width(),
                    (level * base_log) as nat,
                ) % m,
    {
        proof {
            assert((k + 1) * level == k * level + level) by (nonlinear_arith);
        }
        let ghost flat_before = flat@;
        let x = poly.coef(k).to_u64();
        let ghost xi = poly.values()[k as int];
        let mut u: u64 = if shu == 0 {
            x
        } else {
            proof {
                assert((x >> shu) <= 0x7FFF_FFFF_FFFF_FFFFu64 && ((x >> ((shu - 1) as u64)) & 1) <= 1)
                    by (bit_vector)
                    requires
                        1 <= shu < 64,
                ;
            }
            (x >> shu) + ((x >> (shu - 1)) & 1)
        };
        proof {
            // u holds the coefficient rounded to the nearest multiple of the
            // quantum, as a count of quanta
            poly.coefs@[k as int].value_range();
            if shu == 0 {
                vstd::arithmetic::div_mod::lemma_div_basics(xi);
            } else {
                lemma_u64_shr_is_div(x, shu);
                lemma_u64_shr_is_div(x, (shu - 1) as u64);
                assert(((x >> ((shu - 1) as u64)) & 1) == (x >> ((shu - 1) as u64)) % 2)
                    by (bit_vector);
                lemma_round_to_nearest(xi, pow2((sh - 1) as nat) as int);
            }
            assert(u as int == (xi + qi / 2) / qi);
        }
        let ghost u0i = u as int;
        let (dk, ghost_sd, ghost_carry) = decompose_coefficient::<T>(u, b, half_b, level);
        let ghost sd = ghost_sd@;
        let ghost carry = ghost_carry@;
        // append this coefficient's digit words to the flat buffer
        let mut s_i: usize = 0;
        while s_i < level
            invariant
                s_i <= level,
                flat@.len() == k * level + s_i,
                forall|i: int| 0 <= i < flat_before.len() ==> #[trigger] flat@[i] == flat_before[i],
                forall|ss: int| 0 <= ss < s_i ==> #[trigger] flat@[k * level + ss] == dk@[ss],
            decreases level - s_i,
        {
            flat.push(dk[s_i]);
            s_i = s_i + 1;
        }
        proof {
            // the digits of this coefficient recompose to the rounded value
            let col = flat_column(flat@, k as int, level as int);
            assert(col.len() == sd.len());
            assert forall|l: int| 0 <= l < level implies #[trigger] col[l] % m == sd[l] % m by {
                assert(col[l] == flat@[k * level + (level - 1 - l)] as int);
                assert(flat@[k * level + (level - 1 - l)] == dk@[level - 1 - l]);
                assert((dk@[level - 1 - l]) as int % m == sd[level - 1 - (level - 1 - l)] % m);
            }
            lemma_horner_congruent(col, sd, bi, m);
            vstd::arithmetic::div_mod::lemma_mul_mod_noop_left(horner(col, bi), qi, m);
            vstd::arithmetic::div_mod::lemma_mul_mod_noop_left(horner(sd, bi), qi, m);
            assert(horner(sd, bi) == u0i - carry * pow(bi, level as nat));
            assert((u0i - carry * pow(bi, level as nat)) * qi == u0i * qi - carry * (pow(
                bi,
                level as nat,
            ) * qi)) by (nonlinear_arith);
            assert(pow(bi, level as nat) * qi == m);
            lemma_mod_multiples_vanish(0 - carry, u0i * qi, m);
            assert(carry * (pow(bi, level as nat) * qi) == carry * m);
            assert(m * (0 - carry) + u0i * qi == u0i * qi - carry * m) by (nonlinear_arith);
            assert(horner(sd, bi) * qi == (u0i - carry * pow(bi, level as nat)) * qi);
            assert((horner(sd, bi) * qi) % m == (u0i * qi) % m);
            assert(u0i * qi == closest_representable(xi, T::width(), (level * base_log) as nat));
            // the fresh words sit in the balanced range
            assert forall|i: int|
                0 <= i < flat@.len() implies #[trigger] flat@[i] < half_b || flat@[i] > u64::MAX
                    - half_b by {
                if i >= k * level {
                    let ss = i - k * level;
                    assert(flat@[k * level + ss] == dk@[ss]);
                    assert(dk@[ss] < half_b || dk@[ss] > u64::MAX - half_b);
                }
            }
            // the recompositions of the earlier coefficients are untouched
            assert forall|kk: int| 0 <= kk < k implies flat_column(flat@, kk, level as int)
                =~= flat_column(flat_before, kk, level as int) by {
                assert forall|l: int|
                    0 <= l < level implies #[trigger] flat_column(flat@, kk, level as int)[l]
                        == flat_column(flat_before, kk, level as int)[l] by {
                    assert(kk * level + level <= k * level) by (nonlinear_arith)
                        requires
                            kk + 1 <= k,
                            level >= 0,
                    ;
                    assert(flat@[kk * level + (level - 1 - l)] == flat_before[kk * level + (level
                        - 1 - l)]);
                }
            }
            assert forall|kk: int| 0 <= kk < k + 1 implies (horner(
                #[trigger] flat_column(flat@, kk, level as int),
                bi,
            ) * qi) % m == closest_representable(
                poly.values()[kk],
                T::width(),
                (level * base_log) as nat,
            ) % m by {
                if kk < k {
                    assert(flat_column(flat@, kk, level as int) == flat_column(
                        flat_before,
                        kk,
                        level as int,
                    ));
                    assert((horner(#[trigger] flat_column(flat_before, kk, level as int), bi)
                        * qi) % m == closest_representable(
                        poly.values()[kk],
                        T::width(),
                        (level * base_log) as nat,
                    ) % m);
                } else {
                    assert(col == flat_column(flat@, kk, level as int));
                }
            }
        }
    }
    // transpose: digit polynomial l reads extraction step level - 1 - l
    let flen = flat.len();
    let mut out: Vec<Polynomial<T>> = Vec::new();
    for l in 0..level
        invariant
            out@.len() == l,
            all_of_size(out@, n as nat),
            flat@.len() == n * level,
            forall|t: int, k: int|
                0 <= t < l && 0 <= k < n ==> {
                    let d = #[trigger] out@[t].values()[k];
                    d < half_b || d >= T::modulus() - half_b
                },
            forall|t: int, k: int|
                0 <= t < l && 0 <= k < n ==> (#[trigger] out@[t].values()[k]) == flat@[k * level
                    + (level - 1 - t)] as int % m,
    {
        let mut coefs: Vec<T> = Vec::new();
        for k in 0..n
            invariant
                coefs@.len() == k,
                l < level,
                flat@.len() == n * level,
                forall|j: int|
                    0 <= j < k ==> {
                        let d = (#[trigger] coefs@[j]).value();
                        d < half_b || d >= T::modulus() - half_b
                    },
                forall|j: int|
                    0 <= j < k ==> (#[trigger] coefs@[j]).value() == flat@[j * level + (level - 1
                        - l)] as int % m,
        {
            proof {
                assert(k * level + level <= n * level) by (nonlinear_arith)
                    requires
                        k + 1 <= n,
                        level >= 0,
                ;
                assert(flen == n * level);
            }
            let fv = flat[k * level + (level - 1 - l)];
            proof {
                if fv < half_b {
                    vstd::arithmetic::div_mod::lemma_small_mod(fv as nat, m as nat);
                } else {
                    // the digit went negative and wrapped: it sits within
                    // half a base below the modulus
                    let xneg = 0x1_0000_0000_0000_0000 - fv as int;
                    lemma_pow2_adds(T::width(), (64 - T::width()) as nat);
                    lemma_mod_multiples_vanish(
                        pow2((64 - T::width()) as nat) as int,
                        0 - xneg,
                        m,
                    );
                    crate::torus::lemma_mod_in_signed_range(0 - xneg, m);
                }
            }
            coefs.push(T::from_u64(fv));
        }
        out.push(Polynomial::from_container(coefs));
    }
    proof {
        // chain the per-coefficient recomposition through the transpose
        assert forall|k: int| 0 <= k < poly.spec_len() implies (horner(
            #[trigger] digit_column(out@, k),
            bi,
        ) * qi) % m == closest_representable(
            poly.values()[k],
            T::width(),
            (level * base_log) as nat,
        ) % m by {
            let dcol = digit_column(out@, k);
            let fcol = flat_column(flat@, k, level as int);
            assert(dcol.len() == fcol.len());
            assert forall|l: int| 0 <= l < level implies #[trigger] dcol[l] % m == fcol[l] % m by {
                assert(dcol[l] == out@[l].values()[k]);
                assert(out@[l].values()[k] == flat@[k * level + (level - 1 - l)] as int % m);
                lemma_mod_twice(flat@[k * level + (level - 1 - l)] as int, m);
            }
            lemma_horner_congruent(dcol, fcol, bi, m);
            vstd::arithmetic::div_mod::lemma_mul_mod_noop_left(horner(dcol, bi), qi, m);
            vstd::arithmetic::div_mod::lemma_mul_mod_noop_left(horner(fcol, bi), qi, m);
        }
    }
    out
}

} // verus!
