//! Coefficient-domain polynomials over torus elements, taken modulo
//! `X^N + 1`: schoolbook and Karatsuba multiplication, both proved equal to
//! the convolution formula of the ring, and monic-monomial multiplication
//! and division (rotation with sign flip on wraparound).

use vstd::prelude::*;
use vstd::arithmetic::div_mod::{
    lemma_small_mod, lemma_mod_multiples_vanish, lemma_add_mod_noop, lemma_sub_mod_noop,
    lemma_mul_mod_noop_general, lemma_mod_twice, lemma_mod_bound,
};
use vstd::slice::slice_subrange;
use crate::torus::{
    TorusElement, lemma_mod_in_twice_range, lemma_mod_in_signed_range, lemma_modulus_pos,
};
use crate::params::{PolynomialSize, MonomialDegree};

verus! {

/// The mathematical values of a sequence of torus elements.
pub open spec fn seq_values<T: TorusElement>(s: Seq<T>) -> Seq<int> {
    Seq::new(s.len(), |i: int| s[i].value())
}

/// Coefficient `k` of a sequence, zero outside its range.
pub open spec fn coef_at(s: Seq<int>, k: int) -> int {
    if 0 <= k < s.len() {
        s[k]
    } else {
        0
    }
}

/// Coefficient `k` of the integer convolution (full polynomial product,
/// without modular reduction) of `a` and `b`.
pub open spec fn conv(a: Seq<int>, b: Seq<int>, k: int) -> int
    decreases a.len(),
{
    if a.len() == 0 {
        0
    } else {
        conv(a.drop_last(), b, k) + a.last() * coef_at(b, k - (a.len() - 1))
    }
}

/// A convolution coefficient vanishes outside the degree range of the product.
pub proof fn lemma_conv_out_of_range(a: Seq<int>, b: Seq<int>, k: int)
    requires
        k < 0 || k > a.len() + b.len() - 2,
    ensures
        conv(a, b, k) == 0,
    decreases a.len(),
{
    if a.len() > 0 {
        lemma_conv_out_of_range(a.drop_last(), b, k);
    }
}

/// Splitting the first factor splits the convolution.
pub proof fn lemma_conv_append_left(a: Seq<int>, c: Seq<int>, b: Seq<int>, k: int)
    ensures
        conv(a + c, b, k) == conv(a, b, k) + conv(c, b, k - a.len()),
    decreases c.len(),
{
    if c.len() == 0 {
        assert(a + c =~= a);
    } else {
        lemma_conv_append_left(a, c.drop_last(), b, k);
        assert((a + c).drop_last() =~= a + c.drop_last());
        assert((a + c).last() == c.last());
    }
}

/// Splitting the second factor splits the convolution.
pub proof fn lemma_conv_append_right(a: Seq<int>, b: Seq<int>, d: Seq<int>, k: int)
    ensures
        conv(a, b + d, k) == conv(a, b, k) + conv(a, d, k - b.len()),
    decreases a.len(),
{
    if a.len() > 0 {
        lemma_conv_append_right(a.drop_last(), b, d, k);
        let j = k - (a.len() - 1);
        assert(coef_at(b + d, j) == coef_at(b, j) + coef_at(d, j - b.len()));
        assert(a.last() * (coef_at(b, j) + coef_at(d, j - b.len())) == a.last() * coef_at(b, j)
            + a.last() * coef_at(d, j - b.len())) by (nonlinear_arith);
    }
}

/// The convolution is additive in its first factor.
pub proof fn lemma_conv_add_left(a1: Seq<int>, a2: Seq<int>, a3: Seq<int>, b: Seq<int>, k: int)
    requires
        a1.len() == a3.len(),
        a2.len() == a3.len(),
        forall|i: int| 0 <= i < a3.len() ==> a3[i] == a1[i] + a2[i],
    ensures
        conv(a3, b, k) == conv(a1, b, k) + conv(a2, b, k),
    decreases a3.len(),
{
    if a3.len() > 0 {
        lemma_conv_add_left(a1.drop_last(), a2.drop_last(), a3.drop_last(), b, k);
        let j = k - (a3.len() - 1);
        assert((a1.last() + a2.last()) * coef_at(b, j) == a1.last() * coef_at(b, j) + a2.last()
            * coef_at(b, j)) by (nonlinear_arith);
    }
}

/// The convolution is additive in its second factor.
pub proof fn lemma_conv_add_right(a: Seq<int>, b1: Seq<int>, b2: Seq<int>, b3: Seq<int>, k: int)
    requires
        b1.len() == b3.len(),
        b2.len() == b3.len(),
        forall|j: int| 0 <= j < b3.len() ==> b3[j] == b1[j] + b2[j],
    ensures
        conv(a, b3, k) == conv(a, b1, k) + conv(a, b2, k),
    decreases a.len(),
{
    if a.len() > 0 {
        lemma_conv_add_right(a.drop_last(), b1, b2, b3, k);
        let j = k - (a.len() - 1);
        assert(coef_at(b3, j) == coef_at(b1, j) + coef_at(b2, j));
        assert(a.last() * (coef_at(b1, j) + coef_at(b2, j)) == a.last() * coef_at(b1, j)
            + a.last() * coef_at(b2, j)) by (nonlinear_arith);
    }
}

/// Two pairs of factors congruent modulo `m` have congruent convolutions.
pub proof fn lemma_conv_congruent(
    a1: Seq<int>,
    a2: Seq<int>,
    b1: Seq<int>,
    b2: Seq<int>,
    m: int,
    k: int,
)
    requires
        m > 0,
        a1.len() == a2.len(),
        b1.len() == b2.len(),
        forall|i: int| 0 <= i < a1.len() ==> #[trigger] a1[i] % m == #[trigger] a2[i] % m,
        forall|j: int| 0 <= j < b1.len() ==> #[trigger] b1[j] % m == #[trigger] b2[j] % m,
    ensures
        conv(a1, b1, k) % m == conv(a2, b2, k) % m,
    decreases a1.len(),
{
    if a1.len() > 0 {
        lemma_conv_congruent(a1.drop_last(), a2.drop_last(), b1, b2, m, k);
        let j = k - (a1.len() - 1);
        let c1 = coef_at(b1, j);
        let c2 = coef_at(b2, j);
        assert(c1 % m == c2 % m) by {
            if !(0 <= j < b1.len()) {
            }
        }
        lemma_mul_mod_noop_general(a1.last(), c1, m);
        lemma_mul_mod_noop_general(a2.last(), c2, m);
        assert((a1.last() * c1) % m == (a2.last() * c2) % m);
        lemma_add_mod_noop(conv(a1.drop_last(), b1, k), a1.last() * c1, m);
        lemma_add_mod_noop(conv(a2.drop_last(), b2, k), a2.last() * c2, m);
    }
}

/// The convolution with a factor that is zero above its constant term is
/// just that constant times the matching coefficient of the other factor.
pub proof fn lemma_conv_single(a: Seq<int>, b: Seq<int>, k: int)
    requires
        a.len() > 0,
        forall|i: int| 1 <= i < a.len() ==> a[i] == 0,
    ensures
        conv(a, b, k) == a[0] * coef_at(b, k),
    decreases a.len(),
{
    if a.len() == 1 {
        assert(a.drop_last() =~= Seq::<int>::empty());
        assert(conv(Seq::<int>::empty(), b, k) == 0);
        assert(conv(a, b, k) == conv(a.drop_last(), b, k) + a.last() * coef_at(b, k - (a.len()
            - 1)));
    } else {
        lemma_conv_single(a.drop_last(), b, k);
        assert(a.last() == 0);
        assert(0 * coef_at(b, k - (a.len() - 1)) == 0);
        assert(a.drop_last()[0] == a[0]);
    }
}

/// The ring product with a factor that is zero above its constant term:
/// coefficient `k` (below the size) is the constant times coefficient `k`
/// of the other factor.
pub proof fn lemma_poly_mul_single(a: Seq<int>, b: Seq<int>, k: int)
    requires
        a.len() == b.len(),
        a.len() > 0,
        forall|i: int| 1 <= i < a.len() ==> a[i] == 0,
        0 <= k < a.len(),
    ensures
        poly_mul_coef(a, b, k) == a[0] * b[k],
{
    lemma_conv_single(a, b, k);
    lemma_conv_single(a, b, k + a.len());
    assert(coef_at(b, k + a.len()) == 0);
    assert(a[0] * 0 == 0);
}

/// The ring product is additive in its first factor, coefficient by
/// coefficient.
pub proof fn lemma_poly_mul_add_left(a1: Seq<int>, a2: Seq<int>, a3: Seq<int>, b: Seq<int>, k: int)
    requires
        a1.len() == a3.len(),
        a2.len() == a3.len(),
        forall|i: int| 0 <= i < a3.len() ==> a3[i] == a1[i] + a2[i],
    ensures
        poly_mul_coef(a3, b, k) == poly_mul_coef(a1, b, k) + poly_mul_coef(a2, b, k),
{
    lemma_conv_add_left(a1, a2, a3, b, k);
    lemma_conv_add_left(a1, a2, a3, b, k + a3.len());
}

/// Pointwise congruent first factors give congruent ring-product
/// coefficients.
pub proof fn lemma_poly_mul_congruent_left(a1: Seq<int>, a2: Seq<int>, b: Seq<int>, k: int, m: int)
    requires
        m > 0,
        a1.len() == a2.len(),
        forall|i: int| 0 <= i < a1.len() ==> #[trigger] a1[i] % m == #[trigger] a2[i] % m,
    ensures
        poly_mul_coef(a1, b, k) % m == poly_mul_coef(a2, b, k) % m,
{
    lemma_conv_congruent(a1, a2, b, b, m, k);
    lemma_conv_congruent(a1, a2, b, b, m, k + a1.len());
    lemma_sub_mod_noop(conv(a1, b, k), conv(a1, b, k + a1.len()), m);
    lemma_sub_mod_noop(conv(a2, b, k), conv(a2, b, k + a2.len()), m);
}

/// Coefficient `k` of the product of `a` and `b` modulo `X^N + 1` (with
/// `N == a.len()`), before reduction modulo `m`: the convolution coefficient
/// with wraparound negation for degrees at and above `N`.
pub open spec fn poly_mul_coef(a: Seq<int>, b: Seq<int>, k: int) -> int {
    conv(a, b, k) - conv(a, b, k + a.len())
}

/// The product of `a` and `b` in the ring of polynomials modulo `X^N + 1`
/// with coefficients modulo `m`.
pub open spec fn poly_mul_seq(a: Seq<int>, b: Seq<int>, m: int) -> Seq<int> {
    Seq::new(a.len(), |k: int| poly_mul_coef(a, b, k) % m)
}

/// Coefficient `k` of `s` multiplied by the monic monomial `X^r`, modulo
/// `X^N + 1`: exponents live modulo `2N`, and a source coefficient crossing
/// the wraparound is negated modulo `m`.
pub open spec fn monomial_mul_coef(s: Seq<int>, m: int, r: int, k: int) -> int {
    let n = s.len() as int;
    let u = (k - r) % (2 * n);
    if u < n {
        s[u]
    } else {
        (0 - s[u - n]) % m
    }
}

/// `s` multiplied by the monic monomial `X^r` modulo `X^N + 1`.
pub open spec fn monomial_mul_seq(s: Seq<int>, m: int, r: int) -> Seq<int> {
    Seq::new(s.len(), |k: int| monomial_mul_coef(s, m, r, k))
}

/// The rotation only depends on `r` modulo `2N`.
pub proof fn lemma_monomial_mul_mod_degree(s: Seq<int>, m: int, r1: int, r2: int)
    requires
        s.len() > 0,
        r1 % (2 * s.len() as int) == r2 % (2 * s.len() as int),
    ensures
        monomial_mul_seq(s, m, r1) == monomial_mul_seq(s, m, r2),
{
    let n = s.len() as int;
    assert forall|k: int| 0 <= k < n implies monomial_mul_coef(s, m, r1, k) == monomial_mul_coef(
        s,
        m,
        r2,
        k,
    ) by {
        lemma_sub_mod_noop(k, r1, 2 * n);
        lemma_sub_mod_noop(k, r2, 2 * n);
        lemma_mod_twice(k - r1, 2 * n);
        lemma_mod_twice(k - r2, 2 * n);
    }
    assert(monomial_mul_seq(s, m, r1) =~= monomial_mul_seq(s, m, r2));
}

/// Multiplying by `X^r` and then by `X^-r` gives the original polynomial
/// back, for every rotation amount `r`, positive or negative, reduced or not.
pub proof fn lemma_monomial_round_trip(s: Seq<int>, m: int, r: int)
    requires
        m > 1,
        s.len() > 0,
        forall|i: int| 0 <= i < s.len() ==> 0 <= #[trigger] s[i] < m,
    ensures
        monomial_mul_seq(monomial_mul_seq(s, m, r), m, -r) == s,
{
    let n = s.len() as int;
    let t = 2 * n;
    let mid = monomial_mul_seq(s, m, r);
    assert forall|k: int| 0 <= k < n implies monomial_mul_coef(mid, m, -r, k) == s[k] by {
        let u1 = (k + r) % t;
        lemma_mod_bound(k + r, t);
        // the coefficient read from `mid` composes the two index maps
        if u1 < n {
            // mid[u1] with u1 = (k + r) % t; its own source index is k itself
            let u2 = (u1 - r) % t;
            assert(u2 == k) by {
                lemma_sub_mod_noop((k + r) % t, r, t);
                lemma_mod_twice(k + r, t);
                lemma_sub_mod_noop(k + r, r, t);
                lemma_small_mod(k as nat, t as nat);
            }
            assert(monomial_mul_coef(mid, m, -r, k) == mid[u1]);
            assert(mid[u1] == monomial_mul_coef(s, m, r, u1));
        } else {
            // the read crosses the wraparound: two negations cancel modulo m
            let u2 = (u1 - n - r) % t;
            assert(u2 == k + n) by {
                lemma_sub_mod_noop((k + r) % t, n + r, t);
                lemma_mod_twice(k + r, t);
                lemma_sub_mod_noop(k + r, n + r, t);
                lemma_mod_in_signed_range(k - n, t);
            }
            assert(monomial_mul_coef(mid, m, -r, k) == (0 - mid[u1 - n]) % m);
            assert(mid[u1 - n] == monomial_mul_coef(s, m, r, u1 - n));
            assert(monomial_mul_coef(s, m, r, u1 - n) == (0 - s[k]) % m);
            // (0 - ((0 - x) % m)) % m == x for 0 <= x < m
            lemma_mod_in_signed_range(0 - s[k], m);
            if s[k] == 0 {
                lemma_small_mod(0, m as nat);
            } else {
                lemma_mod_in_signed_range(0 - (m - s[k]), m);
            }
        }
    }
    assert(monomial_mul_seq(mid, m, -r) =~= s);
}

/// Whether `n` is a power of two.
pub open spec fn is_power_of_two(n: nat) -> bool
    decreases n,
{
    if n == 0 {
        false
    } else if n == 1 {
        true
    } else {
        n % 2 == 0 && is_power_of_two(n / 2)
    }
}

/// Below this size the Karatsuba recursion switches to the schoolbook
/// convolution.
pub const KARATSUBA_STOP: usize = 32;

/// The full (size `2n`) convolution of two coefficient slices, computed by
/// the schoolbook double loop.
#[verifier::loop_isolation(false)]
fn full_conv_schoolbook<T: TorusElement>(a: &[T], b: &[T]) -> (r: Vec<T>)
    requires
        a@.len() > 0,
        a@.len() + b@.len() <= usize::MAX,
    ensures
        r@.len() == a@.len() + b@.len(),
        forall|k: int|
            0 <= k < r@.len() ==> (#[trigger] r@[k]).value() == conv(
                seq_values(a@),
                seq_values(b@),
                k,
            ) % T::modulus(),
{
    let ghost av = seq_values(a@);
    let ghost bv = seq_values(b@);
    let ghost m = T::modulus();
    proof {
        lemma_modulus_pos::<T>();
    }
    let alen = a.len();
    let blen = b.len();
    let mut out: Vec<T> = Vec::new();
    for k in 0..alen + blen
        invariant
            out@.len() == k,
            forall|j: int| 0 <= j < k ==> (#[trigger] out@[j]).value() == conv(av, bv, j) % m,
    {
        let mut acc = T::zero();
        proof {
            assert(av.subrange(0, 0) =~= Seq::<int>::empty());
            lemma_small_mod(0, m as nat);
        }
        for i in 0..alen
            invariant
                acc.value() == conv(av.subrange(0, i as int), bv, k as int) % m,
        {
            proof {
                let pre = av.subrange(0, i as int);
                let post = av.subrange(0, i + 1 as int);
                assert(post.drop_last() =~= pre);
                assert(post.last() == av[i as int]);
            }
            if i <= k && k - i < blen {
                let prod = a[i].wmul(b[k - i]);
                proof {
                    let pre = av.subrange(0, i as int);
                    lemma_add_mod_noop(
                        conv(pre, bv, k as int),
                        av[i as int] * coef_at(bv, k - i),
                        m,
                    );
                }
                acc = acc.wadd(prod);
            } else {
                proof {
                    assert(coef_at(bv, k - i) == 0);
                }
            }
        }
        proof {
            assert(av.subrange(0, alen as int) =~= av);
        }
        out.push(acc);
    }
    out
}

/// The coefficient-wise wrapping sum of two equal-length slices.
#[verifier::loop_isolation(false)]
fn add_slices<T: TorusElement>(a: &[T], b: &[T]) -> (r: Vec<T>)
    requires
        a@.len() == b@.len(),
    ensures
        r@.len() == a@.len(),
        forall|i: int|
            0 <= i < a@.len() ==> (#[trigger] r@[i]).value() == (seq_values(a@)[i] + seq_values(
                b@,
            )[i]) % T::modulus(),
{
    let mut out: Vec<T> = Vec::new();
    let n = a.len();
    for i in 0..n
        invariant
            out@.len() == i,
            forall|j: int|
                0 <= j < i ==> (#[trigger] out@[j]).value() == (seq_values(a@)[j] + seq_values(
                    b@,
                )[j]) % T::modulus(),
    {
        out.push(a[i].wadd(b[i]));
    }
    out
}

/// The full (size `2n`) convolution of two equal power-of-two-size slices,
/// computed by the Karatsuba recursion: three half-size products recombined,
/// switching to the schoolbook convolution below the threshold.
#[verifier::loop_isolation(false)]
fn karatsuba_full<T: TorusElement>(a: &[T], b: &[T]) -> (r: Vec<T>)
    requires
        a@.len() == b@.len(),
        is_power_of_two(a@.len()),
        a@.len() <= usize::MAX / 2,
    ensures
        r@.len() == 2 * a@.len(),
        forall|k: int|
            0 <= k < r@.len() ==> (#[trigger] r@[k]).value() == conv(
                seq_values(a@),
                seq_values(b@),
                k,
            ) % T::modulus(),
    decreases a@.len(),
{
    let n = a.len();
    if n <= KARATSUBA_STOP {
        full_conv_schoolbook(a, b)
    } else {
        let h = n / 2;
        let a_lo = slice_subrange(a, 0, h);
        let a_hi = slice_subrange(a, h, n);
        let b_lo = slice_subrange(b, 0, h);
        let b_hi = slice_subrange(b, h, n);
        let r0 = karatsuba_full(a_lo, b_lo);
        let r1 = karatsuba_full(a_hi, b_hi);
        let sa = add_slices(a_lo, a_hi);
        let sb = add_slices(b_lo, b_hi);
        let r2 = karatsuba_full(sa.as_slice(), sb.as_slice());
        let ghost av = seq_values(a@);
        let ghost bv = seq_values(b@);
        let ghost m = T::modulus();
        let ghost la = seq_values(a_lo@);
        let ghost ha = seq_values(a_hi@);
        let ghost lb = seq_values(b_lo@);
        let ghost hb = seq_values(b_hi@);
        let ghost ta = Seq::new(h as nat, |i: int| la[i] + ha[i]);
        let ghost tb = Seq::new(h as nat, |i: int| lb[i] + hb[i]);
        let ghost sav = seq_values(sa@);
        let ghost sbv = seq_values(sb@);
        proof {
            lemma_modulus_pos::<T>();
            assert(av =~= la + ha);
            assert(bv =~= lb + hb);
            assert forall|i: int| 0 <= i < h implies #[trigger] sav[i] % m == #[trigger] ta[i]
                % m by {
                lemma_mod_twice(ta[i], m);
            }
            assert forall|i: int| 0 <= i < h implies #[trigger] sbv[i] % m == #[trigger] tb[i]
                % m by {
                lemma_mod_twice(tb[i], m);
            }
        }
        let mut out: Vec<T> = Vec::new();
        for k in 0..2 * n
            invariant
                out@.len() == k,
                forall|j: int| 0 <= j < k ==> (#[trigger] out@[j]).value() == conv(av, bv, j) % m,
        {
            let ghost ki = k as int;
            let ghost hi = h as int;
            let ghost ni = n as int;
            let t0 = if k < n {
                r0[k]
            } else {
                T::zero()
            };
            let t1 = if k >= n {
                r1[k - n]
            } else {
                T::zero()
            };
            let in_mid = h <= k && k < h + n;
            let t2 = if in_mid {
                r2[k - h]
            } else {
                T::zero()
            };
            let t3 = if in_mid {
                r0[k - h]
            } else {
                T::zero()
            };
            let t4 = if in_mid {
                r1[k - h]
            } else {
                T::zero()
            };
            let val = t0.wadd(t1).wadd(t2).wsub(t3).wsub(t4);
            proof {
                lemma_small_mod(0, m as nat);
                // the four quadrant convolutions that make up the product
                lemma_conv_append_left(la, ha, bv, ki);
                lemma_conv_append_right(la, lb, hb, ki);
                lemma_conv_append_right(ha, lb, hb, ki - hi);
                let c_ll = conv(la, lb, ki);
                let c_hh = conv(ha, hb, ki - ni);
                let c_lhm = conv(la, hb, ki - hi);
                let c_hlm = conv(ha, lb, ki - hi);
                assert(conv(av, bv, ki) == c_ll + c_lhm + c_hlm + c_hh);
                // the middle product of sums decomposes over the quadrants
                lemma_conv_add_left(la, ha, ta, tb, ki - hi);
                lemma_conv_add_right(la, lb, hb, tb, ki - hi);
                lemma_conv_add_right(ha, lb, hb, tb, ki - hi);
                lemma_conv_congruent(sav, ta, sbv, tb, m, ki - hi);
                let s_mid = conv(sav, sbv, ki - hi);
                let c_llm = conv(la, lb, ki - hi);
                let c_hhm = conv(ha, hb, ki - hi);
                assert(s_mid % m == (c_llm + c_lhm + c_hlm + c_hhm) % m);
                // each operand carries one of the five terms, zero out of range
                if k >= n {
                    lemma_conv_out_of_range(la, lb, ki);
                }
                if k < n {
                    lemma_conv_out_of_range(ha, hb, ki - ni);
                }
                if !in_mid {
                    lemma_conv_out_of_range(sav, sbv, ki - hi);
                    lemma_conv_out_of_range(la, lb, ki - hi);
                    lemma_conv_out_of_range(ha, hb, ki - hi);
                }
                assert(t0.value() == c_ll % m);
                assert(t1.value() == c_hh % m);
                assert(t2.value() == s_mid % m);
                assert(t3.value() == c_llm % m);
                assert(t4.value() == c_hhm % m);
                // fold the wrapping chain back into one reduction
                lemma_add_mod_noop(c_ll, c_hh, m);
                lemma_add_mod_noop(c_ll + c_hh, s_mid, m);
                lemma_sub_mod_noop(c_ll + c_hh + s_mid, c_llm, m);
                lemma_sub_mod_noop(c_ll + c_hh + s_mid - c_llm, c_hhm, m);
                assert(val.value() == (c_ll + c_hh + s_mid - c_llm - c_hhm) % m);
                // replace the middle product by its quadrant decomposition
                let x = c_ll + c_hh - c_llm - c_hhm;
                lemma_add_mod_noop(x, s_mid, m);
                lemma_add_mod_noop(x, c_llm + c_lhm + c_hlm + c_hhm, m);
                assert(val.value() == conv(av, bv, ki) % m);
            }
            out.push(val);
        }
        out
    }
}

/// The other composition order: dividing by `X^r` and then multiplying by
/// `X^r` also gives the original polynomial back, for every rotation amount.
pub proof fn lemma_monomial_round_trip_div_first(s: Seq<int>, m: int, r: int)
    requires
        m > 1,
        s.len() > 0,
        forall|i: int| 0 <= i < s.len() ==> 0 <= #[trigger] s[i] < m,
    ensures
        monomial_mul_seq(monomial_mul_seq(s, m, -r), m, r) == s,
{
    lemma_monomial_round_trip(s, m, -r);
}

/// An ordered sequence of `N` torus elements, the coefficients of a
/// polynomial taken modulo `X^N + 1`.  Owns its coefficient buffer.
#[derive(Clone)]
pub struct Polynomial<T: TorusElement> {
    pub coefs: Vec<T>,
}

impl<T: TorusElement> Polynomial<T> {
    /// The mathematical coefficient values, each in `[0, modulus)`.
    pub open spec fn values(&self) -> Seq<int> {
        seq_values(self.coefs@)
    }

    /// Number of coefficients.
    pub open spec fn spec_len(&self) -> nat {
        self.coefs@.len()
    }

    /// A polynomial of `size` coefficients, all equal to `value`.
    pub fn allocate(value: T, size: PolynomialSize) -> (r: Self)
        ensures
            r.spec_len() == size.0,
            forall|i: int| 0 <= i < size.0 ==> #[trigger] r.values()[i] == value.value(),
    {
        let mut coefs: Vec<T> = Vec::new();
        for i in 0..size.0
            invariant
                coefs@.len() == i,
                forall|j: int| 0 <= j < i ==> #[trigger] coefs@[j] == value,
        {
            coefs.push(value);
        }
        Polynomial { coefs }
    }

    /// A polynomial owning the given coefficient buffer.
    pub fn from_container(coefs: Vec<T>) -> (r: Self)
        ensures
            r.values() == seq_values(coefs@),
            r.spec_len() == coefs@.len(),
    {
        Polynomial { coefs }
    }

    /// The coefficient buffer, surrendered.
    pub fn into_container(self) -> (r: Vec<T>)
        ensures
            seq_values(r@) == self.values(),
            r@.len() == self.spec_len(),
    {
        self.coefs
    }

    /// Number of coefficients.
    pub fn polynomial_size(&self) -> (r: PolynomialSize)
        ensures
            r.0 == self.spec_len(),
    {
        PolynomialSize(self.coefs.len())
    }

    /// An element-for-element copy.
    #[verifier::loop_isolation(false)]
    pub fn duplicate(&self) -> (r: Self)
        ensures
            r.spec_len() == self.spec_len(),
            r.values() == self.values(),
    {
        let mut coefs: Vec<T> = Vec::new();
        let n = self.coefs.len();
        for i in 0..n
            invariant
                coefs@ =~= self.coefs@.subrange(0, i as int),
        {
            coefs.push(self.coefs[i]);
            proof {
                assert(coefs@ =~= self.coefs@.subrange(0, i + 1 as int));
            }
        }
        proof {
            assert(self.coefs@.subrange(0, n as int) =~= self.coefs@);
        }
        Polynomial { coefs }
    }

    /// Coefficient `i`.
    pub fn coef(&self, i: usize) -> (r: T)
        requires
            i < self.spec_len(),
        ensures
            r.value() == self.values()[i as int],
    {
        self.coefs[i]
    }

    /// Overwrite coefficient `i`.
    pub fn set_coef(&mut self, i: usize, x: T)
        requires
            i < old(self).spec_len(),
        ensures
            final(self).spec_len() == old(self).spec_len(),
            final(self).values() == old(self).values().update(i as int, x.value()),
    {
        self.coefs.set(i, x);
        proof {
            assert(final(self).values() =~= old(self).values().update(i as int, x.value()));
        }
    }

    /// Add `other` coefficient-wise, wrapping.
    pub fn update_with_wrapping_add(&mut self, other: &Polynomial<T>)
        requires
            old(self).spec_len() == other.spec_len(),
        ensures
            final(self).spec_len() == old(self).spec_len(),
            forall|k: int|
                0 <= k < old(self).spec_len() ==> #[trigger] final(self).values()[k] == (old(
                    self,
                ).values()[k] + other.values()[k]) % T::modulus(),
    {
        let n = self.coefs.len();
        for k in 0..n
            invariant
                n == old(self).spec_len(),
                n == other.spec_len(),
                self.coefs@.len() == n,
                forall|j: int|
                    k <= j < n ==> #[trigger] self.coefs@[j] == old(self).coefs@[j],
                forall|j: int|
                    0 <= j < k ==> (#[trigger] self.coefs@[j]).value() == (old(
                        self,
                    ).values()[j] + other.values()[j]) % T::modulus(),
        {
            let x = self.coefs[k].wadd(other.coefs[k]);
            self.coefs.set(k, x);
        }
    }

    /// Subtract `other` coefficient-wise, wrapping.
    pub fn update_with_wrapping_sub(&mut self, other: &Polynomial<T>)
        requires
            old(self).spec_len() == other.spec_len(),
        ensures
            final(self).spec_len() == old(self).spec_len(),
            forall|k: int|
                0 <= k < old(self).spec_len() ==> #[trigger] final(self).values()[k] == (old(
                    self,
                ).values()[k] - other.values()[k]) % T::modulus(),
    {
        let n = self.coefs.len();
        for k in 0..n
            invariant
                n == old(self).spec_len(),
                n == other.spec_len(),
                self.coefs@.len() == n,
                forall|j: int|
                    k <= j < n ==> #[trigger] self.coefs@[j] == old(self).coefs@[j],
                forall|j: int|
                    0 <= j < k ==> (#[trigger] self.coefs@[j]).value() == (old(
                        self,
                    ).values()[j] - other.values()[j]) % T::modulus(),
        {
            let x = self.coefs[k].wsub(other.coefs[k]);
            self.coefs.set(k, x);
        }
    }

    /// Rotate by `rr` exponent steps, `rr` already reduced modulo `2N`.
    fn rotate_raw(&mut self, rr: usize)
        requires
            old(self).spec_len() > 0,
            old(self).spec_len() <= usize::MAX / 4,
            rr < 2 * old(self).spec_len(),
        ensures
            final(self).spec_len() == old(self).spec_len(),
            final(self).values() == monomial_mul_seq(old(self).values(), T::modulus(), rr as int),
    {
        let n = self.coefs.len();
        let t = 2 * n;
        let mut fresh: Vec<T> = Vec::new();
        let ghost sv = old(self).values();
        let ghost m = T::modulus();
        for k in 0..n
            invariant
                n == old(self).spec_len(),
                0 < n <= usize::MAX / 4,
                t == 2 * n,
                rr < t,
                self.coefs@ == old(self).coefs@,
                sv == old(self).values(),
                m == T::modulus(),
                fresh@.len() == k,
                forall|j: int|
                    0 <= j < k ==> (#[trigger] fresh@[j]).value() == monomial_mul_coef(
                        sv,
                        m,
                        rr as int,
                        j,
                    ),
        {
            let u = (k + t - rr) % t;
            proof {
                T::type_properties();
                lemma_mod_in_twice_range((k + t - rr) as int, t as int);
                lemma_mod_multiples_vanish(1, k - rr, t as int);
                assert(u as int == (k - rr) % (t as int));
            }
            if u < n {
                fresh.push(self.coefs[u]);
            } else {
                fresh.push(self.coefs[u - n].wneg());
            }
            proof {
                assert((fresh@[k as int]).value() == monomial_mul_coef(sv, m, rr as int, k as int));
            }
        }
        self.coefs = fresh;
        proof {
            assert(final(self).values() =~= monomial_mul_seq(sv, m, rr as int));
        }
    }

    /// Multiply in place by the monic monomial `X^degree`, modulo `X^N + 1`.
    /// Any degree is accepted; it acts modulo `2N`, with a sign flip for the
    /// coefficients that cross the wraparound.
    pub fn update_with_monic_monomial_mul(&mut self, degree: MonomialDegree)
        requires
            old(self).spec_len() > 0,
            old(self).spec_len() <= usize::MAX / 4,
        ensures
            final(self).spec_len() == old(self).spec_len(),
            final(self).values() == monomial_mul_seq(
                old(self).values(),
                T::modulus(),
                degree.0 as int,
            ),
    {
        let n = self.coefs.len();
        let t = 2 * n;
        let rr = degree.0 % t;
        proof {
            lemma_mod_bound(degree.0 as int, t as int);
            lemma_mod_twice(degree.0 as int, t as int);
            lemma_monomial_mul_mod_degree(
                old(self).values(),
                T::modulus(),
                rr as int,
                degree.0 as int,
            );
        }
        self.rotate_raw(rr);
    }

    /// Divide in place by the monic monomial `X^degree`: the exact inverse of
    /// multiplication by the same degree.
    pub fn update_with_monic_monomial_div(&mut self, degree: MonomialDegree)
        requires
            old(self).spec_len() > 0,
            old(self).spec_len() <= usize::MAX / 4,
        ensures
            final(self).spec_len() == old(self).spec_len(),
            final(self).values() == monomial_mul_seq(
                old(self).values(),
                T::modulus(),
                -(degree.0 as int),
            ),
    {
        let n = self.coefs.len();
        let t = 2 * n;
        let rr = (t - degree.0 % t) % t;
        proof {
            let r = degree.0 as int;
            let ti = t as int;
            lemma_mod_bound(r, ti);
            // rr == (-r) % t
            lemma_mod_multiples_vanish(1, 0 - (r % ti), ti);
            lemma_small_mod(0, ti as nat);
            lemma_mod_twice(r, ti);
            lemma_sub_mod_noop(0, r, ti);
            lemma_mod_bound(0 - r, ti);
            lemma_mod_twice(0 - r, ti);
            assert(rr as int == (0 - r) % ti);
            assert(old(self).values().len() == old(self).spec_len());
            lemma_monomial_mul_mod_degree(old(self).values(), T::modulus(), rr as int, 0 - r);
        }
        self.rotate_raw(rr);
    }

    /// Replace the coefficients by the reduction of a full `2N` convolution
    /// modulo `X^N + 1`: coefficient `k` minus coefficient `k + N`.
    #[verifier::loop_isolation(false)]
    fn fill_with_negacyclic_reduction(&mut self, full: &Vec<T>)
        requires
            full@.len() == 2 * old(self).spec_len(),
            old(self).spec_len() > 0,
            old(self).spec_len() <= usize::MAX / 2,
        ensures
            final(self).spec_len() == old(self).spec_len(),
            forall|k: int|
                0 <= k < old(self).spec_len() ==> #[trigger] final(self).values()[k] == (seq_values(
                    full@,
                )[k] - seq_values(full@)[k + old(self).spec_len()]) % T::modulus(),
    {
        let n = self.coefs.len();
        let mut fresh: Vec<T> = Vec::new();
        for k in 0..n
            invariant
                fresh@.len() == k,
                forall|j: int|
                    0 <= j < k ==> (#[trigger] fresh@[j]).value() == (seq_values(full@)[j]
                        - seq_values(full@)[j + n]) % T::modulus(),
        {
            fresh.push(full[k].wsub(full[k + n]));
        }
        self.coefs = fresh;
    }

    /// Fill with the product of `a` and `b` modulo `X^N + 1`, computed by the
    /// schoolbook algorithm: the standard convolution formula, with
    /// wraparound negation for degrees at and above `N`.
    pub fn fill_with_mul_schoolbook(&mut self, a: &Polynomial<T>, b: &Polynomial<T>)
        requires
            old(self).spec_len() == a.spec_len(),
            a.spec_len() == b.spec_len(),
            a.spec_len() > 0,
            a.spec_len() <= usize::MAX / 2,
        ensures
            final(self).spec_len() == old(self).spec_len(),
            final(self).values() == poly_mul_seq(a.values(), b.values(), T::modulus()),
    {
        let full = full_conv_schoolbook(a.coefs.as_slice(), b.coefs.as_slice());
        self.fill_with_negacyclic_reduction(&full);
        proof {
            lemma_modulus_pos::<T>();
            let m = T::modulus();
            let av = a.values();
            let bv = b.values();
            let n = a.spec_len() as int;
            assert forall|k: int| 0 <= k < n implies #[trigger] final(self).values()[k]
                == poly_mul_coef(av, bv, k) % m by {
                lemma_sub_mod_noop(conv(av, bv, k), conv(av, bv, k + n), m);
            }
            assert(final(self).values() =~= poly_mul_seq(av, bv, m));
        }
    }

    /// Fill with the product of `a` and `b` modulo `X^N + 1`, computed by the
    /// Karatsuba algorithm: it returns exactly what the schoolbook algorithm
    /// returns, for every power-of-two size.
    pub fn fill_with_mul_karatsuba(&mut self, a: &Polynomial<T>, b: &Polynomial<T>)
        requires
            old(self).spec_len() == a.spec_len(),
            a.spec_len() == b.spec_len(),
            is_power_of_two(a.spec_len()),
            a.spec_len() <= usize::MAX / 2,
        ensures
            final(self).spec_len() == old(self).spec_len(),
            final(self).values() == poly_mul_seq(a.values(), b.values(), T::modulus()),
    {
        let full = karatsuba_full(a.coefs.as_slice(), b.coefs.as_slice());
        self.fill_with_negacyclic_reduction(&full);
        proof {
            lemma_modulus_pos::<T>();
            let m = T::modulus();
            let av = a.values();
            let bv = b.values();
            let n = a.spec_len() as int;
            assert forall|k: int| 0 <= k < n implies #[trigger] final(self).values()[k]
                == poly_mul_coef(av, bv, k) % m by {
                lemma_sub_mod_noop(conv(av, bv, k), conv(av, bv, k + n), m);
            }
            assert(final(self).values() =~= poly_mul_seq(av, bv, m));
        }
    }
}

/// Schoolbook and Karatsuba multiplication agree exactly: each returns the
/// one ring product `poly_mul_seq`, so two outputs filled from the same
/// factors, one by each algorithm, are equal coefficient for coefficient.
pub proof fn lemma_mul_algorithms_agree<T: TorusElement>(
    sb: Polynomial<T>,
    ka: Polynomial<T>,
    a: Polynomial<T>,
    b: Polynomial<T>,
)
    requires
        sb.values() == poly_mul_seq(a.values(), b.values(), T::modulus()),
        ka.values() == poly_mul_seq(a.values(), b.values(), T::modulus()),
    ensures
        sb.values() == ka.values(),
{
}

} // verus!
