use concrete_core::params::{MonomialDegree, PolynomialSize};
use concrete_core::polynomial::Polynomial;
use concrete_core::random::RandomGenerator;

// The two multiplication algorithms agree exactly on every power-of-two
// size from 1 upward, including sizes at and above 2048.
#[test]
fn test_schoolbook_karatsuba_agree_all_sizes_u64() {
    let mut generator = RandomGenerator::new(Some(7));
    let mut log: usize = 0;
    while log <= 11 {
        let size = PolynomialSize(1 << log);
        let a = Polynomial::from_container(generator.random_uniform_tensor::<u64>(size.0));
        let b = Polynomial::from_container(generator.random_uniform_tensor::<u64>(size.0));
        let mut sb = Polynomial::allocate(0u64, size);
        let mut ka = Polynomial::allocate(0u64, size);
        sb.fill_with_mul_schoolbook(&a, &b);
        ka.fill_with_mul_karatsuba(&a, &b);
        assert_eq!(sb.clone().into_container(), ka.clone().into_container());
        log += 1;
    }
}

// The convolution formula on a concrete case: (1 + X)^2 modulo X^2 + 1 is
// 2X, because the X^2 term wraps around negated.
#[test]
fn test_schoolbook_exact_value() {
    let a = Polynomial::from_container(vec![1u64, 1]);
    let b = Polynomial::from_container(vec![1u64, 1]);
    let mut out = Polynomial::allocate(0u64, PolynomialSize(2));
    out.fill_with_mul_schoolbook(&a, &b);
    assert_eq!(out.into_container(), vec![0u64, 2]);
}

// Rotation by X^1 on a concrete case: the top coefficient wraps around
// negated into position zero.
#[test]
fn test_monomial_mul_exact_value() {
    let mut p = Polynomial::from_container(vec![1u32, 2, 3, 4]);
    p.update_with_monic_monomial_mul(MonomialDegree(1));
    assert_eq!(p.into_container(), vec![4u32.wrapping_neg(), 1, 2, 3]);
}

// Division is the exact inverse of multiplication for rotation amounts at
// and beyond twice the size, in both compositions.
#[test]
fn test_monomial_round_trip_large_degrees() {
    let original = vec![5u32, 0, 7, 0x8000_0001, 11, 13, 17, 19];
    let degrees = [0usize, 1, 7, 8, 15, 16, 17, 1000003];
    for &r in degrees.iter() {
        let mut p = Polynomial::from_container(original.clone());
        p.update_with_monic_monomial_mul(MonomialDegree(r));
        p.update_with_monic_monomial_div(MonomialDegree(r));
        assert_eq!(p.into_container(), original);

        let mut q = Polynomial::from_container(original.clone());
        q.update_with_monic_monomial_div(MonomialDegree(r));
        q.update_with_monic_monomial_mul(MonomialDegree(r));
        assert_eq!(q.into_container(), original);
    }
}
