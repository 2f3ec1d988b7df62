use concrete_core::params::{MonomialDegree, PolynomialSize};
use concrete_core::polynomial::Polynomial;
use concrete_core::random::RandomGenerator;
use concrete_core::torus::TorusElement;
use rand::Rng;

fn test_multiply_divide_unit_monomial<T: TorusElement + PartialEq + std::fmt::Debug>() {
    //! tests if multiply_by_monomial and divide_by_monomial cancel each other
    let mut rng = rand::thread_rng();
    let mut generator = RandomGenerator::new(None);

    // settings
    let polynomial_size = (rng.gen::<usize>() % 2048) + 1;

    // generates a random Torus polynomial
    let mut poly =
        Polynomial::from_container(generator.random_uniform_tensor::<T>(polynomial_size));

    // copy this polynomial
    let ground_truth = poly.clone().into_container();

    // generates a random r
    let mut r: usize = rng.gen();
    r %= polynomial_size;

    // multiply by X^r and then divides by X^r
    poly.update_with_monic_monomial_mul(MonomialDegree(r));
    poly.update_with_monic_monomial_div(MonomialDegree(r));

    // test
    assert_eq!(&poly.clone().into_container(), &ground_truth);

    // generates a random r_big
    let mut r_big: usize = rng.gen();
    r_big = r_big % polynomial_size + 2048;

    // multiply by X^r_big and then divides by X^r_big
    poly.update_with_monic_monomial_mul(MonomialDegree(r_big));
    poly.update_with_monic_monomial_div(MonomialDegree(r_big));

    // test
    assert_eq!(&poly.clone().into_container(), &ground_truth);

    // divides by X^r_big and then multiply by X^r_big
    poly.update_with_monic_monomial_mul(MonomialDegree(r_big));
    poly.update_with_monic_monomial_div(MonomialDegree(r_big));

    // test
    assert_eq!(&poly.clone().into_container(), &ground_truth);
}

fn test_multiply_karatsuba<T: TorusElement + PartialEq + std::fmt::Debug>() {
    //! tests if the schoolbook and the Karatsuba multiplication agree
    let mut rng = rand::thread_rng();
    let mut generator = RandomGenerator::new(None);

    // settings
    let polynomial_log = (rng.gen::<usize>() % 7) + 6;
    let polynomial_size = PolynomialSize(1 << polynomial_log);

    // generates two random Torus polynomials
    let poly_1 =
        Polynomial::from_container(generator.random_uniform_tensor::<T>(polynomial_size.0));
    let poly_2 =
        Polynomial::from_container(generator.random_uniform_tensor::<T>(polynomial_size.0));

    // copy this polynomial
    let mut sb_mul = Polynomial::allocate(T::zero(), polynomial_size);
    let mut ka_mul = Polynomial::allocate(T::zero(), polynomial_size);

    // compute the schoolbook
    sb_mul.fill_with_mul_schoolbook(&poly_1, &poly_2);

    // compute the karatsuba
    ka_mul.fill_with_mul_karatsuba(&poly_1, &poly_2);

    // test
    assert_eq!(&sb_mul.into_container(), &ka_mul.into_container());
}

#[test]
pub fn test_multiply_divide_unit_monomial_u32() {
    test_multiply_divide_unit_monomial::<u32>()
}

#[test]
pub fn test_multiply_divide_unit_monomial_u64() {
    test_multiply_divide_unit_monomial::<u64>()
}

#[test]
pub fn test_multiply_karatsuba_u32() {
    test_multiply_karatsuba::<u32>()
}

#[test]
pub fn test_multiply_karatsuba_u64() {
    test_multiply_karatsuba::<u64>()
}
