use concrete_core::bootstrap::{BootstrapBuffers, StandardBootstrapKey};
use concrete_core::glwe::{GlweCiphertext, GlweSecretKey};
use concrete_core::lwe::{LweCiphertext, LweSecretKey, Plaintext};
use concrete_core::params::{
    DecompositionBaseLog, DecompositionLevelCount, GlweDimension, GlweSize, LogStandardDev,
    LweDimension, LweSize, PolynomialSize, ShapeError,
};
use concrete_core::polynomial::Polynomial;
use concrete_core::random::{EncryptionRandomGenerator, SecretRandomGenerator};
use concrete_core::torus::TorusElement;

fn circular_distance<T: TorusElement>(a: T, b: T) -> u64 {
    let d = a.wsub(b);
    d.to_u64().min(d.wneg().to_u64())
}

// Bootstrap correctness with an identity lookup table: encrypting a message,
// bootstrapping, and decrypting under the flattened GLWE key recovers the
// message within the drift left by the single rounding step.
fn test_bootstrap_identity<T: TorusElement + PartialEq + std::fmt::Debug>(
    noise: LogStandardDev,
    seed: u64,
) {
    bootstrap_identity_case::<T>(
        PolynomialSize(256),
        8,  // log2 of the polynomial size
        LweDimension(8),
        DecompositionLevelCount(2),
        DecompositionBaseLog(8),
        noise,
        seed,
        8,
    );
}

// The same scenario with the tunable shape parameters: `tolerance_slots`
// bounds the rotation drift left by rounding each mask coefficient.
fn bootstrap_identity_case<T: TorusElement + PartialEq + std::fmt::Debug>(
    polynomial_size: PolynomialSize,
    log_degree: u32,
    lwe_dimension: LweDimension,
    level: DecompositionLevelCount,
    base_log: DecompositionBaseLog,
    noise: LogStandardDev,
    seed: u64,
    tolerance_slots: u64,
) {
    let glwe_dimension = GlweDimension(1);
    let width = T::bits();
    let slot_shift = width - log_degree - 1;

    let mut secret_generator = SecretRandomGenerator::new(Some(seed));
    let mut encryption_generator = EncryptionRandomGenerator::new(Some(seed + 1));

    let glwe_key =
        GlweSecretKey::<T>::generate_binary(glwe_dimension, polynomial_size, &mut secret_generator);
    let lwe_key = LweSecretKey::<T>::generate_binary(lwe_dimension, &mut secret_generator);

    let mut bsk = StandardBootstrapKey::allocate(
        T::zero(),
        GlweSize(glwe_dimension.0 + 1),
        polynomial_size,
        level,
        base_log,
        lwe_dimension,
    );
    bsk.fill_with_new_key(&lwe_key, &glwe_key, noise, &mut encryption_generator);

    // message: slot 60 of the lookup table
    let message = T::from_u64(60u64 << slot_shift);
    let input = lwe_key.encrypt_lwe(&Plaintext(message), noise, &mut encryption_generator);

    // accumulator: trivial encryption of the identity lookup table
    let mut accumulator =
        GlweCiphertext::allocate(T::zero(), polynomial_size, GlweSize(glwe_dimension.0 + 1));
    let mut table: Vec<T> = Vec::new();
    for i in 0..polynomial_size.0 {
        table.push(T::from_u64((i as u64) << slot_shift));
    }
    accumulator.set_body(Polynomial::from_container(table));

    let mut buffers = BootstrapBuffers::new(polynomial_size, GlweSize(glwe_dimension.0 + 1));
    let mut output =
        LweCiphertext::allocate(T::zero(), LweSize(glwe_dimension.0 * polynomial_size.0 + 1));
    let r = bsk.bootstrap(&mut output, &input, &accumulator, &mut buffers);
    assert_eq!(r, Ok(()));

    // decrypt under the flattened GLWE key
    let flattened_key = LweSecretKey::binary_from_container(glwe_key.flattened_coefs());
    let decrypted = flattened_key.decrypt_lwe(&output).unwrap().0;

    // within the given number of lookup-table slots of the message: the
    // rounding of the mask coefficients drifts the rotation by at most
    // half a slot each
    let distance = circular_distance(decrypted, message);
    assert!(
        distance < tolerance_slots << slot_shift,
        "bootstrap drift too large: {}",
        distance
    );
}

// The spec's decomposition parameters (three levels at base-log seven), at
// dimensions reduced to fit the exact coefficient-domain multiplication.
#[test]
fn test_bootstrap_identity_level3_u32() {
    bootstrap_identity_case::<u32>(
        PolynomialSize(512),
        9,
        LweDimension(32),
        DecompositionLevelCount(3),
        DecompositionBaseLog(7),
        LogStandardDev(-29),
        103,
        16,
    );
}

#[test]
fn test_bootstrap_identity_u32() {
    test_bootstrap_identity::<u32>(LogStandardDev(-29), 101);
}

#[test]
fn test_bootstrap_identity_u64() {
    test_bootstrap_identity::<u64>(LogStandardDev(-29), 102);
}

// The bootstrap entry point validates every shape and reports each mismatch
// as its own condition, leaving the output untouched.
#[test]
fn test_bootstrap_rejects_mismatched_shapes() {
    let polynomial_size = PolynomialSize(32);
    let glwe_size = GlweSize(2);
    let lwe_dimension = LweDimension(4);
    let bsk = StandardBootstrapKey::allocate(
        0u32,
        glwe_size,
        polynomial_size,
        DecompositionLevelCount(2),
        DecompositionBaseLog(6),
        lwe_dimension,
    );
    let accumulator = GlweCiphertext::allocate(0u32, polynomial_size, glwe_size);
    let mut buffers = BootstrapBuffers::new(polynomial_size, glwe_size);

    // wrong input dimension
    let bad_input = LweCiphertext::allocate(0u32, LweSize(6));
    let mut output = LweCiphertext::allocate(3u32, LweSize(33));
    let before = output.mask.clone();
    let r = bsk.bootstrap(&mut output, &bad_input, &accumulator, &mut buffers);
    assert_eq!(r, Err(ShapeError::LweDimensionMismatch));
    assert_eq!(output.mask, before);

    // wrong output dimension
    let input = LweCiphertext::allocate(0u32, LweSize(5));
    let mut bad_output = LweCiphertext::allocate(0u32, LweSize(20));
    let r = bsk.bootstrap(&mut bad_output, &input, &accumulator, &mut buffers);
    assert_eq!(r, Err(ShapeError::LweDimensionMismatch));

    // wrong accumulator dimension
    let wide_acc = GlweCiphertext::allocate(0u32, polynomial_size, GlweSize(3));
    let r = bsk.bootstrap(&mut output, &input, &wide_acc, &mut buffers);
    assert_eq!(r, Err(ShapeError::GlweDimensionMismatch));

    // wrong accumulator polynomial size
    let small_acc = GlweCiphertext::allocate(0u32, PolynomialSize(16), glwe_size);
    let r = bsk.bootstrap(&mut output, &input, &small_acc, &mut buffers);
    assert_eq!(r, Err(ShapeError::PolynomialSizeMismatch));
}
