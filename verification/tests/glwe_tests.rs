use concrete_core::glwe::{GlweCiphertext, GlweCiphertextVector, GlweSecretKey};
use concrete_core::lwe::PlaintextVector;
use concrete_core::params::{
    GlweCiphertextCount, GlweDimension, GlweSize, LogStandardDev, PolynomialSize, ShapeError,
};
use concrete_core::random::{EncryptionRandomGenerator, SecretRandomGenerator};

fn circular_distance_u32(a: u32, b: u32) -> u32 {
    let d = a.wrapping_sub(b);
    d.min(d.wrapping_neg())
}

// GLWE round-trip: every coefficient decrypts back to its plaintext up to
// the bounded noise.
#[test]
fn test_glwe_encrypt_decrypt_round_trip() {
    let dimension = GlweDimension(2);
    let size = PolynomialSize(64);
    let noise = LogStandardDev(-20);
    let mut sg = SecretRandomGenerator::new(Some(51));
    let mut eg = EncryptionRandomGenerator::new(Some(52));
    let key = GlweSecretKey::<u32>::generate_binary(dimension, size, &mut sg);
    let mut input: Vec<u32> = Vec::new();
    for i in 0..size.0 {
        input.push((i as u32) << 24);
    }
    let plaintexts = PlaintextVector::from_container(input.clone());
    let ct = key.encrypt_glwe(&plaintexts, noise, &mut eg);
    let decrypted = key.decrypt_glwe(&ct).unwrap();
    for (got, expected) in decrypted.coefs.iter().zip(input.iter()) {
        assert!(circular_distance_u32(*got, *expected) <= 12 * (1 << 11));
    }
}

// The vector operation refuses a plaintext vector whose length is not the
// polynomial size times the ciphertext count, and leaves the output alone.
#[test]
fn test_glwe_vector_rejects_plaintext_count_mismatch() {
    let dimension = GlweDimension(2);
    let size = PolynomialSize(4);
    let mut sg = SecretRandomGenerator::new(Some(61));
    let mut eg = EncryptionRandomGenerator::new(Some(62));
    let key = GlweSecretKey::<u32>::generate_binary(dimension, size, &mut sg);
    let mut output =
        GlweCiphertextVector::allocate(9u32, size, GlweSize(3), GlweCiphertextCount(2));
    // 7 plaintexts instead of the 8 = 4 * 2 expected
    let plaintexts = PlaintextVector::from_container(vec![3u32 << 20; 7]);
    let r = key.discard_encrypt_glwe_ciphertext_vector(
        &mut output,
        &plaintexts,
        LogStandardDev(-25),
        &mut eg,
    );
    assert_eq!(r, Err(ShapeError::PlaintextCountMismatch));
    for ct in output.cts.iter() {
        for p in ct.mask.iter() {
            assert_eq!(p.clone().into_container(), vec![9u32; 4]);
        }
        assert_eq!(ct.body.clone().into_container(), vec![9u32; 4]);
    }
}

// The vector operation reports dimension and size mismatches as their own
// conditions, in that order.
#[test]
fn test_glwe_vector_rejects_dimension_and_size_mismatch() {
    let mut sg = SecretRandomGenerator::new(Some(71));
    let mut eg = EncryptionRandomGenerator::new(Some(72));
    let key = GlweSecretKey::<u32>::generate_binary(GlweDimension(2), PolynomialSize(4), &mut sg);
    let plaintexts = PlaintextVector::from_container(vec![0u32; 8]);

    let mut wrong_dim =
        GlweCiphertextVector::allocate(0u32, PolynomialSize(4), GlweSize(4), GlweCiphertextCount(2));
    let r = key.discard_encrypt_glwe_ciphertext_vector(
        &mut wrong_dim,
        &plaintexts,
        LogStandardDev(-25),
        &mut eg,
    );
    assert_eq!(r, Err(ShapeError::GlweDimensionMismatch));

    let mut wrong_size =
        GlweCiphertextVector::allocate(0u32, PolynomialSize(8), GlweSize(3), GlweCiphertextCount(2));
    let r = key.discard_encrypt_glwe_ciphertext_vector(
        &mut wrong_size,
        &plaintexts,
        LogStandardDev(-25),
        &mut eg,
    );
    assert_eq!(r, Err(ShapeError::PolynomialSizeMismatch));
}

// The vector operation encrypts each polynomial-size chunk into its own
// ciphertext; decryption recovers every chunk.
#[test]
fn test_glwe_vector_encrypts_each_chunk() {
    let dimension = GlweDimension(1);
    let size = PolynomialSize(8);
    let noise = LogStandardDev(-22);
    let mut sg = SecretRandomGenerator::new(Some(81));
    let mut eg = EncryptionRandomGenerator::new(Some(82));
    let key = GlweSecretKey::<u32>::generate_binary(dimension, size, &mut sg);
    let mut input: Vec<u32> = Vec::new();
    for i in 0..16 {
        input.push((i as u32 + 1) << 24);
    }
    let plaintexts = PlaintextVector::from_container(input.clone());
    let mut output =
        GlweCiphertextVector::allocate(0u32, size, GlweSize(2), GlweCiphertextCount(2));
    let r = key.discard_encrypt_glwe_ciphertext_vector(&mut output, &plaintexts, noise, &mut eg);
    assert_eq!(r, Ok(()));
    for (i, ct) in output.cts.iter().enumerate() {
        let decrypted = key.decrypt_glwe(ct).unwrap();
        for (k, got) in decrypted.coefs.iter().enumerate() {
            let expected = input[i * 8 + k];
            assert!(circular_distance_u32(*got, expected) <= 12 * (1 << 9));
        }
    }
}

// The single-ciphertext discard encryption validates all three shapes.
#[test]
fn test_glwe_discard_encrypt_single_rejects_mismatches() {
    let mut sg = SecretRandomGenerator::new(Some(91));
    let mut eg = EncryptionRandomGenerator::new(Some(92));
    let key = GlweSecretKey::<u64>::generate_binary(GlweDimension(1), PolynomialSize(8), &mut sg);
    let noise = LogStandardDev(-30);

    let mut wrong_dim = GlweCiphertext::allocate(0u64, PolynomialSize(8), GlweSize(3));
    let plaintexts = PlaintextVector::from_container(vec![0u64; 8]);
    assert_eq!(
        key.discard_encrypt_glwe_ciphertext(&mut wrong_dim, &plaintexts, noise, &mut eg),
        Err(ShapeError::GlweDimensionMismatch)
    );

    let mut wrong_size = GlweCiphertext::allocate(0u64, PolynomialSize(16), GlweSize(2));
    assert_eq!(
        key.discard_encrypt_glwe_ciphertext(&mut wrong_size, &plaintexts, noise, &mut eg),
        Err(ShapeError::PolynomialSizeMismatch)
    );

    let mut good = GlweCiphertext::allocate(0u64, PolynomialSize(8), GlweSize(2));
    let short = PlaintextVector::from_container(vec![0u64; 5]);
    assert_eq!(
        key.discard_encrypt_glwe_ciphertext(&mut good, &short, noise, &mut eg),
        Err(ShapeError::PlaintextCountMismatch)
    );
    assert_eq!(
        key.discard_encrypt_glwe_ciphertext(&mut good, &plaintexts, noise, &mut eg),
        Ok(())
    );
}
