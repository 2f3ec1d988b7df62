use concrete_core::lwe::{
    create_cleartext, discard_retrieve_plaintext_vector, LweCiphertext, LweSecretKey, Plaintext,
    PlaintextVector,
};
use concrete_core::params::{LogStandardDev, LweDimension, LweSize, ShapeError};
use concrete_core::random::{EncryptionRandomGenerator, SecretRandomGenerator};

fn circular_distance_u64(a: u64, b: u64) -> u64 {
    let d = a.wrapping_sub(b);
    d.min(d.wrapping_neg())
}

// Round-trip: decryption recovers the plaintext up to a noise bounded by
// the sampler's support, and the empirical error shrinks with the standard
// deviation.
#[test]
fn test_encrypt_decrypt_noise_shrinks_with_std_dev() {
    let dimension = LweDimension(128);
    let message = 0x0123_4567_89AB_CDEFu64;
    let mut secret_generator = SecretRandomGenerator::new(Some(1));
    let key = LweSecretKey::<u64>::generate_binary(dimension, &mut secret_generator);

    let mut max_err_loose: u64 = 0;
    let mut max_err_tight: u64 = 0;
    let loose = LogStandardDev(-20);
    let tight = LogStandardDev(-40);
    let mut generator = EncryptionRandomGenerator::new(Some(2));
    for _ in 0..100 {
        let ct = key.encrypt_lwe(&Plaintext(message), loose, &mut generator);
        let decrypted = key.decrypt_lwe(&ct).unwrap().0;
        max_err_loose = max_err_loose.max(circular_distance_u64(decrypted, message));

        let ct = key.encrypt_lwe(&Plaintext(message), tight, &mut generator);
        let decrypted = key.decrypt_lwe(&ct).unwrap().0;
        max_err_tight = max_err_tight.max(circular_distance_u64(decrypted, message));
    }
    // support of the sampler: 12 * (2^(64 + log_std) / 2)
    assert!(max_err_loose <= 12 * (1u64 << 43));
    assert!(max_err_tight <= 12 * (1u64 << 23));
    // the smaller standard deviation gives the smaller empirical error
    assert!(max_err_tight < max_err_loose);
    assert!(max_err_tight > 0 || max_err_loose > 0);
}

// A seeded generator is deterministic: the same seeds give the same key and
// the same ciphertext, element for element.
#[test]
fn test_seeded_encryption_is_deterministic() {
    let dimension = LweDimension(16);
    let noise = LogStandardDev(-25);
    let run = || {
        let mut sg = SecretRandomGenerator::new(Some(11));
        let mut eg = EncryptionRandomGenerator::new(Some(12));
        let key = LweSecretKey::<u32>::generate_binary(dimension, &mut sg);
        let ct = key.encrypt_lwe(&Plaintext(3u32 << 20), noise, &mut eg);
        (key.coefs.clone(), ct.mask.clone(), ct.body)
    };
    let (k1, m1, b1) = run();
    let (k2, m2, b2) = run();
    assert_eq!(k1, k2);
    assert_eq!(m1, m2);
    assert_eq!(b1, b2);
}

// Discard-style encryption refuses an output of another dimension with the
// dimension-mismatch condition and leaves its buffer unmodified.
#[test]
fn test_discard_encrypt_lwe_rejects_dimension_mismatch() {
    let mut sg = SecretRandomGenerator::new(Some(21));
    let mut eg = EncryptionRandomGenerator::new(Some(22));
    let key = LweSecretKey::<u32>::generate_binary(LweDimension(8), &mut sg);
    let mut output = LweCiphertext::allocate(7u32, LweSize(5));
    let before_mask = output.mask.clone();
    let before_body = output.body;
    let r = key.discard_encrypt_lwe_ciphertext(
        &mut output,
        &Plaintext(3u32 << 20),
        LogStandardDev(-25),
        &mut eg,
    );
    assert_eq!(r, Err(ShapeError::LweDimensionMismatch));
    assert_eq!(output.mask, before_mask);
    assert_eq!(output.body, before_body);
}

// Discard-style encryption into a matching output succeeds and the result
// decrypts back to the message up to noise.
#[test]
fn test_discard_encrypt_lwe_matching_shapes() {
    let mut sg = SecretRandomGenerator::new(Some(31));
    let mut eg = EncryptionRandomGenerator::new(Some(32));
    let key = LweSecretKey::<u64>::generate_binary(LweDimension(32), &mut sg);
    let mut output = LweCiphertext::allocate(0u64, LweSize(33));
    let message = 5u64 << 50;
    let r = key.discard_encrypt_lwe_ciphertext(
        &mut output,
        &Plaintext(message),
        LogStandardDev(-30),
        &mut eg,
    );
    assert_eq!(r, Ok(()));
    let decrypted = key.decrypt_lwe(&output).unwrap().0;
    assert!(circular_distance_u64(decrypted, message) <= 12 * (1u64 << 33));
}

// Decryption refuses a ciphertext of another dimension.
#[test]
fn test_decrypt_lwe_rejects_dimension_mismatch() {
    let mut sg = SecretRandomGenerator::new(Some(41));
    let key = LweSecretKey::<u32>::generate_binary(LweDimension(8), &mut sg);
    let ct = LweCiphertext::allocate(0u32, LweSize(10));
    assert_eq!(key.decrypt_lwe(&ct), Err(ShapeError::LweDimensionMismatch));
}

// Plaintext retrieval copies the exact values when the lengths match, and
// refuses a buffer of another length, leaving it unmodified.
#[test]
fn test_discard_retrieve_plaintext_vector() {
    let input = PlaintextVector::from_container(vec![3u32 << 20, 5 << 20, 7 << 20]);
    let mut output = vec![0u32; 3];
    assert_eq!(discard_retrieve_plaintext_vector(&mut output, &input), Ok(()));
    assert_eq!(output, vec![3u32 << 20, 5 << 20, 7 << 20]);

    let mut wrong = vec![9u32; 4];
    assert_eq!(
        discard_retrieve_plaintext_vector(&mut wrong, &input),
        Err(ShapeError::PlaintextCountMismatch)
    );
    assert_eq!(wrong, vec![9u32; 4]);
}

// Cleartext creation wraps the integer unchanged, in both entry points.
#[test]
fn test_create_cleartext() {
    let c = create_cleartext(3u64).unwrap();
    assert_eq!(c.0, 3u64);
    let c32 = create_cleartext(7u32).unwrap();
    assert_eq!(c32.0, 7u32);
}
