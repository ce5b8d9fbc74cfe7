use num_bigint::BigInt;

use zdm::cryptosystem::{rsa_make_e, RSAKey};
use zdm::math::multiplicative_inverse;

#[test]
fn rsa_make_e_should_generate_a_valid_e() {
    let p = BigInt::from(61);
    let q = BigInt::from(53);

    let e = rsa_make_e(&p, &q).unwrap();

    assert!(e > BigInt::from(1));
    assert!(e < (p - 1) * (q - 1));
}

#[test]
fn rsa_test_key_with_p_7_and_q_5() {
    let p = BigInt::from(5);
    let q = BigInt::from(7);

    let key = RSAKey::generate_keypair(&p, &q).unwrap();

    let message = BigInt::from(15);
    let ciphertext = key.encrypt(&message);
    let decrypted_message = key.decrypt(&ciphertext);

    assert_eq!(message, decrypted_message);

    // 7 and 5 are not good prime numbers for RSA, because the
    // plaintext is the same as the ciphertext.
    assert_eq!(message, ciphertext);
}

#[test]
fn test_rsa_key_with_128_bits() {
    let bits = 128;
    let key = RSAKey::generate_random_key(bits).unwrap();

    let message = BigInt::from(153252);
    let ciphertext = key.encrypt(&message);
    let decrypted_message = key.decrypt(&ciphertext);

    assert_eq!(message, decrypted_message);
}

#[test]
fn test_rsa_key_with_256_bits() {
    let bits = 256;
    let key = RSAKey::generate_random_key(bits).unwrap();

    let message = BigInt::from(153252);
    let ciphertext = key.encrypt(&message);
    let decrypted_message = key.decrypt(&ciphertext);

    assert_eq!(message, decrypted_message);
}

#[test]
fn textbook_key_61_53_with_e_17_round_trips() {
    // p = 61, q = 53 gives n = 3233 and totient 3120; e = 17 is coprime to
    // 3120 and its inverse is 2753
    let n = BigInt::from(3233);
    let e = BigInt::from(17);
    let d = multiplicative_inverse(&e, &BigInt::from(3120)).unwrap();
    assert_eq!(d, BigInt::from(2753));

    let key = RSAKey::new(n, e, d);

    let message = BigInt::from(65);
    let ciphertext = key.encrypt(&message);
    assert_eq!(ciphertext, BigInt::from(2790));
    assert_eq!(key.decrypt(&ciphertext), message);

    for m in [0u32, 1, 2, 42, 1234, 3232] {
        let message = BigInt::from(m);
        let ciphertext = key.encrypt(&message);
        assert_eq!(key.decrypt(&ciphertext), message);
        let signature = key.sign(&message);
        assert_eq!(key.verify(&signature), message);
    }
}

#[test]
fn generated_key_round_trips_for_sign_and_verify() {
    let key = RSAKey::generate_random_key(64).unwrap();

    let message = BigInt::from(987654321u64);
    let signature = key.sign(&message);
    let recovered = key.verify(&signature);

    assert_eq!(message, recovered);
}
