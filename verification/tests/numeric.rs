use spead::numeric::decrypt_fractional;
use spead::numeric::decrypt_integral;
use spead::numeric::encrypt_fractional;
use spead::numeric::encrypt_integral;
use spead::error::Error;
use spead::utils::KEY_LEN;

#[test]
fn integer_encrypt_then_decrypt() {
    for _ in 0..1000 {
        let key: [u8; KEY_LEN] = rand::random();
        let nonce: [u8; KEY_LEN] = rand::random();

        let int: u64 = rand::random();
        let original = int.to_string();

        let encrypted = encrypt_integral(&key, &nonce, &original);

        assert_ne!(original, encrypted);

        let decrypted = decrypt_integral(&key, &nonce, &encrypted).unwrap();

        assert_eq!(original, decrypted);
    }
}

#[test]
fn fractional_encrypt_then_decrypt() {
    for _ in 0..1000 {
        let key: [u8; KEY_LEN] = rand::random();
        let nonce: [u8; KEY_LEN] = rand::random();

        let int: f64 = rand::random();
        let original = int.to_string().split_once(".").unwrap().1.to_string();

        let encrypted = encrypt_fractional(&key, &nonce, &original);

        assert_ne!(original, encrypted);

        let decrypted = decrypt_fractional(&key, &nonce, &encrypted).unwrap();

        assert_eq!(original, decrypted);
    }
}

#[test]
fn integral_ciphertext_never_starts_with_zero() {
    let key: [u8; KEY_LEN] = rand::random();
    let nonce: [u8; KEY_LEN] = rand::random();
    for s in ["0", "7", "12345678901234567890", "-1", "-0"] {
        let encrypted = encrypt_integral(&key, &nonce, s);
        let body = encrypted.strip_prefix('-').unwrap_or(&encrypted);
        let first = body.chars().next().unwrap();
        assert!(('1'..='9').contains(&first), "bad leading digit in {encrypted}");
        assert!(body.chars().all(|c| c.is_ascii_digit()));
        assert_eq!(decrypt_integral(&key, &nonce, &encrypted).unwrap(), s);
    }
}

#[test]
fn fractional_ciphertext_never_ends_with_zero() {
    let key: [u8; KEY_LEN] = rand::random();
    let nonce: [u8; KEY_LEN] = rand::random();
    for s in ["5", "1415", "000001"] {
        let encrypted = encrypt_fractional(&key, &nonce, s);
        assert!(!encrypted.ends_with('0'));
        assert!(encrypted.chars().all(|c| c.is_ascii_digit()));
        assert_eq!(decrypt_fractional(&key, &nonce, &encrypted).unwrap(), s);
    }
}

#[test]
fn integral_cipher_is_not_the_padded_plaintext() {
    // If the enciphering step handed its input through unchanged, every
    // ciphertext would end with the zero-padded plaintext digits.
    let key: [u8; KEY_LEN] = rand::random();
    let nonce: [u8; KEY_LEN] = rand::random();
    let mut all_end_with_plaintext = true;
    for _ in 0..5 {
        let encrypted = encrypt_integral(&key, &nonce, "12345678");
        if !encrypted.ends_with("12345678") {
            all_end_with_plaintext = false;
        }
    }
    assert!(!all_end_with_plaintext);
}

#[test]
fn short_ciphertext_is_an_encoding_error() {
    let key = [7u8; KEY_LEN];
    let nonce = [1u8; 4];
    assert_eq!(decrypt_integral(&key, &nonce, "5"), Err(Error::Encoding));
    assert_eq!(decrypt_integral(&key, &nonce, "-"), Err(Error::Encoding));
    assert_eq!(decrypt_fractional(&key, &nonce, ""), Err(Error::Encoding));
    assert_eq!(decrypt_fractional(&key, &nonce, "123"), Err(Error::Encoding));
}

#[test]
fn garbage_ciphertext_is_rejected() {
    let key = [7u8; KEY_LEN];
    let nonce = [1u8; 4];
    // Non-digit characters pass through the primitive unencrypted and make
    // the recovered numeral invalid.
    let ct = "5abcdefgh1234567890";
    assert_eq!(decrypt_integral(&key, &nonce, ct), Err(Error::Encoding));
}

#[test]
fn decryption_is_deterministic() {
    let key: [u8; KEY_LEN] = rand::random();
    let nonce: [u8; KEY_LEN] = rand::random();
    let encrypted = encrypt_integral(&key, &nonce, "424242");
    let a = decrypt_integral(&key, &nonce, &encrypted).unwrap();
    let b = decrypt_integral(&key, &nonce, &encrypted).unwrap();
    assert_eq!(a, b);
    assert_eq!(a, "424242");
}
