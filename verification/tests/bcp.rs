use bcp_rs::Bcp;
use bcp_rs::Error;
use num_bigint::BigUint;

#[test]
fn keypairs_differ() {
    let bcp = Bcp::new(16).expect("parameter generation");
    let kp1 = bcp.gen_key();
    let kp2 = bcp.gen_key();
    assert_ne!(kp1.public.to_bytes_be(), kp2.public.to_bytes_be());
    assert_ne!(kp1.private.to_bytes_be(), kp2.private.to_bytes_be());
}

#[test]
fn private_decrypt_round_trip_and_wrong_key() {
    let bcp = Bcp::new(16).expect("parameter generation");
    let kp1 = bcp.gen_key();
    let kp2 = bcp.gen_key();
    let m = BigUint::from(100u32);
    let c = bcp.encrypt(m.clone(), &kp1.public).expect("plaintext in range");
    let d1 = bcp.decrypt(c.clone(), &kp1.private).expect("invertible");
    assert_eq!(d1, m);
    let d2 = bcp.decrypt(c, &kp2.private).expect("invertible");
    assert_ne!(d2, m);
}

#[test]
fn master_decrypt_first_keypair() {
    let bcp = Bcp::new(16).expect("parameter generation");
    let kp1 = bcp.gen_key();
    let m = BigUint::from(100u32);
    let c = bcp.encrypt(m.clone(), &kp1.public).expect("plaintext in range");
    assert_eq!(bcp.decrypt_mk(c, &kp1.public), m);
}

#[test]
fn master_decrypt_second_keypair() {
    let bcp = Bcp::new(16).expect("parameter generation");
    let _kp1 = bcp.gen_key();
    let kp2 = bcp.gen_key();
    let m = BigUint::from(100u32);
    let c2 = bcp.encrypt(m.clone(), &kp2.public).expect("plaintext in range");
    assert_eq!(bcp.decrypt_mk(c2, &kp2.public), m);
}

#[test]
fn text_round_trip_both_paths() {
    let bcp = Bcp::new(16).expect("parameter generation");
    let kp = bcp.gen_key();
    let text = "Hello, World!";
    let s = bcp.encrypt_str(text.as_bytes(), &kp.public);
    assert_ne!(s.as_slice(), text.as_bytes());
    let d = bcp.decrypt_str(&s, &kp.private).expect("well-formed ciphertext");
    assert_eq!(String::from_utf8(d).unwrap(), text);
    let dm = bcp.decrypt_str_mk(&s, &kp.public).expect("well-formed ciphertext");
    assert_eq!(String::from_utf8(dm).unwrap(), text);
}

#[test]
fn text_round_trip_exact_chunk_multiple() {
    // bitsize 16 means 2-byte chunks: 14 bytes is an exact multiple.
    let bcp = Bcp::new(16).expect("parameter generation");
    let kp = bcp.gen_key();
    let text = b"Hello, World!?";
    assert_eq!(text.len() % 2, 0);
    let s = bcp.encrypt_str(text, &kp.public);
    assert_eq!(bcp.decrypt_str(&s, &kp.private).unwrap(), text.to_vec());
    assert_eq!(bcp.decrypt_str_mk(&s, &kp.public).unwrap(), text.to_vec());
}

#[test]
fn text_round_trip_single_short_chunk() {
    let bcp = Bcp::new(16).expect("parameter generation");
    let kp = bcp.gen_key();
    let text = b"A";
    let s = bcp.encrypt_str(text, &kp.public);
    assert_eq!(bcp.decrypt_str(&s, &kp.private).unwrap(), text.to_vec());
    assert_eq!(bcp.decrypt_str_mk(&s, &kp.public).unwrap(), text.to_vec());
}

#[test]
fn serialized_ciphertext_uses_expected_alphabet() {
    let bcp = Bcp::new(16).expect("parameter generation");
    let kp = bcp.gen_key();
    let s = bcp.encrypt_str(b"chunky bacon", &kp.public);
    assert!(!s.is_empty());
    for &b in &s {
        assert!(b == b' ' || b == b'!' || (b'"' <= b && b <= b'~'));
    }
    // exactly one '!' per space-separated block
    for block in s.split(|&b| b == b' ') {
        assert_eq!(block.iter().filter(|&&b| b == b'!').count(), 1);
    }
}

#[test]
fn oversized_plaintext_is_rejected() {
    let bcp = Bcp::new(16).expect("parameter generation");
    let kp = bcp.gen_key();
    // n is below 2^34 for 16-bit primes, so 2^128 is out of range
    let big = BigUint::from(1u32) << 128;
    assert_eq!(bcp.encrypt(big, &kp.public).unwrap_err(), Error::InvalidPlaintext);
}

#[test]
fn missing_separator_is_malformed() {
    let bcp = Bcp::new(16).expect("parameter generation");
    let kp = bcp.gen_key();
    assert_eq!(
        bcp.decrypt_str(b"abc", &kp.private).unwrap_err(),
        Error::MalformedCiphertext
    );
    assert_eq!(
        bcp.decrypt_str_mk(b"abc", &kp.public).unwrap_err(),
        Error::MalformedCiphertext
    );
}

#[test]
fn digit_outside_alphabet_is_malformed() {
    let bcp = Bcp::new(16).expect("parameter generation");
    let kp = bcp.gen_key();
    // 0x10 is below the '"' offset of the base-92 alphabet
    assert_eq!(
        bcp.decrypt_str(&[0x10, b'!', b'#'], &kp.private).unwrap_err(),
        Error::MalformedCiphertext
    );
}

#[test]
fn zero_first_component_is_non_invertible() {
    let bcp = Bcp::new(16).expect("parameter generation");
    let kp = bcp.gen_key();
    // the block "\"!\"" parses as A = 0, B = 0; zero has no inverse
    assert_eq!(
        bcp.decrypt_str(b"\"!\"", &kp.private).unwrap_err(),
        Error::NonInvertible
    );
}

#[test]
fn empty_ciphertext_string_is_malformed() {
    let bcp = Bcp::new(16).expect("parameter generation");
    let kp = bcp.gen_key();
    assert_eq!(
        bcp.decrypt_str(b"", &kp.private).unwrap_err(),
        Error::MalformedCiphertext
    );
}

#[test]
fn parameter_generation_succeeds_repeatedly() {
    // each build runs the full fourteen-check generator rejection search
    for _ in 0..3 {
        let bcp = Bcp::new(16).expect("parameter generation");
        let kp = bcp.gen_key();
        let m = BigUint::from(12345u32);
        let c = bcp.encrypt(m.clone(), &kp.public).expect("plaintext in range");
        assert_eq!(bcp.decrypt(c, &kp.private).expect("invertible"), m);
    }
}

#[test]
fn generated_safe_primes_pass_primality() {
    let mut rng = bcp_rs::rng::fresh_rng();
    for _ in 0..4 {
        let p = bcp_rs::rng::gen_safe_prime(&mut rng, 16);
        let half: BigUint = &p >> 1u8;
        assert!(num_prime::nt_funcs::is_prime(&p, None).probably());
        assert!(num_prime::nt_funcs::is_prime(&half, None).probably());
        assert!(p.bits() >= 16);
    }
}

#[test]
fn key_bytes_round_trip_through_base64() {
    let bcp = Bcp::new(16).expect("parameter generation");
    let kp = bcp.gen_key();
    let pk_b64 = base64::encode(kp.public.to_bytes_be());
    let sk_b64 = base64::encode(kp.private.to_bytes_be());
    let pk = bcp_rs::PublicKey::from_bytes_be(&base64::decode(&pk_b64).unwrap());
    let sk = bcp_rs::PrivateKey::from_bytes_be(&base64::decode(&sk_b64).unwrap());
    assert_eq!(pk.to_bytes_be(), kp.public.to_bytes_be());
    assert_eq!(sk.to_bytes_be(), kp.private.to_bytes_be());
    // the re-imported keys still work as a pair
    let m = BigUint::from(77u32);
    let c = bcp.encrypt(m.clone(), &pk).expect("plaintext in range");
    assert_eq!(bcp.decrypt(c, &sk).expect("invertible"), m);
}

#[test]
fn encryption_is_randomized() {
    let bcp = Bcp::new(16).expect("parameter generation");
    let kp = bcp.gen_key();
    let s1 = bcp.encrypt_str(b"same text", &kp.public);
    let s2 = bcp.encrypt_str(b"same text", &kp.public);
    // fresh randomizers make ciphertexts differ with overwhelming probability
    assert_ne!(s1, s2);
    assert_eq!(bcp.decrypt_str(&s1, &kp.private).unwrap(), b"same text".to_vec());
    assert_eq!(bcp.decrypt_str(&s2, &kp.private).unwrap(), b"same text".to_vec());
}
