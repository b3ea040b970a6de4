use vurze::crypto::{
    decode_key, derive_public_key, equal_ignoring_case, generate_keypair, generate_signature,
    generate_signature_package, hash, keypair_from_secret, verify_hash, verify_signature,
    verify_signature_package, CryptoError,
};

const SECRET: &str = "9d61b19deffd5a60ba844af492ec2cc44449c5697b326919703bac031cae7f60";
const PUBLIC: &str = "d75a980182b10ab7d54bfed3c964073a0ee172f3daa62325af021a68f707511a";
const SIGNATURE_OF_EMPTY: &str = "e5564300c360ac729086e2cc806e828a84877f1eb8e5d974d873e065224901555fb8821590a33bacc61e39701cf9b46bd25bf5f0595bbe24655141438e7a100b";

#[test]
fn hash_of_empty_input_is_the_known_digest() {
    assert_eq!(hash(b""), "e3b0c44298fc1c149afbf4c8996fb92427ae41e4649b934ca495991b7852b855");
}

#[test]
fn hash_of_abc_is_the_known_digest() {
    assert_eq!(hash(b"abc"), "ba7816bf8f01cfea414140de5dae2223b00361a396177a9cb410ff61f20015ad");
}

#[test]
fn hash_is_stable() {
    let data = b"the same bytes";
    assert_eq!(hash(data), hash(data));
    assert_eq!(hash(data).len(), 64);
}

#[test]
fn hash_verifies_against_its_own_data() {
    for data in [&b""[..], b"a", b"hello world", &[0u8, 255, 10, 13]] {
        assert!(verify_hash(&hash(data), data));
    }
}

#[test]
fn verify_hash_accepts_either_case() {
    let digest = hash(b"abc");
    assert!(verify_hash(&digest, b"abc"));
    assert!(verify_hash(&digest.to_uppercase(), b"abc"));
    assert!(!verify_hash(&digest, b"abd"));
    assert!(!verify_hash(&digest[..63], b"abc"));
    assert!(!verify_hash("", b"abc"));
}

#[test]
fn comparison_ignores_ascii_case_only() {
    assert!(equal_ignoring_case("AbC9", "aBc9"));
    assert!(!equal_ignoring_case("abc", "abd"));
    assert!(!equal_ignoring_case("abc", "abcd"));
    assert!(!equal_ignoring_case("é", "É"));
    assert!(equal_ignoring_case("", ""));
}

#[test]
fn known_key_pair_and_signature() {
    assert_eq!(derive_public_key(SECRET), Ok(PUBLIC.to_string()));
    assert_eq!(generate_signature(b"", SECRET), Ok(SIGNATURE_OF_EMPTY.to_string()));
    assert_eq!(verify_signature(b"", SIGNATURE_OF_EMPTY, PUBLIC), Ok(true));
    assert_eq!(verify_signature(b"x", SIGNATURE_OF_EMPTY, PUBLIC), Ok(false));
    let mut secret = [0u8; 32];
    secret.copy_from_slice(&hex::decode(SECRET).unwrap());
    let pair = keypair_from_secret(&secret);
    assert_eq!(pair.private_key, SECRET);
    assert_eq!(pair.public_key, PUBLIC);
    assert_eq!(decode_key(SECRET), Ok(secret));
}

#[test]
fn keys_and_signatures_are_read_in_either_case() {
    assert_eq!(
        generate_signature(b"", &SECRET.to_uppercase()),
        Ok(SIGNATURE_OF_EMPTY.to_string())
    );
    assert_eq!(
        verify_signature(b"", &SIGNATURE_OF_EMPTY.to_uppercase(), &PUBLIC.to_uppercase()),
        Ok(true)
    );
}

#[test]
fn signature_round_trip() {
    let pair = generate_keypair();
    assert_eq!(pair.private_key.len(), 64);
    assert_eq!(pair.public_key.len(), 64);
    assert_eq!(derive_public_key(&pair.private_key), Ok(pair.public_key.clone()));
    for data in [&b""[..], b"hello", &[0u8; 300]] {
        let signature = generate_signature(data, &pair.private_key).unwrap();
        assert_eq!(signature.len(), 128);
        assert_eq!(generate_signature(data, &pair.private_key), Ok(signature.clone()));
        assert_eq!(verify_signature(data, &signature, &pair.public_key), Ok(true));
    }
}

#[test]
fn a_flipped_byte_fails_verification() {
    let pair = generate_keypair();
    let data = b"provenance".to_vec();
    let signature = generate_signature(&data, &pair.private_key).unwrap();
    for i in 0..data.len() {
        let mut changed = data.clone();
        changed[i] ^= 0x01;
        assert_eq!(verify_signature(&changed, &signature, &pair.public_key), Ok(false));
    }
    let other = generate_keypair();
    assert_eq!(verify_signature(&data, &signature, &other.public_key), Ok(false));
}

#[test]
fn malformed_private_key_is_refused() {
    assert_eq!(generate_signature(b"x", "zz"), Err(CryptoError::InvalidKeyEncoding));
    assert_eq!(generate_signature(b"x", "abc"), Err(CryptoError::InvalidKeyEncoding));
    assert_eq!(generate_signature(b"x", "é0"), Err(CryptoError::InvalidKeyEncoding));
    assert_eq!(generate_signature(b"x", "abcd"), Err(CryptoError::InvalidKeyLength));
    assert_eq!(generate_signature(b"x", ""), Err(CryptoError::InvalidKeyLength));
    assert_eq!(derive_public_key("zz"), Err(CryptoError::InvalidKeyEncoding));
    assert_eq!(derive_public_key(&"00".repeat(33)), Err(CryptoError::InvalidKeyLength));
    assert_eq!(decode_key("0g"), Err(CryptoError::InvalidKeyEncoding));
}

#[test]
fn malformed_material_is_refused_in_order() {
    let bad_signature = "xyz";
    let short_signature = "abcd";
    assert_eq!(
        verify_signature(b"", bad_signature, "zz"),
        Err(CryptoError::InvalidSignatureEncoding)
    );
    assert_eq!(
        verify_signature(b"", short_signature, "zz"),
        Err(CryptoError::InvalidKeyEncoding)
    );
    assert_eq!(
        verify_signature(b"", short_signature, "abcd"),
        Err(CryptoError::InvalidKeyLength)
    );
    assert_eq!(
        verify_signature(b"", short_signature, PUBLIC),
        Err(CryptoError::InvalidSignatureEncoding)
    );
    assert_eq!(
        verify_signature(b"", &"00".repeat(65), PUBLIC),
        Err(CryptoError::InvalidSignatureEncoding)
    );
    assert_eq!(verify_signature(b"", &"00".repeat(64), PUBLIC), Ok(false));
}

#[test]
fn bytes_that_are_no_curve_point_are_refused_as_a_key() {
    let mut refused = 0;
    for first in 0u8..=255 {
        let mut bytes = [3u8; 32];
        bytes[0] = first;
        let key = hex::encode(bytes);
        let decodes = ed25519_dalek::VerifyingKey::from_bytes(&bytes).is_ok();
        let outcome = verify_signature(b"", "abcd", &key);
        if decodes {
            assert_eq!(outcome, Err(CryptoError::InvalidSignatureEncoding));
            assert_eq!(verify_signature(b"", SIGNATURE_OF_EMPTY, &key), Ok(false));
        } else {
            assert_eq!(outcome, Err(CryptoError::InvalidKeyEncoding));
            assert_eq!(
                verify_signature(b"", SIGNATURE_OF_EMPTY, &key),
                Err(CryptoError::InvalidKeyEncoding)
            );
            refused += 1;
        }
    }
    assert!(refused > 0);
}

#[test]
fn generated_keys_are_pairwise_distinct() {
    let mut private = std::collections::HashSet::new();
    let mut public = std::collections::HashSet::new();
    for _ in 0..1000 {
        let pair = generate_keypair();
        assert!(private.insert(pair.private_key));
        assert!(public.insert(pair.public_key));
    }
    assert_eq!(private.len(), 1000);
    assert_eq!(public.len(), 1000);
}

#[test]
fn package_is_digest_signature_over_digest_text_and_public_key() {
    let package = generate_signature_package(b"abc", SECRET).unwrap();
    assert_eq!(package.digest, hash(b"abc"));
    assert_eq!(package.public_key, PUBLIC);
    assert_eq!(
        Ok(package.signature.clone()),
        generate_signature(package.digest.as_bytes(), SECRET)
    );
    assert_ne!(Ok(package.signature.clone()), generate_signature(b"abc", SECRET));
    assert_eq!(
        verify_signature_package(b"abc", &package.digest, &package.signature, &package.public_key),
        Ok(true)
    );
    assert_eq!(generate_signature_package(b"abc", "zz"), Err(CryptoError::InvalidKeyEncoding));
    assert_eq!(generate_signature_package(b"abc", "00"), Err(CryptoError::InvalidKeyLength));
}

#[test]
fn package_with_wrong_digest_is_false_at_once() {
    let package = generate_signature_package(b"abc", SECRET).unwrap();
    assert_eq!(
        verify_signature_package(b"abd", &package.digest, &package.signature, &package.public_key),
        Ok(false)
    );
    assert_eq!(verify_signature_package(b"abd", &package.digest, "not hex", "zz"), Ok(false));
    assert_eq!(
        verify_signature_package(b"abc", &package.digest, "not hex", "zz"),
        Err(CryptoError::InvalidSignatureEncoding)
    );
    let other = generate_signature_package(b"abd", SECRET).unwrap();
    assert_eq!(
        verify_signature_package(b"abc", &package.digest, &other.signature, &package.public_key),
        Ok(false)
    );
    assert_eq!(
        verify_signature_package(
            b"abc",
            &package.digest.to_uppercase(),
            &package.signature,
            &package.public_key
        ),
        Ok(false)
    );
}
