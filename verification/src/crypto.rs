//! Content digests, Ed25519 signatures, and the provenance packages that
//! bind the two.

use crate::hexcode::{
    ascii_lower, ascii_lowercase, decode_hex, encode_hex, hex_bytes, hex_string, is_hex_string,
    lemma_hex_round_trip, lemma_hex_string_is_lowercase,
};
use crate::text::to_chars;
use ed25519_dalek::{Signer, Verifier};
use sha2::Digest;
use vstd::prelude::*;
use vstd::utf8::encode_utf8;

verus! {

/// Why key or signature material was refused. A refusal is distinct from a
/// signature that is well formed but does not verify: that is `Ok(false)`.
#[derive(Clone, Copy, Debug, PartialEq, Eq)]
pub enum CryptoError {
    /// A key is not hexadecimal text, or its bytes are no Ed25519 public key.
    InvalidKeyEncoding,
    /// A key decodes to a number of bytes other than 32.
    InvalidKeyLength,
    /// A signature is not hexadecimal text of 64 bytes.
    InvalidSignatureEncoding,
}

/// A signing key and its verifying key, each as 64 hexadecimal digits.
#[derive(Clone, Debug, PartialEq, Eq)]
pub struct KeyPair {
    pub private_key: String,
    pub public_key: String,
}

/// A digest of some content, a signature over the digest's text, and the key
/// under which the signature verifies.
#[derive(Clone, Debug, PartialEq, Eq)]
pub struct ProvenancePackage {
    pub digest: String,
    pub signature: String,
    pub public_key: String,
}

/// The SHA-256 digest of `data`.
pub uninterp spec fn sha256(data: Seq<u8>) -> Seq<u8>;

/// The Ed25519 public key that belongs to a 32-byte secret key.
pub uninterp spec fn ed25519_public_key(secret: Seq<u8>) -> Seq<u8>;

/// The Ed25519 signature of `message` under a 32-byte secret key.
pub uninterp spec fn ed25519_signature(secret: Seq<u8>, message: Seq<u8>) -> Seq<u8>;

/// Whether 32 bytes decode to an Ed25519 public key.
pub uninterp spec fn ed25519_key_decodes(public: Seq<u8>) -> bool;

/// Whether a 64-byte signature verifies for `message` under a public key that
/// decodes.
pub uninterp spec fn ed25519_verifies(
    public: Seq<u8>,
    message: Seq<u8>,
    signature: Seq<u8>,
) -> bool;

/// `ed25519_dalek::SignatureError`, carried through unread.
#[verifier::external_type_specification]
#[verifier::external_body]
pub struct ExSignatureError(ed25519_dalek::SignatureError);

/// `Sha256::digest` of the `sha2` crate: the 32-byte SHA-256 digest, a
/// function of the input alone.
#[verifier::external_body]
fn sha256_digest(data: &[u8]) -> (digest: [u8; 32])
    ensures
        digest@ == sha256(data@),
{
    sha2::Sha256::digest(data).into()
}

/// `SigningKey::generate` with the operating system's random source: 32
/// secret bytes, of which nothing is promised.
#[verifier::external_body]
fn random_secret() -> (secret: [u8; 32]) {
    ed25519_dalek::SigningKey::generate(&mut rand::rngs::OsRng).to_bytes()
}

/// `SigningKey::verifying_key`: the public key of a secret key, a function of
/// the secret alone.
#[verifier::external_body]
fn public_key_of(secret: &[u8; 32]) -> (public: [u8; 32])
    ensures
        public@ == ed25519_public_key(secret@),
{
    ed25519_dalek::SigningKey::from_bytes(secret).verifying_key().to_bytes()
}

/// Whether `public` is 32 bytes that decode to a key under which the 64
/// bytes of `signature` verify for `message`.
pub open spec fn signature_accepted(public: Seq<u8>, message: Seq<u8>, signature: Seq<u8>) -> bool {
    &&& public.len() == 32
    &&& signature.len() == 64
    &&& ed25519_key_decodes(public)
    &&& ed25519_verifies(public, message, signature)
}

/// `Signer::sign` on a `SigningKey`: Ed25519 signing is deterministic, so the
/// signature is a function of secret and message. The second clause is the
/// scheme's correctness: the public half of the key pair decodes, and the
/// signature verifies under it.
#[verifier::external_body]
fn sign_message(secret: &[u8; 32], message: &[u8]) -> (signature: [u8; 64])
    ensures
        signature@ == ed25519_signature(secret@, message@),
        signature_accepted(ed25519_public_key(secret@), message@, signature@),
{
    ed25519_dalek::SigningKey::from_bytes(secret).sign(message).to_bytes()
}

/// `VerifyingKey::from_bytes`: whether 32 bytes decompress to a curve point.
#[verifier::external_body]
fn check_public_key(public: &[u8; 32]) -> (r: Result<(), ed25519_dalek::SignatureError>)
    ensures
        r is Ok <==> ed25519_key_decodes(public@),
{
    ed25519_dalek::VerifyingKey::from_bytes(public)?;
    Ok(())
}

/// `Verifier::verify` on a `VerifyingKey`: an error where the key does not
/// decode, otherwise whether the signature is valid for the message.
#[verifier::external_body]
fn verify_message(public: &[u8; 32], message: &[u8], signature: &[u8; 64]) -> (r: Result<
    bool,
    ed25519_dalek::SignatureError,
>)
    ensures
        r is Ok <==> ed25519_key_decodes(public@),
        r matches Ok(valid) ==> valid == ed25519_verifies(public@, message@, signature@),
{
    let key = ed25519_dalek::VerifyingKey::from_bytes(public)?;
    Ok(key.verify(message, &ed25519_dalek::Signature::from_bytes(signature)).is_ok())
}

/// The canonical text of the digest of `data`: 64 lowercase hexadecimal
/// digits.
pub open spec fn digest_hex(data: Seq<u8>) -> Seq<char> {
    hex_string(sha256(data))
}

/// Whether two texts are equal up to the case of ASCII letters.
pub open spec fn eq_ignoring_case(a: Seq<char>, b: Seq<char>) -> bool {
    ascii_lowercase(a) == ascii_lowercase(b)
}

/// Whether `candidate` is the digest of `data`, in either case.
pub open spec fn hash_matches(candidate: Seq<char>, data: Seq<u8>) -> bool {
    eq_ignoring_case(candidate, digest_hex(data))
}

/// The digest of `data` as 64 lowercase hexadecimal digits. The same data
/// always gives the same digest.
pub fn hash(data: &[u8]) -> (digest: String)
    ensures
        digest@ == digest_hex(data@),
        digest@.len() == 64,
        is_hex_string(digest@),
        ascii_lowercase(digest@) == digest@,
{
    let raw = sha256_digest(data);
    proof {
        lemma_hex_round_trip(raw@);
        lemma_hex_string_is_lowercase(raw@);
    }
    encode_hex(raw.as_slice())
}

/// `c` with an ASCII capital letter replaced by its small letter.
fn lower(c: char) -> (r: char)
    ensures
        r == ascii_lower(c),
{
    if 'A' <= c && c <= 'Z' {
        ((c as u8) + 32) as char
    } else {
        c
    }
}

/// Compares two texts up to the case of ASCII letters.
pub fn equal_ignoring_case(a: &str, b: &str) -> (equal: bool)
    ensures
        equal == eq_ignoring_case(a@, b@),
{
    let left = to_chars(a);
    let right = to_chars(b);
    if left.len() != right.len() {
        assert(ascii_lowercase(a@).len() != ascii_lowercase(b@).len());
        return false;
    }
    let mut i: usize = 0;
    while i < left.len()
        invariant
            left@ == a@,
            right@ == b@,
            left.len() == right.len(),
            i <= left.len(),
            forall|j: int| 0 <= j < i ==> ascii_lower(a@[j]) == ascii_lower(b@[j]),
        decreases left.len() - i,
    {
        if lower(left[i]) != lower(right[i]) {
            assert(ascii_lowercase(a@)[i as int] != ascii_lowercase(b@)[i as int]);
            return false;
        }
        i += 1;
    }
    assert(ascii_lowercase(a@) =~= ascii_lowercase(b@));
    true
}

/// Recomputes the digest of `data` and compares it with `candidate`, ignoring
/// the case of the hexadecimal letters.
pub fn verify_hash(candidate: &str, data: &[u8]) -> (matches: bool)
    ensures
        matches == hash_matches(candidate@, data@),
{
    let digest = hash(data);
    equal_ignoring_case(candidate, digest.as_str())
}

/// The digest that `hash` gives for some data is accepted by `verify_hash`
/// for the same data.
pub proof fn lemma_hash_verifies(data: Seq<u8>)
    ensures
        hash_matches(digest_hex(data), data),
{
}

/// The bytes of a key given as hexadecimal text, or why the text is refused.
pub open spec fn key_bytes(key: Seq<char>) -> Result<Seq<u8>, CryptoError> {
    if !is_hex_string(key) {
        Err(CryptoError::InvalidKeyEncoding)
    } else if hex_bytes(key).len() != 32 {
        Err(CryptoError::InvalidKeyLength)
    } else {
        Ok(hex_bytes(key))
    }
}

/// The text of the public key that belongs to a private key given as text.
pub open spec fn public_key_hex(private_key: Seq<char>) -> Seq<char> {
    hex_string(ed25519_public_key(hex_bytes(private_key)))
}

/// What signing `data` under `private_key` gives: the signature as 128
/// lowercase hexadecimal digits, or why the key is refused.
pub open spec fn sign_outcome(data: Seq<u8>, private_key: Seq<char>) -> Result<
    Seq<char>,
    CryptoError,
> {
    match key_bytes(private_key) {
        Err(e) => Err(e),
        Ok(secret) => Ok(hex_string(ed25519_signature(secret, data))),
    }
}

/// What verifying gives. Malformed material is refused in this order: the
/// signature's text, the key's text, the key's length, the key's bytes, the
/// signature's length. Well-formed material gives the verdict of Ed25519.
pub open spec fn verify_outcome(
    data: Seq<u8>,
    signature: Seq<char>,
    public_key: Seq<char>,
) -> Result<bool, CryptoError> {
    if !is_hex_string(signature) {
        Err(CryptoError::InvalidSignatureEncoding)
    } else {
        match key_bytes(public_key) {
            Err(e) => Err(e),
            Ok(public) => if !ed25519_key_decodes(public) {
                Err(CryptoError::InvalidKeyEncoding)
            } else if hex_bytes(signature).len() != 64 {
                Err(CryptoError::InvalidSignatureEncoding)
            } else {
                Ok(ed25519_verifies(public, data, hex_bytes(signature)))
            },
        }
    }
}

/// What verifying a package gives: `Ok(false)` as soon as the digest is not
/// that of the data, whatever the signature and the key are; otherwise the
/// outcome of verifying the signature over the digest's text.
pub open spec fn package_outcome(
    data: Seq<u8>,
    digest: Seq<char>,
    signature: Seq<char>,
    public_key: Seq<char>,
) -> Result<bool, CryptoError> {
    if !hash_matches(digest, data) {
        Ok(false)
    } else {
        verify_outcome(encode_utf8(digest), signature, public_key)
    }
}

/// 32 bytes as an array.
fn to_array_32(bytes: &Vec<u8>) -> (out: [u8; 32])
    requires
        bytes.len() == 32,
    ensures
        out@ == bytes@,
{
    let mut out = [0u8; 32];
    let mut i: usize = 0;
    while i < 32
        invariant
            bytes.len() == 32,
            i <= 32,
            forall|j: int| 0 <= j < i ==> out@[j] == bytes@[j],
        decreases 32 - i,
    {
        out[i] = bytes[i];
        i += 1;
    }
    assert(out@ =~= bytes@);
    out
}

/// 64 bytes as an array.
fn to_array_64(bytes: &Vec<u8>) -> (out: [u8; 64])
    requires
        bytes.len() == 64,
    ensures
        out@ == bytes@,
{
    let mut out = [0u8; 64];
    let mut i: usize = 0;
    while i < 64
        invariant
            bytes.len() == 64,
            i <= 64,
            forall|j: int| 0 <= j < i ==> out@[j] == bytes@[j],
        decreases 64 - i,
    {
        out[i] = bytes[i];
        i += 1;
    }
    assert(out@ =~= bytes@);
    out
}

/// Reads a key of 32 bytes from hexadecimal text.
pub fn decode_key(key_hex: &str) -> (r: Result<[u8; 32], CryptoError>)
    ensures
        match r {
            Ok(key) => key_bytes(key_hex@) == Ok::<Seq<u8>, CryptoError>(key@),
            Err(e) => key_bytes(key_hex@) == Err::<Seq<u8>, CryptoError>(e),
        },
{
    match decode_hex(key_hex) {
        Err(_) => Err(CryptoError::InvalidKeyEncoding),
        Ok(bytes) => {
            if bytes.len() != 32 {
                Err(CryptoError::InvalidKeyLength)
            } else {
                Ok(to_array_32(&bytes))
            }
        },
    }
}

/// The key pair of a given secret: the secret and its public key, each as 64
/// lowercase hexadecimal digits.
pub fn keypair_from_secret(secret: &[u8; 32]) -> (pair: KeyPair)
    ensures
        pair.private_key@ == hex_string(secret@),
        pair.public_key@ == hex_string(ed25519_public_key(secret@)),
        pair.public_key@ == public_key_hex(pair.private_key@),
        key_bytes(pair.private_key@) == Ok::<Seq<u8>, CryptoError>(secret@),
{
    let public = public_key_of(secret);
    proof {
        lemma_hex_round_trip(secret@);
    }
    KeyPair {
        private_key: encode_hex(secret.as_slice()),
        public_key: encode_hex(public.as_slice()),
    }
}

/// A fresh key pair from the operating system's random source. Which secret
/// is drawn is not determined; the pair is that of the secret drawn.
pub fn generate_keypair() -> (pair: KeyPair)
    ensures
        key_bytes(pair.private_key@) is Ok,
        pair.private_key@ == hex_string(hex_bytes(pair.private_key@)),
        pair.public_key@ == public_key_hex(pair.private_key@),
{
    let secret = random_secret();
    keypair_from_secret(&secret)
}

/// The public key that belongs to a private key, as 64 lowercase hexadecimal
/// digits.
pub fn derive_public_key(private_key_hex: &str) -> (r: Result<String, CryptoError>)
    ensures
        match r {
            Ok(public) => key_bytes(private_key_hex@) is Ok && public@ == public_key_hex(
                private_key_hex@,
            ),
            Err(e) => key_bytes(private_key_hex@) == Err::<Seq<u8>, CryptoError>(e),
        },
{
    match decode_key(private_key_hex) {
        Err(e) => Err(e),
        Ok(secret) => {
            let public = public_key_of(&secret);
            Ok(encode_hex(public.as_slice()))
        },
    }
}

/// Signs `data` with the private key given as 64 hexadecimal digits, and
/// returns the signature as 128 lowercase hexadecimal digits. The same key
/// and data always give the same signature, and that signature verifies for
/// the same data under the public key that belongs to the private key.
pub fn generate_signature(data: &[u8], private_key_hex: &str) -> (r: Result<String, CryptoError>)
    ensures
        match r {
            Ok(signature) => sign_outcome(data@, private_key_hex@) == Ok::<Seq<char>, CryptoError>(
                signature@,
            ),
            Err(e) => sign_outcome(data@, private_key_hex@) == Err::<Seq<char>, CryptoError>(e),
        },
        r matches Ok(signature) ==> verify_outcome(
            data@,
            signature@,
            public_key_hex(private_key_hex@),
        ) == Ok::<bool, CryptoError>(true),
{
    match decode_key(private_key_hex) {
        Err(e) => Err(e),
        Ok(secret) => {
            let signature = sign_message(&secret, data);
            proof {
                lemma_hex_round_trip(signature@);
                lemma_hex_round_trip(ed25519_public_key(secret@));
            }
            Ok(encode_hex(signature.as_slice()))
        },
    }
}

/// Verifies a signature given as hexadecimal text for `data` under a public
/// key given as hexadecimal text. Malformed material is an error; a
/// well-formed signature that does not verify is `Ok(false)`.
pub fn verify_signature(data: &[u8], signature_hex: &str, public_key_hex: &str) -> (r: Result<
    bool,
    CryptoError,
>)
    ensures
        r == verify_outcome(data@, signature_hex@, public_key_hex@),
{
    let signature_bytes = match decode_hex(signature_hex) {
        Err(_) => {
            return Err(CryptoError::InvalidSignatureEncoding);
        },
        Ok(bytes) => bytes,
    };
    let public = match decode_key(public_key_hex) {
        Err(e) => {
            return Err(e);
        },
        Ok(key) => key,
    };
    if check_public_key(&public).is_err() {
        return Err(CryptoError::InvalidKeyEncoding);
    }
    if signature_bytes.len() != 64 {
        return Err(CryptoError::InvalidSignatureEncoding);
    }
    let signature = to_array_64(&signature_bytes);
    match verify_message(&public, data, &signature) {
        Ok(valid) => Ok(valid),
        Err(_) => Err(CryptoError::InvalidKeyEncoding),
    }
}

/// Issues a provenance package for `data`: its digest, a signature over the
/// digest's text (the bytes of its 64 hexadecimal digits, not the raw data),
/// and the public key of the signer. Verifying the package against the same
/// data succeeds.
pub fn generate_signature_package(data: &[u8], private_key_hex: &str) -> (r: Result<
    ProvenancePackage,
    CryptoError,
>)
    ensures
        match r {
            Ok(package) => {
                &&& key_bytes(private_key_hex@) is Ok
                &&& package.digest@ == digest_hex(data@)
                &&& sign_outcome(encode_utf8(digest_hex(data@)), private_key_hex@) == Ok::<
                    Seq<char>,
                    CryptoError,
                >(package.signature@)
                &&& package.public_key@ == public_key_hex(private_key_hex@)
            },
            Err(e) => key_bytes(private_key_hex@) == Err::<Seq<u8>, CryptoError>(e),
        },
        r matches Ok(package) ==> package_outcome(
            data@,
            package.digest@,
            package.signature@,
            package.public_key@,
        ) == Ok::<bool, CryptoError>(true),
{
    let digest = hash(data);
    let signature = match generate_signature(digest.as_str().as_bytes(), private_key_hex) {
        Err(e) => {
            return Err(e);
        },
        Ok(signature) => signature,
    };
    let public_key = match derive_public_key(private_key_hex) {
        Err(e) => {
            return Err(e);
        },
        Ok(public_key) => public_key,
    };
    Ok(ProvenancePackage { digest, signature, public_key })
}

/// Verifies a provenance package against `data`. A digest that is not the
/// digest of `data` gives `Ok(false)` at once, before the signature or the
/// key is looked at. Otherwise the signature is verified over the digest's
/// text as it was supplied.
pub fn verify_signature_package(
    data: &[u8],
    digest: &str,
    signature: &str,
    public_key: &str,
) -> (r: Result<bool, CryptoError>)
    ensures
        r == package_outcome(data@, digest@, signature@, public_key@),
        !hash_matches(digest@, data@) ==> r == Ok::<bool, CryptoError>(false),
{
    if !verify_hash(digest, data) {
        return Ok(false);
    }
    verify_signature(digest.as_bytes(), signature, public_key)
}

} // verus!
