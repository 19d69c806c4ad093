//! Password-based encryption of sync payloads.
//!
//! An encrypted payload is the text `DT1:<algorithm>:` followed by the base64
//! (standard alphabet, padded) of `nonce (12 bytes) | salt (16 bytes) |
//! ciphertext`. The key comes from the password and the salt, by Argon2 (its
//! default parameters) or, for `aes256-gcm-pbkdf2`, by PBKDF2-HMAC-SHA256 with
//! 100 000 rounds. Text without the `DT1:` header is an older payload: its
//! algorithm is the one the caller names, and when it is shorter than a nonce
//! and a salt it is the oldest format of all, whose key is the SHA-256 of the
//! password.

use vstd::prelude::*;
use vstd::string::*;
use vstd::utf8::*;
use crate::webdav::find_byte;

use aes_gcm::aead::{Aead, AeadCore, KeyInit, OsRng};

verus! {

pub const ALG_AES_GCM: &'static str = "aes256-gcm";

pub const ALG_CHACHA: &'static str = "chacha20-poly1305";

pub const ALG_AES_GCM_PBKDF2: &'static str = "aes256-gcm-pbkdf2";

// ---------------------------------------------------------------------------
// Names of the algorithms
// ---------------------------------------------------------------------------

pub open spec fn aes_gcm_name() -> Seq<char> {
    seq!['a', 'e', 's', '2', '5', '6', '-', 'g', 'c', 'm']
}

pub open spec fn chacha_name() -> Seq<char> {
    seq!['c', 'h', 'a', 'c', 'h', 'a', '2', '0', '-', 'p', 'o', 'l', 'y', '1', '3', '0', '5']
}

pub open spec fn aes_gcm_pbkdf2_name() -> Seq<char> {
    aes_gcm_name() + seq!['-', 'p', 'b', 'k', 'd', 'f', '2']
}

/// The algorithms this library can encrypt with.
pub open spec fn is_known_algorithm(a: Seq<char>) -> bool {
    a == aes_gcm_name() || a == chacha_name() || a == aes_gcm_pbkdf2_name()
}

/// The ASCII bytes of an ASCII text.
pub open spec fn ascii_bytes(c: Seq<char>) -> Seq<u8> {
    c.map_values(|x: char| x as u8)
}

pub proof fn lemma_ascii_encode(c: Seq<char>)
    requires
        is_ascii_chars(c),
    ensures
        encode_utf8(c) == ascii_bytes(c),
{
    is_ascii_chars_encode_utf8(c);
    assert(encode_utf8(c) =~= ascii_bytes(c));
}

/// UTF-8 encoding distributes over concatenation.
pub proof fn lemma_encode_concat(a: Seq<char>, b: Seq<char>)
    ensures
        encode_utf8(a + b) == encode_utf8(a) + encode_utf8(b),
    decreases a.len(),
{
    if a.len() == 0 {
        assert(a + b =~= b);
        assert(encode_utf8(a) =~= Seq::<u8>::empty());
        assert(encode_utf8(a) + encode_utf8(b) =~= encode_utf8(b));
    } else {
        assert((a + b).drop_first() =~= a.drop_first() + b);
        assert((a + b)[0] == a[0]);
        lemma_encode_concat(a.drop_first(), b);
        assert(encode_utf8(a + b) =~= encode_scalar(a[0] as u32) + (encode_utf8(a.drop_first())
            + encode_utf8(b)));
    }
}

/// Texts are equal exactly when their UTF-8 encodings are.
pub proof fn lemma_encode_injective(a: Seq<char>, b: Seq<char>)
    ensures
        (encode_utf8(a) == encode_utf8(b)) == (a == b),
{
    encode_utf8_decode_utf8(a);
    encode_utf8_decode_utf8(b);
}

pub proof fn lemma_algorithm_names()
    ensures
        aes_gcm_name() == "aes256-gcm"@,
        chacha_name() == "chacha20-poly1305"@,
        aes_gcm_pbkdf2_name() == "aes256-gcm-pbkdf2"@,
        is_ascii_chars(aes_gcm_name()),
        is_ascii_chars(chacha_name()),
        is_ascii_chars(aes_gcm_pbkdf2_name()),
        !aes_gcm_name().contains(':'),
        !chacha_name().contains(':'),
        !aes_gcm_pbkdf2_name().contains(':'),
{
    reveal_strlit("aes256-gcm");
    reveal_strlit("chacha20-poly1305");
    reveal_strlit("aes256-gcm-pbkdf2");
    assert(aes_gcm_name() =~= "aes256-gcm"@);
    assert(chacha_name() =~= "chacha20-poly1305"@);
    assert(aes_gcm_pbkdf2_name() =~= "aes256-gcm-pbkdf2"@);
}

/// Whether two texts are equal.
pub(crate) fn str_eq(a: &str, b: &str) -> (r: bool)
    ensures
        r == (a@ == b@),
{
    let x = a.as_bytes();
    let y = b.as_bytes();
    proof {
        lemma_encode_injective(a@, b@);
    }
    if x.len() != y.len() {
        return false;
    }
    let mut i: usize = 0;
    while i < x.len()
        invariant
            x@.len() == y@.len(),
            (x@ == y@) == (a@ == b@),
            i <= x@.len(),
            forall|k: int| 0 <= k < i ==> x@[k] == y@[k],
        decreases x@.len() - i,
    {
        if x[i] != y[i] {
            return false;
        }
        i += 1;
    }
    assert(x@ =~= y@);
    true
}

/// The algorithm used when none is configured.
pub fn default_algorithm() -> (r: &'static str)
    ensures
        r@ == aes_gcm_name(),
{
    proof {
        lemma_algorithm_names();
    }
    ALG_AES_GCM
}

/// Whether `alg` names one of the supported algorithms.
pub fn is_valid_algorithm(alg: &str) -> (r: bool)
    ensures
        r == is_known_algorithm(alg@),
{
    proof {
        lemma_algorithm_names();
    }
    str_eq(alg, ALG_AES_GCM) || str_eq(alg, ALG_CHACHA) || str_eq(alg, ALG_AES_GCM_PBKDF2)
}

// ---------------------------------------------------------------------------
// The outside primitives
// ---------------------------------------------------------------------------

/// Names the ciphertext, tag appended, that AES-256-GCM makes of `plaintext`
/// under `key` and `nonce` with no associated data.
pub uninterp spec fn aes256_gcm_seal(key: Seq<u8>, nonce: Seq<u8>, plaintext: Seq<u8>) -> Seq<u8>;

/// Names what AES-256-GCM decryption gives for `ciphertext` under `key` and
/// `nonce` with no associated data: the plaintext, or nothing when it fails.
pub uninterp spec fn aes256_gcm_open(key: Seq<u8>, nonce: Seq<u8>, ciphertext: Seq<u8>) -> Option<
    Seq<u8>,
>;

/// Names the ciphertext, tag appended, that ChaCha20-Poly1305 makes of
/// `plaintext` under `key` and `nonce` with no associated data.
pub uninterp spec fn chacha20_poly1305_seal(key: Seq<u8>, nonce: Seq<u8>, plaintext: Seq<u8>) -> Seq<
    u8,
>;

/// Names what ChaCha20-Poly1305 decryption gives for `ciphertext` under `key`
/// and `nonce` with no associated data.
pub uninterp spec fn chacha20_poly1305_open(
    key: Seq<u8>,
    nonce: Seq<u8>,
    ciphertext: Seq<u8>,
) -> Option<Seq<u8>>;

/// Names the 32-byte key that Argon2 with its default parameters derives from
/// `password` and `salt`.
pub uninterp spec fn argon2_default_key(password: Seq<u8>, salt: Seq<u8>) -> Seq<u8>;

/// Names the 32-byte key that PBKDF2-HMAC-SHA256 derives from `password` and
/// `salt` in `rounds` rounds.
pub uninterp spec fn pbkdf2_hmac_sha256(password: Seq<u8>, salt: Seq<u8>, rounds: u32) -> Seq<u8>;

/// Names the SHA-256 digest of `data`.
pub uninterp spec fn sha256_digest(data: Seq<u8>) -> Seq<u8>;

/// Names the text that base64's standard engine (standard alphabet, padded)
/// makes of `data`.
pub uninterp spec fn base64_standard_encode(data: Seq<u8>) -> Seq<char>;

/// Names what base64's standard engine decodes from `input`: the bytes, or
/// the text of its decoding error.
pub uninterp spec fn base64_standard_decode(input: Seq<u8>) -> Result<Seq<u8>, Seq<char>>;

/// The longest plaintext AES-GCM accepts: 2^36 bytes.
pub open spec fn aes_gcm_max() -> int {
    0x10_0000_0000
}

/// Whether ChaCha20-Poly1305 accepts a plaintext of `n` bytes: fewer than
/// 2^32 - 1 blocks of 64 bytes.
pub open spec fn chacha_fits(n: int) -> bool {
    n / 64 < 0xffff_ffff
}

/// A 12-byte nonce drawn from the operating system's random source
/// (`AeadCore::generate_nonce` with `OsRng`). Claimed: its length. Its bytes
/// are random and not stated; `OsRng` panics when the system source fails,
/// which no clause can rule out.
#[verifier::external_body]
fn random_nonce() -> (r: Vec<u8>)
    ensures
        r@.len() == 12,
{
    aes_gcm::Aes256Gcm::generate_nonce(&mut OsRng).to_vec()
}

/// aes-gcm's `Aes256Gcm::encrypt` under a 32-byte key and a 12-byte nonce.
/// Claimed, from aes-gcm 0.10.3's source: it fails exactly when the plaintext
/// is longer than 2^36 bytes, with aead's error whose text is `aead::Error`;
/// otherwise the ciphertext is the named seal, 16 bytes (the tag) longer than
/// the plaintext, and decrypting it under the same key and nonce gives the
/// plaintext back, as an AEAD must.
#[verifier::external_body]
fn aes256_gcm_encrypt(key: &[u8], nonce: &[u8], plaintext: &[u8]) -> (r: Result<Vec<u8>, String>)
    requires
        key@.len() == 32,
        nonce@.len() == 12,
    ensures
        match r {
            Ok(c) => {
                &&& plaintext@.len() <= aes_gcm_max()
                &&& c@ == aes256_gcm_seal(key@, nonce@, plaintext@)
                &&& c@.len() == plaintext@.len() + 16
                &&& aes256_gcm_open(key@, nonce@, c@) == Some(plaintext@)
            },
            Err(e) => plaintext@.len() > aes_gcm_max() && e@ == "aead::Error"@,
        },
{
    let cipher = aes_gcm::Aes256Gcm::new_from_slice(key).unwrap();
    cipher.encrypt(aes_gcm::Nonce::from_slice(nonce), plaintext).map_err(|e| e.to_string())
}

/// aes-gcm's `Aes256Gcm::decrypt` under a 32-byte key and a 12-byte nonce.
/// Claimed: the result is the named opening (any failure gives none).
#[verifier::external_body]
fn aes256_gcm_decrypt(key: &[u8], nonce: &[u8], ciphertext: &[u8]) -> (r: Option<Vec<u8>>)
    requires
        key@.len() == 32,
        nonce@.len() == 12,
    ensures
        match r {
            Some(p) => aes256_gcm_open(key@, nonce@, ciphertext@) == Some(p@),
            None => aes256_gcm_open(key@, nonce@, ciphertext@) is None,
        },
{
    let cipher = aes_gcm::Aes256Gcm::new_from_slice(key).unwrap();
    cipher.decrypt(aes_gcm::Nonce::from_slice(nonce), ciphertext).ok()
}

/// chacha20poly1305's `ChaCha20Poly1305::encrypt` under a 32-byte key and a
/// 12-byte nonce. Claimed, from chacha20poly1305 0.10.1's source: it fails
/// exactly when the plaintext has 2^32 - 1 or more 64-byte blocks, with the
/// text `aead::Error`; otherwise the ciphertext is the named seal, 16 bytes
/// longer than the plaintext, and decrypting it gives the plaintext back.
#[verifier::external_body]
fn chacha20_poly1305_encrypt(key: &[u8], nonce: &[u8], plaintext: &[u8]) -> (r: Result<
    Vec<u8>,
    String,
>)
    requires
        key@.len() == 32,
        nonce@.len() == 12,
    ensures
        match r {
            Ok(c) => {
                &&& chacha_fits(plaintext@.len() as int)
                &&& c@ == chacha20_poly1305_seal(key@, nonce@, plaintext@)
                &&& c@.len() == plaintext@.len() + 16
                &&& chacha20_poly1305_open(key@, nonce@, c@) == Some(plaintext@)
            },
            Err(e) => !chacha_fits(plaintext@.len() as int) && e@ == "aead::Error"@,
        },
{
    let cipher = chacha20poly1305::ChaCha20Poly1305::new_from_slice(key).unwrap();
    cipher.encrypt(chacha20poly1305::Nonce::from_slice(nonce), plaintext).map_err(|e| e.to_string())
}

/// chacha20poly1305's `ChaCha20Poly1305::decrypt` under a 32-byte key and a
/// 12-byte nonce. Claimed: the result is the named opening.
#[verifier::external_body]
fn chacha20_poly1305_decrypt(key: &[u8], nonce: &[u8], ciphertext: &[u8]) -> (r: Option<Vec<u8>>)
    requires
        key@.len() == 32,
        nonce@.len() == 12,
    ensures
        match r {
            Some(p) => chacha20_poly1305_open(key@, nonce@, ciphertext@) == Some(p@),
            None => chacha20_poly1305_open(key@, nonce@, ciphertext@) is None,
        },
{
    let cipher = chacha20poly1305::ChaCha20Poly1305::new_from_slice(key).unwrap();
    cipher.decrypt(chacha20poly1305::Nonce::from_slice(nonce), ciphertext).ok()
}

/// argon2's `Argon2::default().hash_password_into` into a 32-byte key.
/// Claimed: the key is the named one. argon2 0.5.3 refuses a password longer
/// than 2^32 - 1 bytes or a salt shorter than 8 or longer than 2^32 - 1 bytes,
/// and the caller panics on that, so `requires` rules those out.
#[verifier::external_body]
fn argon2_key(password: &[u8], salt: &[u8]) -> (r: Vec<u8>)
    requires
        password@.len() <= 0xffff_ffff,
        8 <= salt@.len() <= 0xffff_ffff,
    ensures
        r@ == argon2_default_key(password@, salt@),
        r@.len() == 32,
{
    let mut key = [0u8; 32];
    argon2::Argon2::default().hash_password_into(password, salt, &mut key).expect(
        "Argon2 key derivation failed",
    );
    key.to_vec()
}

/// pbkdf2's `pbkdf2::<Hmac<Sha256>>` into a 32-byte key. Claimed: the key is
/// the named one. HMAC takes keys of any length, so the call never fails.
#[verifier::external_body]
fn pbkdf2_key(password: &[u8], salt: &[u8], rounds: u32) -> (r: Vec<u8>)
    ensures
        r@ == pbkdf2_hmac_sha256(password@, salt@, rounds),
        r@.len() == 32,
{
    let mut key = [0u8; 32];
    pbkdf2::pbkdf2::<hmac::Hmac<sha2::Sha256>>(password, salt, rounds, &mut key).ok();
    key.to_vec()
}

/// sha2's `Sha256::digest`. Claimed: the named 32-byte digest.
#[verifier::external_body]
fn sha256(data: &[u8]) -> (r: Vec<u8>)
    ensures
        r@ == sha256_digest(data@),
        r@.len() == 32,
{
    <sha2::Sha256 as sha2::Digest>::digest(data).to_vec()
}

/// Decoding the text `t` with base64's standard engine gives `data`.
pub open spec fn decodes_to(t: Seq<char>, data: Seq<u8>) -> bool {
    base64_standard_decode(encode_utf8(t)) == Ok::<Seq<u8>, Seq<char>>(data)
}

/// base64's `STANDARD.encode`. Claimed: the named text, which is ASCII (the
/// standard alphabet and `=`), and which the same engine decodes back to `data`.
#[verifier::external_body]
fn base64_encode(data: &[u8]) -> (r: String)
    ensures
        r@ == base64_standard_encode(data@),
        is_ascii_chars(r@),
        decodes_to(r@, data@),
{
    base64::Engine::encode(&base64::engine::general_purpose::STANDARD, data)
}

/// base64's `STANDARD.decode`, its error turned into its text. Claimed: the
/// named result.
#[verifier::external_body]
fn base64_decode(input: &[u8]) -> (r: Result<Vec<u8>, String>)
    ensures
        match r {
            Ok(v) => base64_standard_decode(input@) matches Ok(d) && d == v@,
            Err(e) => base64_standard_decode(input@) matches Err(m) && m == e@,
        },
{
    base64::Engine::decode(&base64::engine::general_purpose::STANDARD, input).map_err(|e| e.to_string())
}

// ---------------------------------------------------------------------------
// The payload format
// ---------------------------------------------------------------------------

const SALT_LEN: usize = 16;

const PREFIX: &'static str = "DT1";

/// The number of PBKDF2 rounds.
const PBKDF2_ROUNDS: u32 = 100_000;

/// `DT1:` as text.
pub open spec fn header_chars() -> Seq<char> {
    seq!['D', 'T', '1', ':']
}

/// `DT1:` as bytes.
pub open spec fn header_bytes() -> Seq<u8> {
    seq![0x44u8, 0x54u8, 0x31u8, 0x3au8]
}

pub open spec fn decrypt_failed() -> Seq<char> {
    "解密失败（密码错误或数据损坏）"@
}

pub open spec fn unsupported_algorithm() -> Seq<char> {
    "不支持的加密算法"@
}

pub open spec fn malformed_header() -> Seq<char> {
    "加密数据头部格式错误"@
}

pub open spec fn too_short() -> Seq<char> {
    "数据太短"@
}

/// The algorithm that a requested one resolves to: itself when supported,
/// AES-256-GCM otherwise.
pub open spec fn chosen_algorithm(a: Seq<char>) -> Seq<char> {
    if is_known_algorithm(a) {
        a
    } else {
        aes_gcm_name()
    }
}

/// The key for a salt and an algorithm name given as bytes: PBKDF2 for
/// `aes256-gcm-pbkdf2`, Argon2 for any other name.
pub open spec fn derived_key(pw: Seq<u8>, salt: Seq<u8>, alg: Seq<u8>) -> Seq<u8> {
    if alg == encode_utf8(aes_gcm_pbkdf2_name()) {
        pbkdf2_hmac_sha256(pw, salt, 100_000)
    } else {
        argon2_default_key(pw, salt)
    }
}

/// Whether the cipher of algorithm `alg` accepts `n` bytes of plaintext.
pub open spec fn seal_fits(alg: Seq<char>, n: int) -> bool {
    if alg == chacha_name() {
        chacha_fits(n)
    } else {
        n <= aes_gcm_max()
    }
}

/// The ciphertext that algorithm `alg` makes.
pub open spec fn seal_with(alg: Seq<char>, key: Seq<u8>, nonce: Seq<u8>, data: Seq<u8>) -> Seq<u8> {
    if alg == chacha_name() {
        chacha20_poly1305_seal(key, nonce, data)
    } else {
        aes256_gcm_seal(key, nonce, data)
    }
}

/// The ciphertext of `data` for algorithm `alg`, nonce and salt, under the
/// key derived from the password bytes `pw` and the salt.
pub open spec fn sealed_ct(
    data: Seq<u8>,
    pw: Seq<u8>,
    alg: Seq<char>,
    nonce: Seq<u8>,
    salt: Seq<u8>,
) -> Seq<u8> {
    seal_with(alg, derived_key(pw, salt, encode_utf8(alg)), nonce, data)
}

/// The encrypted text of `data` for algorithm `alg`, nonce and salt.
pub open spec fn sealed_text(
    data: Seq<u8>,
    pw: Seq<u8>,
    alg: Seq<char>,
    nonce: Seq<u8>,
    salt: Seq<u8>,
) -> Seq<char> {
    header_chars() + alg + seq![':'] + base64_standard_encode(
        nonce + salt + sealed_ct(data, pw, alg, nonce, salt),
    )
}

/// Opening a ciphertext with the algorithm named by the bytes `alg`.
pub open spec fn open_with(alg: Seq<u8>, key: Seq<u8>, nonce: Seq<u8>, ct: Seq<u8>) -> Result<
    Seq<u8>,
    Seq<char>,
> {
    if alg == encode_utf8(aes_gcm_name()) || alg == encode_utf8(aes_gcm_pbkdf2_name()) {
        match aes256_gcm_open(key, nonce, ct) {
            Some(p) => Ok(p),
            None => Err(decrypt_failed()),
        }
    } else if alg == encode_utf8(chacha_name()) {
        match chacha20_poly1305_open(key, nonce, ct) {
            Some(p) => Ok(p),
            None => Err(decrypt_failed()),
        }
    } else {
        Err(unsupported_algorithm())
    }
}

/// Decrypting the oldest payloads: nonce, then ciphertext under the SHA-256
/// of the password.
pub open spec fn decrypt_oldest(comb: Seq<u8>, pw: Seq<u8>) -> Result<Seq<u8>, Seq<char>> {
    if comb.len() < 12 {
        Err(too_short())
    } else {
        match aes256_gcm_open(sha256_digest(pw), comb.take(12), comb.skip(12)) {
            Some(p) => Ok(p),
            None => Err(decrypt_failed()),
        }
    }
}

/// Decrypting `nonce | salt | ciphertext` with the algorithm named by `alg`.
pub open spec fn decrypt_combined(comb: Seq<u8>, pw: Seq<u8>, alg: Seq<u8>) -> Result<
    Seq<u8>,
    Seq<char>,
> {
    if comb.len() < 28 {
        decrypt_oldest(comb, pw)
    } else {
        open_with(alg, derived_key(pw, comb.subrange(12, 28), alg), comb.take(12), comb.skip(28))
    }
}

/// Decrypting the UTF-8 bytes `enc` of a payload with password bytes `pw`;
/// `alg` is the algorithm assumed for payloads without the `DT1:` header.
pub open spec fn decrypt_text(enc: Seq<u8>, pw: Seq<u8>, alg: Seq<char>) -> Result<Seq<u8>, Seq<char>> {
    if enc.len() >= 4 && enc.take(4) == header_bytes() {
        let rest = enc.skip(4);
        match find_byte(rest, 0, 0x3au8) {
            None => Err(malformed_header()),
            Some(k) => match base64_standard_decode(rest.skip(k + 1)) {
                Err(e) => Err(e),
                Ok(comb) => decrypt_combined(comb, pw, rest.take(k)),
            },
        }
    } else {
        match base64_standard_decode(enc) {
            Err(e) => Err(e),
            Ok(comb) => decrypt_combined(comb, pw, encode_utf8(chosen_algorithm(alg))),
        }
    }
}

/// Whether the key for the algorithm named by `alg` can be derived from the
/// password bytes `pw`: Argon2 takes at most 2^32 - 1 bytes, PBKDF2 any number.
pub open spec fn key_fits(pw: Seq<u8>, alg: Seq<u8>) -> bool {
    pw.len() <= 0xffff_ffff || alg == encode_utf8(aes_gcm_pbkdf2_name())
}

/// Whether encrypting with `alg` can derive its key from `pw`.
pub open spec fn encrypt_key_fits(pw: Seq<u8>, alg: Seq<char>) -> bool {
    key_fits(pw, encode_utf8(chosen_algorithm(alg)))
}

/// Whether decrypting `nonce | salt | ciphertext` with the algorithm named by
/// `alg` can derive its key from `pw` (the oldest payloads derive none).
pub open spec fn combined_key_fits(comb: Seq<u8>, pw: Seq<u8>, alg: Seq<u8>) -> bool {
    comb.len() < 28 || key_fits(pw, alg)
}

/// Whether decrypting the payload bytes `enc` (as `decrypt_text` does) can
/// derive its key from `pw`: it holds where no key is derived at all.
pub open spec fn decrypt_key_fits(enc: Seq<u8>, pw: Seq<u8>, alg: Seq<char>) -> bool {
    if enc.len() >= 4 && enc.take(4) == header_bytes() {
        let rest = enc.skip(4);
        match find_byte(rest, 0, 0x3au8) {
            None => true,
            Some(k) => match base64_standard_decode(rest.skip(k + 1)) {
                Err(_) => true,
                Ok(comb) => combined_key_fits(comb, pw, rest.take(k)),
            },
        }
    } else {
        match base64_standard_decode(enc) {
            Err(_) => true,
            Ok(comb) => combined_key_fits(comb, pw, encode_utf8(chosen_algorithm(alg))),
        }
    }
}

pub open spec fn bytes_result(r: Result<Vec<u8>, String>) -> Result<Seq<u8>, Seq<char>> {
    match r {
        Ok(v) => Ok(v@),
        Err(e) => Err(e@),
    }
}

/// The first `c` in `x + [c] + y`, when `x` holds none, is right after `x`.
pub proof fn lemma_find_byte_after(s: Seq<u8>, from: int, k: int, c: u8)
    requires
        0 <= from <= k < s.len(),
        s[k] == c,
        forall|i: int| from <= i < k ==> s[i] != c,
    ensures
        find_byte(s, from, c) == Some(k),
    decreases k - from,
{
    if from < k {
        lemma_find_byte_after(s, from + 1, k, c);
    }
}

/// Appends `s` to `v`.
pub(crate) fn push_all(v: &mut Vec<u8>, s: &[u8])
    ensures
        final(v)@ == old(v)@ + s@,
{
    let mut i: usize = 0;
    while i < s.len()
        invariant
            i <= s@.len(),
            v@ == old(v)@ + s@.take(i as int),
        decreases s@.len() - i,
    {
        v.push(s[i]);
        i += 1;
        assert(v@ =~= old(v)@ + s@.take(i as int));
    }
    assert(s@.take(i as int) =~= s@);
}

/// Whether two byte strings are equal.
fn bytes_eq(a: &[u8], b: &[u8]) -> (r: bool)
    ensures
        r == (a@ == b@),
{
    assert(a@.subrange(0, a@.len() as int) =~= a@);
    crate::webdav::range_eq(a, 0, a.len(), b)
}

/// The key for `salt` and the algorithm named by `alg`.
fn derive_key(password: &[u8], salt: &[u8], alg: &[u8]) -> (r: Vec<u8>)
    requires
        key_fits(password@, alg@),
        salt@.len() == 16,
    ensures
        r@ == derived_key(password@, salt@, alg@),
        r@.len() == 32,
{
    proof {
        lemma_algorithm_names();
    }
    if bytes_eq(alg, ALG_AES_GCM_PBKDF2.as_bytes()) {
        pbkdf2_key(password, salt, PBKDF2_ROUNDS)
    } else {
        argon2_key(password, salt)
    }
}

/// Decrypts an oldest-format payload: a nonce then the ciphertext, under the
/// SHA-256 of the password.
fn decrypt_legacy(combined: &[u8], password: &[u8]) -> (r: Result<Vec<u8>, String>)
    ensures
        bytes_result(r) == decrypt_oldest(combined@, password@),
{
    if combined.len() < 12 {
        return Err(String::from_str("数据太短"));
    }
    let nonce = &combined[0..12];
    let ciphertext = &combined[12..combined.len()];
    assert(nonce@ =~= combined@.take(12));
    assert(ciphertext@ =~= combined@.skip(12));
    let key = sha256(password);
    match aes256_gcm_decrypt(key.as_slice(), nonce, ciphertext) {
        Some(p) => Ok(p),
        None => Err(String::from_str("解密失败（密码错误或数据损坏）")),
    }
}

/// Decrypts `nonce | salt | ciphertext` with the algorithm named by `alg`;
/// shorter input is an oldest-format payload.
fn decrypt_inner(combined: &[u8], password: &[u8], alg: &[u8]) -> (r: Result<Vec<u8>, String>)
    requires
        combined_key_fits(combined@, password@, alg@),
    ensures
        bytes_result(r) == decrypt_combined(combined@, password@, alg@),
{
    if combined.len() < 12 + SALT_LEN {
        return decrypt_legacy(combined, password);
    }
    let nonce_bytes = &combined[0..12];
    let salt_bytes = &combined[12..28];
    let ciphertext = &combined[28..combined.len()];
    assert(nonce_bytes@ =~= combined@.take(12));
    assert(salt_bytes@ =~= combined@.subrange(12, 28));
    assert(ciphertext@ =~= combined@.skip(28));
    let key = derive_key(password, salt_bytes, alg);
    proof {
        lemma_algorithm_names();
    }
    if bytes_eq(alg, ALG_AES_GCM.as_bytes()) || bytes_eq(alg, ALG_AES_GCM_PBKDF2.as_bytes()) {
        match aes256_gcm_decrypt(key.as_slice(), nonce_bytes, ciphertext) {
            Some(p) => Ok(p),
            None => Err(String::from_str("解密失败（密码错误或数据损坏）")),
        }
    } else if bytes_eq(alg, ALG_CHACHA.as_bytes()) {
        match chacha20_poly1305_decrypt(key.as_slice(), nonce_bytes, ciphertext) {
            Some(p) => Ok(p),
            None => Err(String::from_str("解密失败（密码错误或数据损坏）")),
        }
    } else {
        Err(String::from_str("不支持的加密算法"))
    }
}

/// Decrypts a payload made by `encrypt`, or an older one (see the module
/// comment); `algorithm` applies only to payloads without the `DT1:` header.
pub fn decrypt(encoded: &str, password: &str, algorithm: &str) -> (r: Result<Vec<u8>, String>)
    requires
        decrypt_key_fits(encode_utf8(encoded@), encode_utf8(password@), algorithm@),
    ensures
        bytes_result(r) == decrypt_text(encode_utf8(encoded@), encode_utf8(password@), algorithm@),
{
    let enc = encoded.as_bytes();
    let pw = password.as_bytes();
    if enc.len() >= 4 && enc[0] == 0x44u8 && enc[1] == 0x54u8 && enc[2] == 0x31u8 && enc[3] == 0x3au8 {
        assert(enc@.take(4) =~= header_bytes());
        let rest = &enc[4..enc.len()];
        assert(rest@ =~= enc@.skip(4));
        match crate::webdav::find_byte_exec(rest, 0, 0x3au8) {
            None => Err(String::from_str("加密数据头部格式错误")),
            Some(k) => {
                proof {
                    crate::webdav::lemma_find_byte_bounds(rest@, 0, 0x3au8);
                }
                let alg = &rest[0..k];
                let body = &rest[k + 1..rest.len()];
                assert(alg@ =~= rest@.take(k as int));
                assert(body@ =~= rest@.skip(k + 1));
                match base64_decode(body) {
                    Err(e) => Err(e),
                    Ok(combined) => decrypt_inner(combined.as_slice(), pw, alg),
                }
            },
        }
    } else {
        proof {
            if enc@.len() >= 4 && enc@.take(4) == header_bytes() {
                assert(enc@.take(4)[0] == enc@[0]);
                assert(enc@.take(4)[1] == enc@[1]);
                assert(enc@.take(4)[2] == enc@[2]);
                assert(enc@.take(4)[3] == enc@[3]);
            }
        }
        match base64_decode(enc) {
            Err(e) => Err(e),
            Ok(combined) => {
                let alg = if is_valid_algorithm(algorithm) {
                    algorithm
                } else {
                    ALG_AES_GCM
                };
                proof {
                    lemma_algorithm_names();
                }
                decrypt_inner(combined.as_slice(), pw, alg.as_bytes())
            },
        }
    }
}

/// Whether the password's bytes fit the key derivation of the algorithm
/// named by `alg`.
fn key_derivable(password: &[u8], alg: &[u8]) -> (r: bool)
    ensures
        r == key_fits(password@, alg@),
{
    proof {
        lemma_algorithm_names();
    }
    password.len() <= 0xffff_ffff || bytes_eq(alg, ALG_AES_GCM_PBKDF2.as_bytes())
}

/// Whether `encrypt` can derive its key from `password` for `algorithm`
/// (see `encrypt_key_fits`); where it cannot, the key derivation panics.
pub fn encrypt_key_derivable(password: &str, algorithm: &str) -> (r: bool)
    ensures
        r == encrypt_key_fits(encode_utf8(password@), algorithm@),
{
    proof {
        lemma_algorithm_names();
    }
    let alg: &str = if is_valid_algorithm(algorithm) {
        algorithm
    } else {
        ALG_AES_GCM
    };
    key_derivable(password.as_bytes(), alg.as_bytes())
}

/// Whether `decrypt` can derive its key from `password` for the payload
/// bytes `encoded` (see `decrypt_key_fits`); where it cannot, the key
/// derivation panics.
pub fn decrypt_key_derivable(encoded: &[u8], password: &str, algorithm: &str) -> (r: bool)
    ensures
        r == decrypt_key_fits(encoded@, encode_utf8(password@), algorithm@),
{
    let enc = encoded;
    let pw = password.as_bytes();
    if enc.len() >= 4 && enc[0] == 0x44u8 && enc[1] == 0x54u8 && enc[2] == 0x31u8 && enc[3] == 0x3au8 {
        assert(enc@.take(4) =~= header_bytes());
        let rest = &enc[4..enc.len()];
        assert(rest@ =~= enc@.skip(4));
        match crate::webdav::find_byte_exec(rest, 0, 0x3au8) {
            None => true,
            Some(k) => {
                proof {
                    crate::webdav::lemma_find_byte_bounds(rest@, 0, 0x3au8);
                }
                let alg = &rest[0..k];
                let body = &rest[k + 1..rest.len()];
                assert(alg@ =~= rest@.take(k as int));
                assert(body@ =~= rest@.skip(k + 1));
                match base64_decode(body) {
                    Err(_) => true,
                    Ok(combined) => combined.len() < 12 + SALT_LEN || key_derivable(pw, alg),
                }
            },
        }
    } else {
        proof {
            if enc@.len() >= 4 && enc@.take(4) == header_bytes() {
                assert(enc@.take(4)[0] == enc@[0]);
                assert(enc@.take(4)[1] == enc@[1]);
                assert(enc@.take(4)[2] == enc@[2]);
                assert(enc@.take(4)[3] == enc@[3]);
            }
        }
        match base64_decode(enc) {
            Err(_) => true,
            Ok(combined) => {
                let alg = if is_valid_algorithm(algorithm) {
                    algorithm
                } else {
                    ALG_AES_GCM
                };
                proof {
                    lemma_algorithm_names();
                }
                combined.len() < 12 + SALT_LEN || key_derivable(pw, alg.as_bytes())
            },
        }
    }
}

/// The UTF-8 bytes of the supported algorithm names hold no `:`.
pub proof fn lemma_algorithm_bytes(alg: Seq<char>)
    requires
        is_known_algorithm(alg),
    ensures
        encode_utf8(alg) == ascii_bytes(alg),
        forall|i: int| 0 <= i < encode_utf8(alg).len() ==> #[trigger] encode_utf8(alg)[i] != 0x3au8,
        encode_utf8(aes_gcm_name()) != encode_utf8(chacha_name()),
        encode_utf8(aes_gcm_pbkdf2_name()) != encode_utf8(chacha_name()),
{
    lemma_algorithm_names();
    lemma_ascii_encode(alg);
    lemma_encode_injective(aes_gcm_name(), chacha_name());
    lemma_encode_injective(aes_gcm_pbkdf2_name(), chacha_name());
    assert(aes_gcm_name()[0] != chacha_name()[0]);
    assert(aes_gcm_pbkdf2_name()[0] != chacha_name()[0]);
    assert forall|i: int| 0 <= i < encode_utf8(alg).len() implies #[trigger] encode_utf8(alg)[i]
        != 0x3au8 by {
        assert(ascii_bytes(alg)[i] == alg[i] as u8);
        if alg == aes_gcm_name() {
            assert(alg[i] != ':');
        } else if alg == chacha_name() {
            assert(alg[i] != ':');
        } else {
            assert(alg[i] != ':');
        }
        assert(alg[i] as u8 != 0x3au8);
    }
}

/// Decrypting the text that `encrypt` makes gives the plaintext back, whatever
/// algorithm is assumed for unmarked payloads.
pub proof fn lemma_sealed_text_decrypts(
    data: Seq<u8>,
    pw: Seq<u8>,
    alg: Seq<char>,
    nonce: Seq<u8>,
    salt: Seq<u8>,
    other: Seq<char>,
)
    requires
        is_known_algorithm(alg),
        nonce.len() == 12,
        salt.len() == 16,
        decodes_to(
            base64_standard_encode(
                nonce + salt + seal_with(alg, derived_key(pw, salt, encode_utf8(alg)), nonce, data),
            ),
            nonce + salt + seal_with(alg, derived_key(pw, salt, encode_utf8(alg)), nonce, data),
        ),
        open_with(
            encode_utf8(alg),
            derived_key(pw, salt, encode_utf8(alg)),
            nonce,
            seal_with(alg, derived_key(pw, salt, encode_utf8(alg)), nonce, data),
        ) == Ok::<Seq<u8>, Seq<char>>(data),
    ensures
        decrypt_text(encode_utf8(sealed_text(data, pw, alg, nonce, salt)), pw, other) == Ok::<
            Seq<u8>,
            Seq<char>,
        >(data),
        key_fits(pw, encode_utf8(alg)) ==> decrypt_key_fits(
            encode_utf8(sealed_text(data, pw, alg, nonce, salt)),
            pw,
            other,
        ),
{
    let key = derived_key(pw, salt, encode_utf8(alg));
    let ct = seal_with(alg, key, nonce, data);
    let comb = nonce + salt + ct;
    let b64 = base64_standard_encode(comb);
    let colon = seq![':'];
    lemma_encode_concat(header_chars() + alg + colon, b64);
    lemma_encode_concat(header_chars() + alg, colon);
    lemma_encode_concat(header_chars(), alg);
    lemma_ascii_encode(header_chars());
    lemma_ascii_encode(colon);
    assert(ascii_bytes(header_chars()) =~= header_bytes());
    assert(ascii_bytes(colon) =~= seq![0x3au8]);
    lemma_algorithm_bytes(alg);
    let ea = encode_utf8(alg);
    let eb = encode_utf8(b64);
    let enc = encode_utf8(sealed_text(data, pw, alg, nonce, salt));
    assert(enc =~= header_bytes() + ea + seq![0x3au8] + eb);
    assert(enc.take(4) =~= header_bytes());
    let rest = enc.skip(4);
    assert(rest =~= ea + seq![0x3au8] + eb);
    lemma_find_byte_after(rest, 0, ea.len() as int, 0x3au8);
    assert(rest.skip(ea.len() as int + 1) =~= eb);
    assert(rest.take(ea.len() as int) =~= ea);
    assert(comb.subrange(12, 28) =~= salt);
    assert(comb.take(12) =~= nonce);
    assert(comb.skip(28) =~= ct);
}

/// Encrypts `data` with `password`. An unsupported `algorithm` falls back to
/// AES-256-GCM. The salt and the nonce are fresh random bytes, so only their
/// lengths are fixed; the ciphertext is `data` plus a 16-byte tag, and the
/// payload decrypts back to `data` (its key derivation fitting the password,
/// as it did here).
pub fn encrypt(data: &[u8], password: &str, algorithm: &str) -> (r: Result<String, String>)
    requires
        encrypt_key_fits(encode_utf8(password@), algorithm@),
    ensures
        match r {
            Ok(s) => {
                &&& seal_fits(chosen_algorithm(algorithm@), data@.len() as int)
                &&& exists|nonce: Seq<u8>, salt: Seq<u8>|
                    nonce.len() == 12 && salt.len() == 16 && s@ == #[trigger] sealed_text(
                        data@,
                        encode_utf8(password@),
                        chosen_algorithm(algorithm@),
                        nonce,
                        salt,
                    ) && sealed_ct(
                        data@,
                        encode_utf8(password@),
                        chosen_algorithm(algorithm@),
                        nonce,
                        salt,
                    ).len() == data@.len() + 16
                &&& forall|other: Seq<char>| #[trigger]
                    decrypt_text(encode_utf8(s@), encode_utf8(password@), other) == Ok::<
                        Seq<u8>,
                        Seq<char>,
                    >(data@)
                &&& forall|other: Seq<char>| #[trigger]
                    decrypt_key_fits(encode_utf8(s@), encode_utf8(password@), other)
            },
            Err(e) => !seal_fits(chosen_algorithm(algorithm@), data@.len() as int) && e@
                == "aead::Error"@,
        },
{
    proof {
        lemma_algorithm_names();
    }
    let alg: &str = if is_valid_algorithm(algorithm) {
        algorithm
    } else {
        ALG_AES_GCM
    };
    assert(alg@ == chosen_algorithm(algorithm@));
    let n1 = random_nonce();
    let n2 = random_nonce();
    let mut salt: Vec<u8> = Vec::new();
    push_all(&mut salt, n1.as_slice());
    push_all(&mut salt, &n2.as_slice()[0..4]);
    let pw = password.as_bytes();
    let key = derive_key(pw, salt.as_slice(), alg.as_bytes());
    let nonce = random_nonce();
    let sealed = if str_eq(alg, ALG_AES_GCM) || str_eq(alg, ALG_AES_GCM_PBKDF2) {
        aes256_gcm_encrypt(key.as_slice(), nonce.as_slice(), data)
    } else if str_eq(alg, ALG_CHACHA) {
        chacha20_poly1305_encrypt(key.as_slice(), nonce.as_slice(), data)
    } else {
        return Err(String::from_str("不支持的加密算法"));
    };
    let ciphertext = match sealed {
        Ok(c) => c,
        Err(e) => {
            return Err(e);
        },
    };
    let mut combined: Vec<u8> = Vec::new();
    push_all(&mut combined, nonce.as_slice());
    push_all(&mut combined, salt.as_slice());
    push_all(&mut combined, ciphertext.as_slice());
    let body = base64_encode(combined.as_slice());
    let mut out = String::from_str(PREFIX);
    out.append(":");
    out.append(alg);
    out.append(":");
    out.append(body.as_str());
    proof {
        reveal_strlit("DT1");
        reveal_strlit(":");
        let a = alg@;
        assert(ciphertext@ == seal_with(a, key@, nonce@, data@));
        assert(sealed_ct(data@, pw@, a, nonce@, salt@).len() == data@.len() + 16);
        assert(combined@ =~= nonce@ + salt@ + ciphertext@);
        assert(out@ =~= sealed_text(data@, pw@, a, nonce@, salt@));
        lemma_algorithm_bytes(a);
        lemma_encode_injective(a, aes_gcm_name());
        lemma_encode_injective(a, aes_gcm_pbkdf2_name());
        lemma_encode_injective(a, chacha_name());
        assert(open_with(encode_utf8(a), key@, nonce@, ciphertext@) == Ok::<Seq<u8>, Seq<char>>(
            data@,
        ));
        assert forall|other: Seq<char>| #[trigger]
            decrypt_text(encode_utf8(out@), pw@, other) == Ok::<Seq<u8>, Seq<char>>(data@) by {
            lemma_sealed_text_decrypts(data@, pw@, a, nonce@, salt@, other);
        }
        assert forall|other: Seq<char>| #[trigger] decrypt_key_fits(encode_utf8(out@), pw@, other) by {
            lemma_sealed_text_decrypts(data@, pw@, a, nonce@, salt@, other);
        }
    }
    Ok(out)
}

} // verus!
