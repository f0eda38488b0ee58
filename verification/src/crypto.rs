//! Key derivation and authenticated encryption.
//!
//! Every record of the vault is sealed with XChaCha20-Poly1305 under a fresh
//! random 24-byte nonce; the nonce is stored in front of the ciphertext. Keys
//! come from Argon2id. Both primitives are called, never rebuilt: their
//! outputs are named below and the contracts speak of those names.
use chacha20poly1305::aead::{Aead, OsRng, Payload};
use chacha20poly1305::{KeyInit, XChaCha20Poly1305, XNonce};
use rand_core::RngCore;
use vstd::prelude::*;
use vstd::string::*;
use vstd::utf8::*;
use zeroize::Zeroize;

verus! {

pub const SALT_LEN: usize = 16;

pub const DEK_LEN: usize = 32;

pub const NONCE_LEN: usize = 24;

pub const TAG_LEN: usize = 16;

pub const ARGON_MEM_KIB: u32 = 131072;

pub const ARGON_ITERS: u32 = 3;

pub const ARGON_LANES: u32 = 2;

/// The 32-byte output of Argon2id (version 0x13) with the given memory,
/// time and lane costs, over the password and salt bytes.
pub uninterp spec fn argon2id_output(
    m_cost: u32,
    t_cost: u32,
    p_cost: u32,
    password: Seq<u8>,
    salt: Seq<u8>,
) -> Seq<u8>;

/// What XChaCha20-Poly1305 encryption returns: ciphertext followed by the tag.
pub uninterp spec fn xchacha20poly1305_seal(
    key: Seq<u8>,
    nonce: Seq<u8>,
    plaintext: Seq<u8>,
    aad: Seq<u8>,
) -> Seq<u8>;

/// What XChaCha20-Poly1305 decryption returns: the plaintext, or `None`
/// when the tag does not authenticate the ciphertext and associated data.
pub uninterp spec fn xchacha20poly1305_open(
    key: Seq<u8>,
    nonce: Seq<u8>,
    ciphertext: Seq<u8>,
    aad: Seq<u8>,
) -> Option<Seq<u8>>;

/// The cost parameters that `argon2::Params::new` accepts with a 32-byte output.
pub open spec fn argon2_params_valid(m_cost: u32, t_cost: u32, p_cost: u32) -> bool {
    &&& m_cost >= 8
    &&& m_cost >= p_cost * 8
    &&& t_cost >= 1
    &&& 1 <= p_cost <= 0xFF_FFFF
}

/// The message lengths that the ChaCha20-Poly1305 construction accepts
/// (fewer than `u32::MAX` keystream blocks of 64 bytes).
pub open spec fn aead_len_ok(n: nat) -> bool {
    n / 64 < 0xFFFF_FFFF
}

/// Argon2id, version 0x13, with a 32-byte output: builds the cost
/// parameters with `argon2::Params::new`, the hasher with `Argon2::new` and
/// runs `Argon2::hash_password_into`. The contract claims that the output is
/// a function of the costs, the password and the salt, and that the call
/// fails exactly when the crate's input checks fail (password longer than
/// `u32::MAX` bytes, salt shorter than 8 or longer than `u32::MAX` bytes).
/// The text of an error is the crate's `Display` text, not stated.
#[verifier::external_body]
fn argon2id_hash(password: &[u8], salt: &[u8], m_cost: u32, t_cost: u32, p_cost: u32)
    -> (r: Result<[u8; 32], String>)
    requires
        argon2_params_valid(m_cost, t_cost, p_cost),
    ensures
        r.is_ok() <==> (password@.len() <= 0xFFFF_FFFF && 8 <= salt@.len() <= 0xFFFF_FFFF),
        r matches Ok(k) ==> k@ == argon2id_output(m_cost, t_cost, p_cost, password@, salt@),
{
    let params = argon2::Params::new(m_cost, t_cost, p_cost, Some(32)).map_err(|e| e.to_string())?;
    let hasher = argon2::Argon2::new(argon2::Algorithm::Argon2id, argon2::Version::V0x13, params);
    let mut out = [0u8; 32];
    hasher.hash_password_into(password, salt, &mut out).map_err(|e| e.to_string())?;
    Ok(out)
}

/// `Aead::encrypt` of `XChaCha20Poly1305` with a `Payload`. The contract
/// claims that the call fails exactly when the message is too long for the
/// cipher, that the result is the named seal, 16 bytes (the tag) longer
/// than the plaintext, and the correctness of the AEAD: the result opens
/// under the same key, nonce and associated data to the plaintext.
#[verifier::external_body]
fn xchacha_encrypt(key: &[u8; 32], nonce: &[u8; 24], plaintext: &[u8], aad: &[u8])
    -> (r: Result<Vec<u8>, String>)
    ensures
        r.is_ok() <==> aead_len_ok(plaintext@.len()),
        r matches Ok(c) ==> c@ == xchacha20poly1305_seal(key@, nonce@, plaintext@, aad@),
        r matches Ok(c) ==> c@.len() == plaintext@.len() + 16,
        r matches Ok(c) ==> xchacha20poly1305_open(key@, nonce@, c@, aad@) == Some(plaintext@),
{
    let cipher = XChaCha20Poly1305::new(key.into());
    cipher.encrypt(XNonce::from_slice(nonce), Payload { msg: plaintext, aad }).map_err(
        |e| e.to_string(),
    )
}

/// `Aead::decrypt` of `XChaCha20Poly1305` with a `Payload`. The contract
/// claims that the result is the named opening, that an accepted
/// ciphertext is 16 bytes (the tag) longer than its plaintext, and the
/// correctness of the AEAD: what `xchacha_encrypt` sealed under a key, nonce
/// and associated data opens under the same three to the same plaintext.
#[verifier::external_body]
fn xchacha_decrypt(key: &[u8; 32], nonce: &[u8], ciphertext: &[u8], aad: &[u8])
    -> (r: Option<Vec<u8>>)
    requires
        nonce@.len() == 24,
    ensures
        r matches Some(p) ==> xchacha20poly1305_open(key@, nonce@, ciphertext@, aad@) == Some(p@),
        r is None ==> xchacha20poly1305_open(key@, nonce@, ciphertext@, aad@) is None,
        r matches Some(p) ==> p@.len() + 16 == ciphertext@.len(),
        r is None ==> forall|p: Seq<u8>|
            #![trigger xchacha20poly1305_seal(key@, nonce@, p, aad@)]
            aead_len_ok(p.len()) ==> ciphertext@ != xchacha20poly1305_seal(key@, nonce@, p, aad@),
        r matches Some(q) ==> forall|p: Seq<u8>|
            #![trigger xchacha20poly1305_seal(key@, nonce@, p, aad@)]
            aead_len_ok(p.len()) && ciphertext@ == xchacha20poly1305_seal(key@, nonce@, p, aad@)
                ==> q@ == p,
{
    let cipher = XChaCha20Poly1305::new(key.into());
    cipher.decrypt(XNonce::from_slice(nonce), Payload { msg: ciphertext, aad }).ok()
}

/// Fills an array from the operating system's random source
/// (`RngCore::fill_bytes` of `OsRng`). Nothing is claimed of the bytes; the
/// call panics if the operating system cannot supply them.
#[verifier::external_body]
pub(crate) fn random_bytes<const N: usize>() -> (r: [u8; N]) {
    let mut x = [0u8; N];
    OsRng.fill_bytes(&mut x);
    x
}

/// `Zeroize::zeroize` on a 32-byte key, where it is held: every byte is
/// overwritten with 0.
#[verifier::external_body]
pub(crate) fn zeroize_key(k: &mut [u8; 32])
    ensures
        final(k)@ == Seq::new(32, |i: int| 0u8),
{
    k.zeroize();
}

/// The key-encryption key derived from a password and a salt.
pub open spec fn spec_derive(password: Seq<char>, salt: Seq<u8>) -> Seq<u8> {
    argon2id_output(ARGON_MEM_KIB, ARGON_ITERS, ARGON_LANES, encode_utf8(password), salt)
}

/// The key derived from a password and a salt is Argon2id over the
/// password's UTF-8 bytes and the salt with 131072 KiB of memory, 3 passes
/// and 2 lanes.
pub proof fn lemma_derive_costs(password: Seq<char>, salt: Seq<u8>)
    ensures
        spec_derive(password, salt) == argon2id_output(131072u32, 3u32, 2u32, encode_utf8(password), salt),
{
}

/// Argon2id (128 MiB, 3 passes, 2 lanes) of the password's UTF-8 bytes.
/// Fails only for a password of more than `u32::MAX` bytes.
pub fn derive_key(password: &str, salt: &[u8; 16]) -> (r: Result<[u8; 32], String>)
    ensures
        r.is_ok() <==> password.spec_bytes().len() <= 0xFFFF_FFFF,
        r matches Ok(k) ==> k@ == spec_derive(password@, salt@),
        r matches Ok(k) ==> k@ == argon2id_output(131072u32, 3u32, 2u32, encode_utf8(password@), salt@),
{
    proof {
        lemma_derive_costs(password@, salt@);
    }
    let bytes = password.as_bytes();
    argon2id_hash(bytes, salt.as_slice(), ARGON_MEM_KIB, ARGON_ITERS, ARGON_LANES)
}

/// A sealed record: the nonce, then the ciphertext with its tag.
pub open spec fn spec_sealed(key: Seq<u8>, nonce: Seq<u8>, plain: Seq<u8>, aad: Seq<u8>) -> Seq<
    u8,
> {
    nonce + xchacha20poly1305_seal(key, nonce, plain, aad)
}

/// Seals `plain` under `key` and `aad` with the given nonce, which is put in
/// front of the ciphertext.
pub fn enc_with_nonce(key: &[u8; 32], nonce: &[u8; 24], plain: &[u8], aad: &[u8]) -> (r: Result<
    Vec<u8>,
    String,
>)
    ensures
        r.is_ok() <==> aead_len_ok(plain@.len()),
        r matches Ok(out) ==> out@ == spec_sealed(key@, nonce@, plain@, aad@),
        r matches Ok(out) ==> out@.len() == NONCE_LEN + plain@.len() + TAG_LEN,
        r matches Ok(out) ==> spec_dec(key@, out@, aad@) == Ok::<Seq<u8>, DecFault>(plain@),
{
    let ct = xchacha_encrypt(key, nonce, plain, aad)?;
    let mut out: Vec<u8> = Vec::new();
    let mut i: usize = 0;
    while i < NONCE_LEN
        invariant
            i <= NONCE_LEN,
            out@ == nonce@.subrange(0, i as int),
        decreases NONCE_LEN - i,
    {
        out.push(nonce[i]);
        i = i + 1;
    }
    let mut j: usize = 0;
    while j < ct.len()
        invariant
            j <= ct.len(),
            out@ == nonce@ + ct@.subrange(0, j as int),
        decreases ct.len() - j,
    {
        out.push(ct[j]);
        j = j + 1;
    }
    assert(ct@.subrange(0, ct@.len() as int) =~= ct@);
    assert(out@.subrange(0, 24) =~= nonce@);
    assert(out@.subrange(24, out@.len() as int) =~= ct@);
    Ok(out)
}

/// Seals `plain` under `key` and `aad` with a fresh random nonce. Whatever
/// the nonce, the output is that nonce followed by the seal under it.
pub fn enc(key: &[u8; 32], plain: &[u8], aad: &[u8]) -> (r: Result<Vec<u8>, String>)
    ensures
        r.is_ok() <==> aead_len_ok(plain@.len()),
        r matches Ok(out) ==> out@.len() == NONCE_LEN + plain@.len() + TAG_LEN,
        r matches Ok(out) ==> out@ == spec_sealed(key@, out@.subrange(0, 24), plain@, aad@),
        r matches Ok(out) ==> spec_dec(key@, out@, aad@) == Ok::<Seq<u8>, DecFault>(plain@),
{
    let n = random_bytes::<24>();
    let r = enc_with_nonce(key, &n, plain, aad);
    proof {
        if let Ok(ref out) = r {
            assert(out@.subrange(0, 24) =~= n@);
        }
    }
    r
}

/// Why a sealed record was refused.
#[derive(Clone, Copy, Debug, PartialEq, Eq)]
pub enum DecFault {
    /// Shorter than a nonce and a tag.
    TooShort,
    /// The tag does not authenticate the record under the key and data.
    Unauthenticated,
}

/// What opening a sealed record gives.
pub open spec fn spec_dec(key: Seq<u8>, data: Seq<u8>, aad: Seq<u8>) -> Result<Seq<u8>, DecFault> {
    if data.len() < NONCE_LEN + TAG_LEN {
        Err(DecFault::TooShort)
    } else {
        match xchacha20poly1305_open(
            key,
            data.subrange(0, 24),
            data.subrange(24, data.len() as int),
            aad,
        ) {
            Some(p) => Ok(p),
            None => Err(DecFault::Unauthenticated),
        }
    }
}

/// Opens a record sealed by `enc`. What `enc` sealed under a key and data
/// opens under the same key and data to the same plaintext.
pub fn open_sealed(key: &[u8; 32], data: &[u8], aad: &[u8]) -> (r: Result<Vec<u8>, DecFault>)
    ensures
        match r {
            Ok(p) => spec_dec(key@, data@, aad@) == Ok::<Seq<u8>, DecFault>(p@),
            Err(f) => spec_dec(key@, data@, aad@) == Err::<Seq<u8>, DecFault>(f),
        },
        r matches Ok(p) ==> data@.len() == NONCE_LEN + p@.len() + TAG_LEN,
        forall|nonce: Seq<u8>, p: Seq<u8>|
            #![trigger spec_sealed(key@, nonce, p, aad@)]
            nonce.len() == 24 && aead_len_ok(p.len()) && data@.len() == NONCE_LEN + p.len() + TAG_LEN
                && data@ == spec_sealed(key@, nonce, p, aad@) ==> (r matches Ok(q) && q@ == p),
{
    if data.len() < NONCE_LEN + TAG_LEN {
        return Err(DecFault::TooShort);
    }
    let nonce = slice_range(data, 0, NONCE_LEN);
    let body = slice_range(data, NONCE_LEN, data.len());
    let r = xchacha_decrypt(key, nonce, body, aad);
    proof {
        assert forall|n: Seq<u8>, p: Seq<u8>|
            #![trigger spec_sealed(key@, n, p, aad@)]
            n.len() == 24 && aead_len_ok(p.len()) && data@.len() == NONCE_LEN + p.len() + TAG_LEN
                && data@ == spec_sealed(key@, n, p, aad@) implies (r matches Some(q) && q@ == p) by {
            assert(n =~= data@.subrange(0, 24));
            assert(xchacha20poly1305_seal(key@, n, p, aad@) =~= data@.subrange(24, data@.len() as int));
        }
    }
    match r {
        Some(p) => Ok(p),
        None => Err(DecFault::Unauthenticated),
    }
}

/// Opens a sealed record (see `spec_dec`), with a text for each refusal.
pub fn dec(key: &[u8; 32], data: &[u8], aad: &[u8]) -> (r: Result<Vec<u8>, String>)
    ensures
        match spec_dec(key@, data@, aad@) {
            Ok(p) => r matches Ok(q) && q@ == p,
            Err(DecFault::TooShort) => r matches Err(e) && e@ == "invalid ciphertext"@,
            Err(DecFault::Unauthenticated) => r matches Err(e) && e@ == "authentication failed"@,
        },
        forall|nonce: Seq<u8>, p: Seq<u8>|
            #![trigger spec_sealed(key@, nonce, p, aad@)]
            nonce.len() == 24 && aead_len_ok(p.len()) && data@.len() == NONCE_LEN + p.len() + TAG_LEN
                && data@ == spec_sealed(key@, nonce, p, aad@) ==> (r matches Ok(q) && q@ == p),
{
    match open_sealed(key, data, aad) {
        Ok(p) => Ok(p),
        Err(DecFault::TooShort) => Err(String::from_str("invalid ciphertext")),
        Err(DecFault::Unauthenticated) => Err(String::from_str("authentication failed")),
    }
}

/// `&data[from..to]`.
pub(crate) fn slice_range(data: &[u8], from: usize, to: usize) -> (r: &[u8])
    requires
        from <= to <= data@.len(),
    ensures
        r@ == data@.subrange(from as int, to as int),
{
    vstd::slice::slice_subrange(data, from, to)
}

} // verus!
