use vstd::prelude::*;

verus! {

/// The failure conditions the editor distinguishes.
#[derive(Clone, Copy, Debug, PartialEq, Eq, Structural)]
pub enum Error {
    /// A text edit aimed at non-text content; absorbed, never fatal.
    InvalidOperation,
    /// A lookup or deletion aimed at an absent identity; absorbed.
    NotFound,
    /// The store is already held by another process; fatal at startup.
    LockContention,
    /// Wrong key hint or corrupted ciphertext; the two are deliberately
    /// not distinguished.
    DecryptionFailed,
    /// The underlying storage is unavailable; fatal at startup.
    IOFailure,
}

/// The fixed, embedded key-derivation salt.
pub open spec fn spec_salt() -> Seq<u8> {
    seq![
        0x85u8, 0x4Eu8, 0x69u8, 0xFDu8, 0x6Au8, 0xEEu8, 0x45u8, 0x29u8, 0xB8u8, 0xA9u8, 0x5Fu8,
        0x6Bu8, 0x3Eu8, 0xBFu8, 0x1Du8, 0xD9u8, 0x63u8, 0xABu8, 0x91u8, 0x5Du8, 0x87u8, 0xABu8,
        0xEDu8, 0x3Bu8, 0x63u8, 0xA7u8, 0xFAu8, 0x8Au8, 0x51u8, 0x40u8, 0x8Au8, 0x9Fu8,
    ]
}

fn salt() -> (v: Vec<u8>)
    ensures
        v@ == spec_salt(),
{
    let v: Vec<u8> = vec![
        0x85u8, 0x4Eu8, 0x69u8, 0xFDu8, 0x6Au8, 0xEEu8, 0x45u8, 0x29u8, 0xB8u8, 0xA9u8, 0x5Fu8,
        0x6Bu8, 0x3Eu8, 0xBFu8, 0x1Du8, 0xD9u8, 0x63u8, 0xABu8, 0x91u8, 0x5Du8, 0x87u8, 0xABu8,
        0xEDu8, 0x3Bu8, 0x63u8, 0xA7u8, 0xFAu8, 0x8Au8, 0x51u8, 0x40u8, 0x8Au8, 0x9Fu8,
    ];
    assert(v@ =~= spec_salt());
    v
}

/// The 32-byte key HKDF-HMAC-SHA256 derives from a salt and a key hint.
/// Key derivation is deterministic: the same hint always yields the same
/// key, with no dependence on external randomness.
pub uninterp spec fn derived_key(salt: Seq<u8>, hint: Seq<char>) -> Seq<u8>;

/// What authenticated decryption yields for a key and a ciphertext: the
/// plaintext, or nothing when the key is wrong or the bytes are corrupt.
/// Decryption is deterministic in its two arguments.
pub uninterp spec fn open_of(key: Seq<u8>, ct: Seq<u8>) -> Option<Seq<u8>>;

/// Relies on orion's HKDF-HMAC-SHA256 `derive_key`: deterministic in the
/// salt and input keying material, filling the whole 32-byte output. It
/// never fails here: its only error conditions are an empty or an
/// over-8160-byte output buffer, and this asks for exactly 32 bytes.
#[verifier::external_body]
fn hkdf_sha256(salt: &Vec<u8>, hint: &str) -> (r: Option<Vec<u8>>)
    ensures
        r is Some,
        r matches Some(k) ==> k@ == derived_key(salt@, hint@) && k@.len() == 32,
{
    let mut out = vec![0u8; 32];
    let r = orion::hazardous::kdf::hkdf::Hkdf::<orion::hazardous::kdf::hkdf::SHA256>::derive_key(
        salt.as_slice(),
        hint.as_bytes(),
        None,
        &mut out,
    );
    match r {
        Ok(()) => Some(out),
        Err(_) => None,
    }
}

/// Relies on orion::aead::seal (XChaCha20-Poly1305): the ciphertext embeds
/// a 24-byte random nonce and a 16-byte authentication tag around the
/// plaintext. Whatever nonce was drawn, the sealed bytes are what `open`
/// maps back to the plaintext under the same key.
#[verifier::external_body]
fn aead_seal(key: &Vec<u8>, plain: &Vec<u8>) -> (r: Option<Vec<u8>>)
    ensures
        r matches Some(ct) ==> ct@.len() == plain@.len() + 40 && open_of(key@, ct@) == Some(
            plain@,
        ),
{
    match orion::aead::SecretKey::try_from(key.as_slice()) {
        Ok(k) => orion::aead::seal(&k, plain.as_slice()).ok(),
        Err(_) => None,
    }
}

/// Relies on orion::aead::open (XChaCha20-Poly1305): deterministic
/// authenticated decryption; `None` for a wrong key, a truncated or a
/// corrupted ciphertext, never partial output.
#[verifier::external_body]
fn aead_open(key: &Vec<u8>, ct: &Vec<u8>) -> (r: Option<Vec<u8>>)
    ensures
        open_of(key@, ct@) == (match r {
            Some(p) => Some(p@),
            None => None::<Seq<u8>>,
        }),
{
    match orion::aead::SecretKey::try_from(key.as_slice()) {
        Ok(k) => orion::aead::open(&k, ct.as_slice()).ok(),
        Err(_) => None,
    }
}

/// The symmetric key for a key hint: always the 32-byte deterministic
/// derivation over the fixed embedded salt — equal hints always yield
/// equal keys, with no dependence on anything else.
fn secure_key(key_hint: &str) -> (r: Option<Vec<u8>>)
    ensures
        r is Some,
        r matches Some(k) ==> k@ == derived_key(spec_salt(), key_hint@) && k@.len() == 32,
{
    let s = salt();
    hkdf_sha256(&s, key_hint)
}

/// Decrypt a persisted store with the key derived from the hint: the
/// result is `Ok` exactly when authenticated decryption under that key
/// yields a plaintext, and it is that plaintext. A wrong hint and a
/// corrupted or truncated ciphertext fail alike, with the one
/// `DecryptionFailed` condition and no partial output.
pub fn open_file(key_hint: &str, data: Vec<u8>) -> (r: Result<Vec<u8>, Error>)
    ensures
        match r {
            Ok(p) => open_of(derived_key(spec_salt(), key_hint@), data@) == Some(p@),
            Err(e) => e == Error::DecryptionFailed && open_of(
                derived_key(spec_salt(), key_hint@),
                data@,
            ) is None,
        },
{
    let key = match secure_key(key_hint) {
        Some(k) => k,
        None => {
            return Err(Error::DecryptionFailed);
        },
    };
    match aead_open(&key, &data) {
        Some(p) => Ok(p),
        None => Err(Error::DecryptionFailed),
    }
}

/// Encrypt a serialized store with the key derived from the hint. The
/// ciphertext embeds a random nonce and an authentication tag, and is —
/// whatever nonce was drawn — exactly what decryption under the same hint
/// maps back to the input; `None` reports that sealing was refused (an
/// empty input, or no randomness).
pub fn seal_file(key_hint: &str, data: Vec<u8>) -> (r: Option<Vec<u8>>)
    ensures
        r matches Some(ct) ==> ct@.len() == data@.len() + 40 && open_of(
            derived_key(spec_salt(), key_hint@),
            ct@,
        ) == Some(data@),
{
    let key = match secure_key(key_hint) {
        Some(k) => k,
        None => {
            return None;
        },
    };
    aead_seal(&key, &data)
}

/// Sealing then opening under the same hint gives back the sealed bytes:
/// what `seal_file` promises of its ciphertext forces `open_file` on that
/// ciphertext, with the same hint, to succeed with exactly the input.
pub proof fn lemma_seal_open_round_trip(
    hint: Seq<char>,
    data: Seq<u8>,
    ct: Seq<u8>,
    r: Result<Vec<u8>, Error>,
)
    requires
        open_of(derived_key(spec_salt(), hint), ct) == Some(data),
        match r {
            Ok(p) => open_of(derived_key(spec_salt(), hint), ct) == Some(p@),
            Err(e) => e == Error::DecryptionFailed && open_of(
                derived_key(spec_salt(), hint),
                ct,
            ) is None,
        },
    ensures
        r matches Ok(p) && p@ == data,
{
}

} // verus!
