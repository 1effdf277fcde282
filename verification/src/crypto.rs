//! The cryptographic envelope: authenticated encryption of whole object
//! bodies under a fixed 256-bit key.
//!
//! A stored blob is `nonce(12 bytes) ‖ ciphertext-with-tag(len + 16 bytes)`,
//! so the envelope adds 28 bytes to every plaintext.

use vstd::prelude::*;

use crate::hexcode::{hex_decode, spec_hex_decode};
use aes_gcm::aead::Aead;
use aes_gcm::KeyInit;
use rand::Rng;
use sha2::Digest;

verus! {

/// Longest plaintext the envelope accepts; stays far below the length
/// limit of the AES-GCM construction.
pub const MAX_PLAINTEXT_LEN: usize = 0xFFFF_FFFF;

/// Why a stored blob could not be opened.
#[derive(Clone, Copy, PartialEq, Eq, Structural, Debug)]
pub enum CryptoError {
    /// The blob is shorter than the nonce prefix.
    MalformedCiphertext,
    /// The authentication tag did not verify: tampering or a wrong key.
    AuthenticationFailure,
}

/// Why key text could not be turned into a key.
#[derive(Clone, Copy, PartialEq, Eq, Structural, Debug)]
pub enum KeyError {
    /// A byte of the key text is not a hexadecimal digit, or a digit is
    /// missing its pair.
    BadHex,
    /// The decoded key does not hold exactly 32 bytes.
    WrongLength,
}

/// What AES-256-GCM decryption returns for a key, nonce and tagged body:
/// the plaintext when the tag verifies, nothing otherwise.  The result
/// depends on the three arguments alone.
pub uninterp spec fn aead_open(key: Seq<u8>, nonce: Seq<u8>, body: Seq<u8>) -> Option<Seq<u8>>;

/// Relies on aes_gcm's `Aes256Gcm` through `Aead::encrypt`: the result is
/// the tagged ciphertext, 16 bytes longer than the plaintext, and the
/// crate's own decryption inverts it under the same key and nonce.
#[verifier::external_body]
fn aead_seal(key: &Vec<u8>, nonce: &[u8; 12], plaintext: &Vec<u8>) -> (r: Vec<u8>)
    requires
        key@.len() == 32,
        plaintext@.len() <= MAX_PLAINTEXT_LEN,
    ensures
        r@.len() == plaintext@.len() + 16,
        aead_open(key@, nonce@, r@) == Some(plaintext@),
{
    let cipher = aes_gcm::Aes256Gcm::new_from_slice(key.as_slice()).unwrap();
    let n = aes_gcm::aead::Nonce::<aes_gcm::Aes256Gcm>::from(*nonce);
    cipher.encrypt(&n, plaintext.as_slice()).unwrap()
}

/// Relies on aes_gcm's `Aes256Gcm` through `Aead::decrypt`: returns the
/// plaintext exactly when the tag verifies for this key, nonce and body.
#[verifier::external_body]
fn aead_unseal(key: &Vec<u8>, blob: &Vec<u8>) -> (r: Option<Vec<u8>>)
    requires
        key@.len() == 32,
        blob@.len() >= 12,
    ensures
        match r {
            Some(p) => aead_open(key@, blob@.take(12), blob@.skip(12)) == Some(p@),
            None => aead_open(key@, blob@.take(12), blob@.skip(12)) is None,
        },
{
    let cipher = aes_gcm::Aes256Gcm::new_from_slice(key.as_slice()).unwrap();
    let (nonce_bytes, body) = blob.as_slice().split_at(12);
    let mut n = [0u8; 12];
    n.copy_from_slice(nonce_bytes);
    let nonce = aes_gcm::aead::Nonce::<aes_gcm::Aes256Gcm>::from(n);
    match cipher.decrypt(&nonce, body) {
        Ok(p) => Some(p),
        Err(_) => None,
    }
}

/// Relies on rand's `ThreadRng`, a cryptographically secure generator, to
/// draw a fresh 96-bit nonce; nothing is assumed of the bytes drawn.
#[verifier::external_body]
fn random_nonce() -> (r: [u8; 12])
    ensures
        r@.len() == 12,
{
    let mut n = [0u8; 12];
    rand::rng().fill_bytes(&mut n);
    n
}

/// Relies on rand's `ThreadRng`, a cryptographically secure generator, to
/// draw a fresh 256-bit key; nothing is assumed of the bytes drawn.
#[verifier::external_body]
pub fn generate_key() -> (r: Vec<u8>)
    ensures
        r@.len() == 32,
{
    let mut key = vec![0u8; 32];
    rand::rng().fill_bytes(&mut key);
    key
}

/// What SHA-256 returns, as a 32-byte digest, for a password and salt
/// hashed in that order; it depends on those bytes alone.
pub uninterp spec fn password_digest(password: Seq<char>, salt: Seq<u8>) -> Seq<u8>;

/// Relies on sha2's `Sha256`: feeding the password's bytes and then the
/// salt digests their concatenation, and the digest holds 32 bytes.
#[verifier::external_body]
pub fn derive_key_from_password(password: &str, salt: &[u8]) -> (r: Vec<u8>)
    ensures
        r@ == password_digest(password@, salt@),
        r@.len() == 32,
{
    let mut hasher = sha2::Sha256::new();
    hasher.update(password.as_bytes());
    hasher.update(salt);
    hasher.finalize().to_vec()
}

/// The decryption outcome that a stored blob determines under a key.
pub open spec fn decrypt_spec(key: Seq<u8>, blob: Seq<u8>) -> Result<Seq<u8>, CryptoError> {
    if blob.len() < 12 {
        Err(CryptoError::MalformedCiphertext)
    } else {
        match aead_open(key, blob.take(12), blob.skip(12)) {
            Some(p) => Ok(p),
            None => Err(CryptoError::AuthenticationFailure),
        }
    }
}

/// The blob is a well-formed envelope of plaintext `p` under `key`: it
/// carries the 28 bytes of overhead and opens back to `p`.
pub open spec fn envelope_of(key: Seq<u8>, p: Seq<u8>, blob: Seq<u8>) -> bool {
    &&& blob.len() == p.len() + 28
    &&& decrypt_spec(key, blob) == Ok::<Seq<u8>, CryptoError>(p)
}

/// Envelope codec under a fixed 256-bit key.
pub struct Encryptor {
    key: Vec<u8>,
}

impl Encryptor {
    /// The key bytes, for contracts.
    pub closed spec fn key(&self) -> Seq<u8> {
        self.key@
    }

    /// The key holds exactly 32 bytes.
    pub open spec fn wf(&self) -> bool {
        self.key().len() == 32
    }

    pub fn new(key: Vec<u8>) -> (r: Encryptor)
        requires
            key@.len() == 32,
        ensures
            r.key() == key@,
            r.wf(),
    {
        Encryptor { key }
    }

    /// Seal a plaintext: draw a fresh random nonce and return
    /// `nonce ‖ tagged ciphertext`.
    pub fn encrypt(&self, plaintext: &Vec<u8>) -> (r: Vec<u8>)
        requires
            self.wf(),
            plaintext@.len() <= MAX_PLAINTEXT_LEN,
        ensures
            envelope_of(self.key(), plaintext@, r@),
    {
        let nonce = random_nonce();
        let sealed = aead_seal(&self.key, &nonce, plaintext);
        let mut r: Vec<u8> = Vec::new();
        let mut i: usize = 0;
        while i < 12
            invariant
                i <= 12,
                nonce@.len() == 12,
                r@ == nonce@.take(i as int),
            decreases 12 - i,
        {
            r.push(nonce[i]);
            i = i + 1;
        }
        proof {
            assert(r@ =~= nonce@);
        }
        let mut j: usize = 0;
        while j < sealed.len()
            invariant
                j <= sealed.len(),
                r@ == nonce@ + sealed@.take(j as int),
            decreases sealed.len() - j,
        {
            r.push(sealed[j]);
            j = j + 1;
        }
        proof {
            assert(r@ =~= nonce@ + sealed@);
            assert(r@.take(12) =~= nonce@);
            assert(r@.skip(12) =~= sealed@);
        }
        r
    }

    /// Open a stored blob: split off the nonce, verify the tag and
    /// return the plaintext, or say why that failed.
    pub fn decrypt(&self, blob: &Vec<u8>) -> (r: Result<Vec<u8>, CryptoError>)
        requires
            self.wf(),
        ensures
            match r {
                Ok(p) => decrypt_spec(self.key(), blob@) == Ok::<Seq<u8>, CryptoError>(p@),
                Err(e) => decrypt_spec(self.key(), blob@) == Err::<Seq<u8>, CryptoError>(e),
            },
    {
        if blob.len() < 12 {
            return Err(CryptoError::MalformedCiphertext);
        }
        match aead_unseal(&self.key, blob) {
            Some(p) => Ok(p),
            None => Err(CryptoError::AuthenticationFailure),
        }
    }
}

/// Decryption inverts encryption: any blob that encryption produced for a
/// plaintext opens back to exactly that plaintext under the same key.
pub proof fn lemma_encrypt_decrypt_round_trip(key: Seq<u8>, p: Seq<u8>, blob: Seq<u8>)
    requires
        envelope_of(key, p, blob),
    ensures
        decrypt_spec(key, blob) == Ok::<Seq<u8>, CryptoError>(p),
{
}

/// Every blob that encryption produces is exactly 28 bytes longer than
/// its plaintext: 12 bytes of nonce and 16 bytes of authentication tag.
pub proof fn lemma_encrypt_length(key: Seq<u8>, p: Seq<u8>, blob: Seq<u8>)
    requires
        envelope_of(key, p, blob),
    ensures
        blob.len() == p.len() + 28,
{
}

/// Trim ASCII whitespace, then decode the 64 hexadecimal digits of a key
/// file into the 32 key bytes.
pub fn parse_key(text: &Vec<u8>) -> (r: Result<Vec<u8>, KeyError>)
    ensures
        match r {
            Ok(k) => k@.len() == 32 && spec_hex_decode(trim_ascii_ws(text@)) == Some(k@),
            Err(KeyError::BadHex) => spec_hex_decode(trim_ascii_ws(text@)) is None,
            Err(KeyError::WrongLength) => spec_hex_decode(trim_ascii_ws(text@)) matches Some(d)
                && d.len() != 32,
        },
{
    let trimmed = trim_ws(text);
    match hex_decode(&trimmed) {
        None => Err(KeyError::BadHex),
        Some(k) => {
            if k.len() == 32 {
                Ok(k)
            } else {
                Err(KeyError::WrongLength)
            }
        },
    }
}

/// An ASCII whitespace byte: space, tab, line feed or carriage return.
pub open spec fn is_ascii_ws(c: u8) -> bool {
    c == 32 || c == 9 || c == 10 || c == 13
}

/// The byte string with trailing ASCII whitespace removed.
pub open spec fn trim_trailing_ws(s: Seq<u8>) -> Seq<u8>
    decreases s.len(),
{
    if s.len() > 0 && is_ascii_ws(s[s.len() - 1]) {
        trim_trailing_ws(s.drop_last())
    } else {
        s
    }
}

/// The byte string with leading ASCII whitespace removed.
pub open spec fn trim_leading_ws(s: Seq<u8>) -> Seq<u8>
    decreases s.len(),
{
    if s.len() > 0 && is_ascii_ws(s[0]) {
        trim_leading_ws(s.skip(1))
    } else {
        s
    }
}

/// The byte string with ASCII whitespace removed at both ends.
pub open spec fn trim_ascii_ws(s: Seq<u8>) -> Seq<u8> {
    trim_leading_ws(trim_trailing_ws(s))
}

/// Copy a byte string without the ASCII whitespace at its ends.
pub fn trim_ws(text: &Vec<u8>) -> (r: Vec<u8>)
    ensures
        r@ == trim_ascii_ws(text@),
{
    let mut end: usize = text.len();
    proof {
        assert(text@.take(text.len() as int) == text@);
    }
    while end > 0 && (text[end - 1] == 32 || text[end - 1] == 9 || text[end - 1] == 10 || text[end
        - 1] == 13)
        invariant
            end <= text.len(),
            trim_trailing_ws(text@) == trim_trailing_ws(text@.take(end as int)),
        decreases end,
    {
        proof {
            assert(text@.take(end as int).drop_last() == text@.take(end as int - 1));
        }
        end = end - 1;
    }
    proof {
        assert(trim_trailing_ws(text@.take(end as int)) == text@.take(end as int));
    }
    let mut start: usize = 0;
    proof {
        assert(text@.take(end as int).skip(0) == text@.take(end as int));
    }
    while start < end && (text[start] == 32 || text[start] == 9 || text[start] == 10 || text[start]
        == 13)
        invariant
            start <= end <= text.len(),
            trim_trailing_ws(text@) == text@.take(end as int),
            trim_leading_ws(text@.take(end as int)) == trim_leading_ws(
                text@.take(end as int).skip(start as int),
            ),
        decreases end - start,
    {
        proof {
            assert(text@.take(end as int).skip(start as int).skip(1) == text@.take(
                end as int,
            ).skip(start as int + 1));
        }
        start = start + 1;
    }
    proof {
        if start < end {
            assert(trim_leading_ws(text@.take(end as int).skip(start as int)) == text@.take(
                end as int,
            ).skip(start as int));
        } else {
            assert(text@.take(end as int).skip(start as int) == Seq::<u8>::empty());
        }
    }
    let mut r: Vec<u8> = Vec::new();
    let mut i: usize = start;
    while i < end
        invariant
            start <= i <= end <= text.len(),
            r@ == text@.take(end as int).skip(start as int).take(i - start as int),
        decreases end - i,
    {
        r.push(text[i]);
        i = i + 1;
    }
    proof {
        let t = text@.take(end as int).skip(start as int);
        assert(t.take(t.len() as int) == t);
    }
    r
}

} // verus!
