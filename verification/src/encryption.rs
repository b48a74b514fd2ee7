//! Crypto primitives: AES-256-CBC encryption and decryption of byte buffers,
//! random key generation, and derivation of an initialization vector from a
//! short byte seed (a password, or a big-endian block index).

use vstd::prelude::*;

use crate::error::PinoqError;
use openssl::symm::{Cipher, Crypter, Mode};

verus! {

/// Length in bytes of an AES-256-CBC initialization vector.
pub const IV_LEN: usize = 16;
/// Length in bytes of an AES-256 key.
pub const KEY_LEN: usize = 32;

/// A 32-byte AES-256 key.
#[derive(Debug, Clone)]
pub struct Key(pub Vec<u8>);

/// A 16-byte AES-256-CBC initialization vector.
#[derive(Debug, Clone)]
pub struct IV(pub Vec<u8>);

impl View for Key {
    type V = Seq<u8>;

    open spec fn view(&self) -> Seq<u8> {
        self.0@
    }
}

impl View for IV {
    type V = Seq<u8>;

    open spec fn view(&self) -> Seq<u8> {
        self.0@
    }
}

impl Key {
    pub open spec fn wf(&self) -> bool {
        self@.len() == KEY_LEN
    }
}

/// The 16-byte IV derived from a byte seed: the first `min(|seed|, 16)` bytes
/// of the seed, zero-padded to 16 bytes.
pub open spec fn iv_of(seed: Seq<u8>) -> Seq<u8> {
    Seq::new(IV_LEN as nat, |i: int| if i < seed.len() { seed[i] } else { 0u8 })
}

impl IV {
    pub open spec fn wf(&self) -> bool {
        self@.len() == IV_LEN
    }

    pub fn from_bytes(s: &[u8]) -> (r: IV)
        ensures
            r@ == iv_of(s@),
            r.wf(),
    {
        let mut buf: Vec<u8> = Vec::new();
        let mut i: usize = 0;
        while i < IV_LEN
            invariant
                i <= IV_LEN,
                buf@.len() == i,
                forall|j: int| 0 <= j < i ==> buf@[j] == iv_of(s@)[j],
            decreases IV_LEN - i,
        {
            if i < s.len() {
                buf.push(s[i]);
            } else {
                buf.push(0u8);
            }
            i = i + 1;
        }
        proof {
            assert(buf@ =~= iv_of(s@));
        }
        IV(buf)
    }
}

/// The AES-256-CBC ciphertext of `data` under `key` and `iv`: a fixed
/// function of its arguments, left without a definition here.
pub uninterp spec fn aes_enc(data: Seq<u8>, key: Seq<u8>, iv: Seq<u8>) -> Seq<u8>;

/// Length of the AES-256-CBC ciphertext of an `n`-byte plaintext: PKCS
/// padding always adds between 1 and 16 bytes, up to the next 16-byte
/// boundary.
pub open spec fn enc_len(n: int) -> int {
    (n / 16 + 1) * 16
}

/// Relies on `rand::fill`, which fills the buffer from the thread-local
/// cryptographically secure generator.
#[verifier::external_body]
fn fill_random_key() -> (r: Key)
    ensures
        r.wf(),
{
    let mut k = [0u8; KEY_LEN];
    rand::fill(&mut k[..]);
    Key(k.to_vec())
}

/// A fresh random 32-byte key. Nothing relates two calls: every persisted
/// aspect envelope is wrapped under a new key.
pub fn random_key() -> (r: Key)
    ensures
        r.wf(),
{
    fill_random_key()
}

/// Relies on `openssl::symm::Crypter` in AES-256-CBC encrypt mode: with PKCS
/// padding the ciphertext is a function of plaintext, key and IV alone, and
/// its length is the plaintext length rounded up past the next 16-byte
/// boundary. The input must fit a C `int`: the binding converts the buffer
/// length with an unwrap that would abort on more.
#[verifier::external_body]
fn aes_256_cbc_encrypt(data: &[u8], key: &[u8], iv: &[u8]) -> (r: Vec<u8>)
    requires
        key@.len() == KEY_LEN,
        iv@.len() == IV_LEN,
        data@.len() <= i32::MAX - 16,
    ensures
        r@ == aes_enc(data@, key@, iv@),
        r@.len() == enc_len(data@.len() as int),
{
    let mut c = Crypter::new(Cipher::aes_256_cbc(), Mode::Encrypt, key, Some(iv)).unwrap();
    let mut out = vec![0u8; data.len() + 16];
    let count = c.update(data, &mut out).unwrap();
    let rest = c.finalize(&mut out[count..]).unwrap();
    out.truncate(count + rest);
    out
}

/// Holds when `r` recovers every plaintext that `data` encrypts: whatever
/// plaintext `data` is the AES-256-CBC encryption of under `key` and `iv`,
/// `r` holds exactly that plaintext.
pub open spec fn decrypts_encrypted(
    r: Option<Seq<u8>>,
    data: Seq<u8>,
    key: Seq<u8>,
    iv: Seq<u8>,
) -> bool {
    forall|p: Seq<u8>| data == #[trigger] aes_enc(p, key, iv) ==> (r matches Some(d) && d == p)
}

/// The byte sequence held by an optional byte buffer.
pub open spec fn opt_view(r: Option<Vec<u8>>) -> Option<Seq<u8>> {
    match r {
        Some(v) => Some(v@),
        None => None,
    }
}

/// Relies on `openssl::symm::Crypter` in AES-256-CBC decrypt mode: decryption
/// inverts encryption under the same key and IV; a structurally invalid
/// ciphertext (bad length or bad PKCS padding) is rejected, never returned as
/// garbage. The input must fit a C `int`: the binding converts the buffer
/// length with an unwrap that would abort on more.
#[verifier::external_body]
fn aes_256_cbc_decrypt(data: &[u8], key: &[u8], iv: &[u8]) -> (r: Option<Vec<u8>>)
    requires
        key@.len() == KEY_LEN,
        iv@.len() == IV_LEN,
        data@.len() <= i32::MAX - 16,
    ensures
        decrypts_encrypted(opt_view(r), data@, key@, iv@),
{
    let mut c = match Crypter::new(Cipher::aes_256_cbc(), Mode::Decrypt, key, Some(iv)) {
        Ok(c) => c,
        Err(_) => return None,
    };
    let mut out = vec![0u8; data.len() + 16];
    let count = match c.update(data, &mut out) {
        Ok(n) => n,
        Err(_) => return None,
    };
    let rest = match c.finalize(&mut out[count..]) {
        Ok(n) => n,
        Err(_) => return None,
    };
    out.truncate(count + rest);
    Some(out)
}

/// AES-256-CBC with PKCS padding. The ciphertext length is
/// `ceil((|data| + 1) / 16) * 16`.
pub fn encrypt(data: &[u8], key: &Key, iv: &IV) -> (r: Vec<u8>)
    requires
        key.wf(),
        iv.wf(),
        data@.len() <= i32::MAX - 16,
    ensures
        r@ == aes_enc(data@, key@, iv@),
        r@.len() == enc_len(data@.len() as int),
{
    aes_256_cbc_encrypt(data, key.0.as_slice(), iv.0.as_slice())
}

/// The inverse of [`encrypt`]: whenever the input is the encryption of some
/// plaintext under `key` and `iv`, exactly that plaintext comes back. A
/// ciphertext that decryption rejects surfaces as a decode error.
pub fn decrypt(encrypted_data: &[u8], key: &Key, iv: &IV) -> (r: Result<Vec<u8>, PinoqError>)
    requires
        key.wf(),
        iv.wf(),
        encrypted_data@.len() <= i32::MAX - 16,
    ensures
        forall|p: Seq<u8>|
            encrypted_data@ == #[trigger] aes_enc(p, key@, iv@) ==> (r matches Ok(d) && d@ == p),
        r matches Err(e) ==> e == PinoqError::Serialization,
{
    match aes_256_cbc_decrypt(encrypted_data, key.0.as_slice(), iv.0.as_slice()) {
        Some(v) => Ok(v),
        None => Err(PinoqError::Serialization),
    }
}

} // verus!
