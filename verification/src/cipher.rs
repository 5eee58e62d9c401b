//! Per-file AES-256-GCM encryption of buffers, with the nonce derived from
//! the buffer's global index.
//!
//! The nonce is 12 bytes: the high-order four are zero, the low-order eight
//! are the global buffer index, big-endian.  Distinct indices give distinct
//! nonces (`lemma_nonce_injective`), so a key that is used for one file only
//! never sees a nonce twice.  Each task builds its own cheap cipher instance
//! from the shared key; nothing is mutated across tasks.

use crate::errors::CryptoError;
use aes_gcm::aead::AeadInPlace;
use aes_gcm::{Aes256Gcm, Key, KeyInit, Nonce};
use vstd::prelude::*;

verus! {

/// Largest plaintext AES-GCM accepts (2^36 bytes); far above any buffer
/// this crate produces.
pub const MAX_PLAINTEXT: u64 = 0x10_0000_0000;

/// What AES-256-GCM returns for a key, nonce and plaintext, tag included.
/// The algorithm is deterministic: the ciphertext is a function of these
/// three values alone.
pub uninterp spec fn aead_seal(key: Seq<u8>, nonce: Seq<u8>, plain: Seq<u8>) -> Seq<u8>;

/// Byte `j` (0 = most significant) of `x` in big-endian order.
pub open spec fn u64_be_byte(x: u64, j: int) -> u8 {
    (x >> (((7 - j) * 8) as u64)) as u8
}

/// The 12-byte nonce for global buffer index `i`: four zero bytes, then
/// `i` big-endian.
pub open spec fn nonce_seq(i: u64) -> Seq<u8> {
    seq![0u8, 0u8, 0u8, 0u8] + Seq::new(8, |j: int| u64_be_byte(i, j))
}

/// Distinct global buffer indices derive distinct nonces.
pub proof fn lemma_nonce_injective(i: u64, j: u64)
    requires
        nonce_seq(i) == nonce_seq(j),
    ensures
        i == j,
{
    assert(nonce_seq(i).len() == 12);
    assert(forall|k: int|
        0 <= k < 8 ==> #[trigger] u64_be_byte(i, k) == u64_be_byte(j, k)) by {
        assert(forall|k: int|
            0 <= k < 8 ==> nonce_seq(i)[4 + k] == #[trigger] u64_be_byte(i, k));
        assert(forall|k: int|
            0 <= k < 8 ==> nonce_seq(j)[4 + k] == #[trigger] u64_be_byte(j, k));
    }
    assert(u64_be_byte(i, 0) == u64_be_byte(j, 0));
    assert(u64_be_byte(i, 1) == u64_be_byte(j, 1));
    assert(u64_be_byte(i, 2) == u64_be_byte(j, 2));
    assert(u64_be_byte(i, 3) == u64_be_byte(j, 3));
    assert(u64_be_byte(i, 4) == u64_be_byte(j, 4));
    assert(u64_be_byte(i, 5) == u64_be_byte(j, 5));
    assert(u64_be_byte(i, 6) == u64_be_byte(j, 6));
    assert(u64_be_byte(i, 7) == u64_be_byte(j, 7));
    assert({
        &&& (i >> 56u64) as u8 == (j >> 56u64) as u8
        &&& (i >> 48u64) as u8 == (j >> 48u64) as u8
        &&& (i >> 40u64) as u8 == (j >> 40u64) as u8
        &&& (i >> 32u64) as u8 == (j >> 32u64) as u8
        &&& (i >> 24u64) as u8 == (j >> 24u64) as u8
        &&& (i >> 16u64) as u8 == (j >> 16u64) as u8
        &&& (i >> 8u64) as u8 == (j >> 8u64) as u8
        &&& (i >> 0u64) as u8 == (j >> 0u64) as u8
    });
    assert({
        &&& (i >> 56u64) as u8 == (j >> 56u64) as u8
        &&& (i >> 48u64) as u8 == (j >> 48u64) as u8
        &&& (i >> 40u64) as u8 == (j >> 40u64) as u8
        &&& (i >> 32u64) as u8 == (j >> 32u64) as u8
        &&& (i >> 24u64) as u8 == (j >> 24u64) as u8
        &&& (i >> 16u64) as u8 == (j >> 16u64) as u8
        &&& (i >> 8u64) as u8 == (j >> 8u64) as u8
        &&& (i >> 0u64) as u8 == (j >> 0u64) as u8
    } ==> i == j) by (bit_vector);
}

/// Builds the nonce for global buffer index `index`.
pub fn make_nonce(index: u64) -> (r: Vec<u8>)
    ensures
        r@ == nonce_seq(index),
        r@.len() == 12,
{
    let mut v: Vec<u8> = Vec::new();
    v.push(0u8);
    v.push(0u8);
    v.push(0u8);
    v.push(0u8);
    v.push((index >> 56u64) as u8);
    v.push((index >> 48u64) as u8);
    v.push((index >> 40u64) as u8);
    v.push((index >> 32u64) as u8);
    v.push((index >> 24u64) as u8);
    v.push((index >> 16u64) as u8);
    v.push((index >> 8u64) as u8);
    v.push(index as u8);
    proof {
        assert(index as u8 == (index >> 0u64) as u8) by (bit_vector);
        assert(v@ =~= nonce_seq(index));
    }
    v
}

/// Relies on `aes_gcm::Aes256Gcm` through `AeadInPlace::encrypt_in_place`:
/// the ciphertext is a deterministic function of key, nonce and plaintext
/// (named `aead_seal`), the 16-byte tag is appended, and for a `Vec`
/// buffer, no associated data and a plaintext within `P_MAX` the call
/// cannot fail.
#[verifier::external_body]
fn aes256_encrypt_in_place(key: &[u8], nonce: &[u8], buf: &mut Vec<u8>)
    requires
        key@.len() == 32,
        nonce@.len() == 12,
        old(buf)@.len() <= MAX_PLAINTEXT,
    ensures
        final(buf)@ == aead_seal(key@, nonce@, old(buf)@),
        final(buf)@.len() == old(buf)@.len() + 16,
{
    let cipher = Aes256Gcm::new(Key::<Aes256Gcm>::from_slice(key));
    let nonce = Nonce::from_slice(nonce);
    cipher
        .encrypt_in_place(nonce, b"", buf)
        .expect("a bounded Vec plaintext cannot fail to encrypt");
}

/// Relies on `aes_gcm::Aes256Gcm` through `AeadInPlace::decrypt_in_place`:
/// succeeds exactly on ciphertexts this key and nonce seal, stripping the
/// tag and restoring the plaintext; anything else fails authentication.
#[verifier::external_body]
fn aes256_decrypt_in_place(key: &[u8], nonce: &[u8], buf: &mut Vec<u8>) -> (r: Result<
    (),
    CryptoError,
>)
    requires
        key@.len() == 32,
        nonce@.len() == 12,
    ensures
        r is Ok ==> old(buf)@ == aead_seal(key@, nonce@, final(buf)@) && final(buf)@.len()
            + 16 == old(buf)@.len(),
        forall|p: Seq<u8>|
            p.len() <= MAX_PLAINTEXT && old(buf)@ == aead_seal(key@, nonce@, p) ==> (r is Ok
                && final(buf)@ == p),
{
    let cipher = Aes256Gcm::new(Key::<Aes256Gcm>::from_slice(key));
    let nonce = Nonce::from_slice(nonce);
    cipher.decrypt_in_place(nonce, b"", buf).map_err(|_| CryptoError {})
}

/// The per-file cipher: a 256-bit key, from which each task constructs its
/// own AES-GCM instance per call.
pub struct Cipher {
    key: Vec<u8>,
}

impl View for Cipher {
    type V = Seq<u8>;

    closed spec fn view(&self) -> Seq<u8> {
        self.key@
    }
}

impl Cipher {
    /// A cipher is usable when it holds a full 256-bit key.
    pub open spec fn wf(&self) -> bool {
        self@.len() == 32
    }

    pub fn new(key: &Vec<u8>) -> (r: Cipher)
        requires
            key@.len() == 32,
        ensures
            r.wf(),
            r@ == key@,
    {
        let mut k: Vec<u8> = Vec::new();
        let mut i: usize = 0;
        while i < key.len()
            invariant
                0 <= i <= key@.len(),
                k@ =~= key@.take(i as int),
            decreases key@.len() - i,
        {
            k.push(key[i]);
            i = i + 1;
        }
        proof {
            assert(key@.take(key@.len() as int) =~= key@);
        }
        Cipher { key: k }
    }

    /// Encrypts one buffer in place, tag appended, under the nonce derived
    /// from the buffer's global index.
    pub fn encrypt(&self, buf: Vec<u8>, index: u64) -> (r: Vec<u8>)
        requires
            self.wf(),
            buf@.len() <= MAX_PLAINTEXT,
        ensures
            r@ == aead_seal(self@, nonce_seq(index), buf@),
            r@.len() == buf@.len() + 16,
    {
        let nonce = make_nonce(index);
        let mut b = buf;
        aes256_encrypt_in_place(self.key.as_slice(), nonce.as_slice(), &mut b);
        b
    }

    /// Decrypts one buffer in place under the nonce derived from the
    /// buffer's global index.  Exactly the ciphertexts sealed by this key
    /// and index decrypt, to the plaintext they were sealed from; any other
    /// input fails with `CryptoError`.
    pub fn decrypt(&self, buf: Vec<u8>, index: u64) -> (r: Result<Vec<u8>, CryptoError>)
        requires
            self.wf(),
        ensures
            r matches Ok(p) ==> buf@ == aead_seal(self@, nonce_seq(index), p@) && p@.len()
                + 16 == buf@.len(),
            forall|p: Seq<u8>|
                p.len() <= MAX_PLAINTEXT && buf@ == aead_seal(self@, nonce_seq(index), p)
                    ==> (r matches Ok(q) && q@ == p),
    {
        let nonce = make_nonce(index);
        let mut b = buf;
        match aes256_decrypt_in_place(self.key.as_slice(), nonce.as_slice(), &mut b) {
            Ok(()) => Ok(b),
            Err(e) => Err(e),
        }
    }
}

} // verus!
