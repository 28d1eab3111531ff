//! Per-item payload encryption: a master key derived from a secret, per-item keys
//! wrapped by exclusive or with the master key, and ChaCha20-Poly1305 sealing of
//! the question and the answer under two independent random nonces.
use vstd::prelude::*;
use vstd::utf8::*;
use vstd::slice::slice_to_vec;

use chacha20poly1305::aead::{Aead, KeyInit, OsRng, Payload};
use chacha20poly1305::{ChaCha20Poly1305, Key, Nonce};
use rand::RngCore;
use sha2::{Digest, Sha256};

use crate::error::SielError;

verus! {

broadcast use {vstd::utf8::group_utf8_lib, vstd::std_specs::vec::group_vec_axioms};

// ---------------------------------------------------------------------------
// Outside functions
// ---------------------------------------------------------------------------

/// The SHA-256 digest of a byte string, as `sha2::Sha256` computes it.
pub uninterp spec fn sha256(data: Seq<u8>) -> Seq<u8>;

/// The ChaCha20-Poly1305 ciphertext (with its 16-byte tag appended) of `msg` under
/// `key`, `nonce` and associated data `aad`.
pub uninterp spec fn chacha20poly1305_seal(
    key: Seq<u8>,
    nonce: Seq<u8>,
    msg: Seq<u8>,
    aad: Seq<u8>,
) -> Seq<u8>;

/// The plaintext that ChaCha20-Poly1305 recovers from `ct`, or `None` when the tag
/// does not authenticate `ct` and `aad` under `key` and `nonce`.
pub uninterp spec fn chacha20poly1305_open(
    key: Seq<u8>,
    nonce: Seq<u8>,
    ct: Seq<u8>,
    aad: Seq<u8>,
) -> Option<Seq<u8>>;

#[verifier::external_type_specification]
#[verifier::external_body]
pub struct ExAeadError(chacha20poly1305::Error);

#[verifier::external_type_specification]
#[verifier::external_body]
pub struct ExFromUtf8Error(std::string::FromUtf8Error);

/// `sha2::Sha256::digest`: the result is the 32-byte SHA-256 digest of `data`.
#[verifier::external_body]
pub(crate) fn sha256_digest(data: &[u8]) -> (out: [u8; 32])
    ensures
        out@ == sha256(data@),
{
    Sha256::digest(data).into()
}

/// `rand::RngCore::fill_bytes` on the operating-system generator `OsRng`: the
/// buffer is overwritten with random bytes, of which nothing is stated.  The call
/// panics when the operating system cannot supply random bytes, which no
/// argument of it can rule out.
#[verifier::external_body]
fn fill_random<const N: usize>(buf: &mut [u8; N]) {
    OsRng.fill_bytes(buf)
}

/// A message that one ChaCha20-Poly1305 call can process: the cipher starts its
/// keystream at block 1 (block 0 keys Poly1305), so the message may span at most
/// `u32::MAX - 1` blocks of 64 bytes, i.e. `(len + 63) / 64 <= 0xffff_fffe`.
pub open spec fn aead_msg_fits(len: nat) -> bool {
    len <= 64 * 0xffff_fffe
}

/// A ciphertext that one ChaCha20-Poly1305 call can process: one too short to
/// hold the 16-byte tag (which is refused), or one whose message part fits.
pub open spec fn aead_ct_fits(len: nat) -> bool {
    len < 16 || aead_msg_fits((len - 16) as nat)
}

/// `<ChaCha20Poly1305 as Aead>::encrypt`, on a message that fits the keystream
/// (longer ones make the cipher panic or fail): it succeeds; the ciphertext is the
/// named seal of the message, 16 bytes (the tag) longer than the message, and
/// opening it with the same key, nonce and associated data gives the message back.
#[verifier::external_body]
fn aead_encrypt(key: &[u8; 32], nonce: &[u8; 12], msg: &[u8], aad: &[u8]) -> (r: Result<
    Vec<u8>,
    chacha20poly1305::Error,
>)
    requires
        aead_msg_fits(msg@.len()),
    ensures
        r is Ok,
        r matches Ok(c) ==> c@ == chacha20poly1305_seal(key@, nonce@, msg@, aad@),
        r matches Ok(c) ==> c@.len() == msg@.len() + 16,
        r matches Ok(c) ==> chacha20poly1305_open(key@, nonce@, c@, aad@) == Some(msg@),
{
    ChaCha20Poly1305::new(Key::from_slice(key)).encrypt(Nonce::from_slice(nonce), Payload { msg, aad })
}

/// `<ChaCha20Poly1305 as Aead>::decrypt`, on a ciphertext that fits the keystream
/// (an authentic longer one makes the cipher panic): the result is the named open
/// of the ciphertext.
#[verifier::external_body]
fn aead_decrypt(key: &[u8; 32], nonce: &[u8], ct: &[u8], aad: &[u8]) -> (r: Result<
    Vec<u8>,
    chacha20poly1305::Error,
>)
    requires
        nonce@.len() == 12,
        aead_ct_fits(ct@.len()),
    ensures
        match r {
            Ok(p) => chacha20poly1305_open(key@, nonce@, ct@, aad@) == Some(p@),
            Err(_) => chacha20poly1305_open(key@, nonce@, ct@, aad@) is None,
        },
{
    ChaCha20Poly1305::new(Key::from_slice(key)).decrypt(Nonce::from_slice(nonce), Payload { msg: ct, aad })
}

/// `String::from_utf8`: succeeds exactly on valid UTF-8, and then holds the decoded
/// characters.
#[verifier::external_body]
fn string_from_utf8(bytes: Vec<u8>) -> (r: Result<String, std::string::FromUtf8Error>)
    ensures
        r is Ok <==> valid_utf8(bytes@),
        r matches Ok(s) ==> s@ == decode_utf8(bytes@),
{
    String::from_utf8(bytes)
}

/// `<FromUtf8Error as ToString>::to_string`: the error's description, of which
/// nothing is stated.
#[verifier::external_body]
fn utf8_error_text(e: &std::string::FromUtf8Error) -> (t: String) {
    e.to_string()
}

// ---------------------------------------------------------------------------
// Specification
// ---------------------------------------------------------------------------

/// Byte-wise exclusive or of two byte strings of the same length.
pub open spec fn xor_bytes(a: Seq<u8>, b: Seq<u8>) -> Seq<u8>
    recommends
        a.len() == b.len(),
{
    Seq::new(a.len(), |i: int| a[i] ^ b[i])
}

/// The plaintext bytes of a sealed field: it must fit the keystream and
/// authenticate.
pub open spec fn open_bytes(key: Seq<u8>, nonce: Seq<u8>, ct: Seq<u8>, aad: Seq<u8>) -> Option<Seq<u8>> {
    if aead_ct_fits(ct.len()) {
        chacha20poly1305_open(key, nonce, ct, aad)
    } else {
        None
    }
}

/// The text that a sealed field decrypts to: it must open and be UTF-8.
pub open spec fn open_text(key: Seq<u8>, nonce: Seq<u8>, ct: Seq<u8>, aad: Seq<u8>) -> Option<
    Seq<char>,
> {
    match open_bytes(key, nonce, ct, aad) {
        Some(p) => if valid_utf8(p) {
            Some(decode_utf8(p))
        } else {
            None
        },
        None => None,
    }
}

/// What a stored payload decrypts to: the nonce field is the 12-byte question
/// nonce followed by the 12-byte answer nonce.
pub open spec fn spec_decrypt_payload(
    key: Seq<u8>,
    question_cipher: Seq<u8>,
    answer_cipher: Seq<u8>,
    nonce: Seq<u8>,
    aad: Seq<u8>,
) -> Option<(Seq<char>, Seq<char>)> {
    if nonce.len() != 24 {
        None
    } else {
        match (
            open_text(key, nonce.take(12), question_cipher, aad),
            open_text(key, nonce.skip(12), answer_cipher, aad),
        ) {
            (Some(q), Some(a)) => Some((q, a)),
            _ => None,
        }
    }
}

/// The message of a failed decryption, checked in order: the nonce field's
/// length, the question's and then the answer's authentication, the question's
/// and then the answer's UTF-8 (whose message goes on with the decoder's own
/// description).
pub open spec fn decrypt_failure(
    key: Seq<u8>,
    question_cipher: Seq<u8>,
    answer_cipher: Seq<u8>,
    nonce: Seq<u8>,
    aad: Seq<u8>,
    message: Seq<char>,
) -> bool {
    if nonce.len() != 24 {
        message == "nonce length is invalid"@
    } else {
        match (
            open_bytes(key, nonce.take(12), question_cipher, aad),
            open_bytes(key, nonce.skip(12), answer_cipher, aad),
        ) {
            (None, _) => message == "question decryption failed"@,
            (Some(_), None) => message == "answer decryption failed"@,
            (Some(q), Some(_)) => if !valid_utf8(q) {
                "question is not UTF-8: "@.is_prefix_of(message)
            } else {
                "answer is not UTF-8: "@.is_prefix_of(message)
            },
        }
    }
}

/// A freshly encrypted payload: each field sealed under its own nonce, the nonce
/// field holding both nonces, and the associated data kept verbatim.
pub open spec fn sealed_payload(
    key: Seq<u8>,
    question: Seq<char>,
    answer: Seq<char>,
    aad: Seq<u8>,
    e: EncryptedPayload,
) -> bool {
    &&& e.nonce@.len() == 24
    &&& e.aad@ == aad
    &&& e.question_cipher@.len() == encode_utf8(question).len() + 16
    &&& e.answer_cipher@.len() == encode_utf8(answer).len() + 16
    &&& e.question_cipher@ == chacha20poly1305_seal(key, e.nonce@.take(12), encode_utf8(question), aad)
    &&& e.answer_cipher@ == chacha20poly1305_seal(key, e.nonce@.skip(12), encode_utf8(answer), aad)
}

// ---------------------------------------------------------------------------
// Implementation
// ---------------------------------------------------------------------------

/// The encrypted form of an item's question and answer.
pub struct EncryptedPayload {
    pub question_cipher: Vec<u8>,
    pub answer_cipher: Vec<u8>,
    pub nonce: Vec<u8>,
    pub aad: Vec<u8>,
}

/// Holds the 32-byte master key that wraps every per-item key.
#[derive(Clone)]
pub struct CryptoBox {
    master_key: [u8; 32],
}

impl CryptoBox {
    /// The master key.
    pub closed spec fn master_key(self) -> Seq<u8> {
        self.master_key@
    }

    /// The master key is 32 bytes long.
    pub proof fn lemma_master_key_len(&self)
        ensures
            self.master_key().len() == 32,
    {
    }

    /// The master key is the SHA-256 digest of the master secret.
    pub fn new(master_secret: &[u8]) -> (b: CryptoBox)
        ensures
            b.master_key() == sha256(master_secret@),
    {
        CryptoBox { master_key: sha256_digest(master_secret) }
    }

    /// A fresh random 32-byte item key.
    pub fn generate_item_key(&self) -> [u8; 32] {
        let mut key = [0u8; 32];
        fill_random(&mut key);
        key
    }

    /// The stored form of an item key: its exclusive or with the master key.
    pub fn wrap_key(&self, item_key: &[u8; 32]) -> (w: Vec<u8>)
        ensures
            w@ == xor_bytes(item_key@, self.master_key()),
            w@.len() == 32,
    {
        let k = xor32(item_key, &self.master_key);
        slice_to_vec(k.as_slice())
    }

    /// Recovers an item key from its stored form; a stored form that is not 32
    /// bytes long (a destroyed key is empty) is refused.
    pub fn unwrap_key(&self, wrapped_key: &[u8]) -> (r: Result<[u8; 32], SielError>)
        ensures
            r is Ok <==> wrapped_key@.len() == 32,
            r matches Ok(k) ==> k@ == xor_bytes(wrapped_key@, self.master_key()),
            r matches Err(e) ==> e matches SielError::Crypto(m) && m@
                == "wrapped key is invalid or destroyed"@,
    {
        if wrapped_key.len() != 32 {
            return Err(SielError::Crypto("wrapped key is invalid or destroyed".to_string()));
        }
        let mut wrapped = [0u8; 32];
        for idx in 0..32
            invariant
                wrapped_key@.len() == 32,
                forall|j: int| 0 <= j < idx ==> wrapped@[j] == wrapped_key@[j],
        {
            wrapped[idx] = wrapped_key[idx];
        }
        assert(wrapped@ =~= wrapped_key@);
        Ok(xor32(&wrapped, &self.master_key))
    }

    /// Seals the question and the answer under the item key, each under its own
    /// random nonce.  Fails exactly when a field is too long for the cipher; a
    /// sealed payload always decrypts back to the question and the answer.
    pub fn encrypt_payload(&self, item_key: &[u8; 32], question: &str, answer: &str, aad: &[u8]) -> (r:
        Result<EncryptedPayload, SielError>)
        ensures
            r is Ok <==> aead_msg_fits(encode_utf8(question@).len()) && aead_msg_fits(
                encode_utf8(answer@).len(),
            ),
            r matches Err(e) ==> e matches SielError::Crypto(m) && m@ == if aead_msg_fits(
                encode_utf8(question@).len(),
            ) {
                "answer encryption failed"@
            } else {
                "question encryption failed"@
            },
            r matches Ok(e) ==> sealed_payload(item_key@, question@, answer@, aad@, e),
            r matches Ok(e) ==> spec_decrypt_payload(
                item_key@,
                e.question_cipher@,
                e.answer_cipher@,
                e.nonce@,
                e.aad@,
            ) == Some((question@, answer@)),
    {
        if !msg_fits(question.as_bytes().len()) {
            return Err(SielError::Crypto("question encryption failed".to_string()));
        }
        if !msg_fits(answer.as_bytes().len()) {
            return Err(SielError::Crypto("answer encryption failed".to_string()));
        }
        let mut question_nonce = [0u8; 12];
        let mut answer_nonce = [0u8; 12];
        fill_random(&mut question_nonce);
        fill_random(&mut answer_nonce);
        let question_cipher = match aead_encrypt(item_key, &question_nonce, question.as_bytes(), aad) {
            Ok(c) => c,
            Err(_) => {
                return Err(SielError::Crypto("question encryption failed".to_string()));
            },
        };
        let answer_cipher = match aead_encrypt(item_key, &answer_nonce, answer.as_bytes(), aad) {
            Ok(c) => c,
            Err(_) => {
                return Err(SielError::Crypto("answer encryption failed".to_string()));
            },
        };
        let mut nonce: Vec<u8> = Vec::with_capacity(24);
        nonce.extend_from_slice(question_nonce.as_slice());
        nonce.extend_from_slice(answer_nonce.as_slice());
        proof {
            assert(nonce@.take(12) =~= question_nonce@);
            assert(nonce@.skip(12) =~= answer_nonce@);
            encode_utf8_valid_utf8(question@);
            encode_utf8_valid_utf8(answer@);
            encode_utf8_decode_utf8(question@);
            encode_utf8_decode_utf8(answer@);
        }
        Ok(EncryptedPayload { question_cipher, answer_cipher, nonce, aad: slice_to_vec(aad) })
    }

    /// Opens a stored payload: the nonce field must hold 24 bytes, both fields must
    /// authenticate, and both must be UTF-8; every failure is a `Crypto` error whose
    /// message names the first check that failed.
    pub fn decrypt_payload(
        &self,
        item_key: &[u8; 32],
        question_cipher: &[u8],
        answer_cipher: &[u8],
        nonce: &[u8],
        aad: &[u8],
    ) -> (r: Result<(String, String), SielError>)
        ensures
            match r {
                Ok((q, a)) => spec_decrypt_payload(
                    item_key@,
                    question_cipher@,
                    answer_cipher@,
                    nonce@,
                    aad@,
                ) == Some((q@, a@)),
                Err(e) => spec_decrypt_payload(
                    item_key@,
                    question_cipher@,
                    answer_cipher@,
                    nonce@,
                    aad@,
                ) is None && (e matches SielError::Crypto(m) && decrypt_failure(
                    item_key@,
                    question_cipher@,
                    answer_cipher@,
                    nonce@,
                    aad@,
                    m@,
                )),
            },
    {
        if nonce.len() != 24 {
            return Err(SielError::Crypto("nonce length is invalid".to_string()));
        }
        let (question_nonce, answer_nonce) = nonce.split_at(12);
        assert(question_nonce@ =~= nonce@.take(12));
        assert(answer_nonce@ =~= nonce@.skip(12));
        if !ct_fits(question_cipher.len()) {
            return Err(SielError::Crypto("question decryption failed".to_string()));
        }
        let question = match aead_decrypt(item_key, question_nonce, question_cipher, aad) {
            Ok(p) => p,
            Err(_) => {
                return Err(SielError::Crypto("question decryption failed".to_string()));
            },
        };
        if !ct_fits(answer_cipher.len()) {
            return Err(SielError::Crypto("answer decryption failed".to_string()));
        }
        let answer = match aead_decrypt(item_key, answer_nonce, answer_cipher, aad) {
            Ok(p) => p,
            Err(_) => {
                return Err(SielError::Crypto("answer decryption failed".to_string()));
            },
        };
        let question = match string_from_utf8(question) {
            Ok(s) => s,
            Err(err) => {
                let m = prefixed("question is not UTF-8: ", utf8_error_text(&err));
                return Err(SielError::Crypto(m));
            },
        };
        let answer = match string_from_utf8(answer) {
            Ok(s) => s,
            Err(err) => {
                let m = prefixed("answer is not UTF-8: ", utf8_error_text(&err));
                return Err(SielError::Crypto(m));
            },
        };
        Ok((question, answer))
    }
}

/// `prefix` followed by `rest`.
fn prefixed(prefix: &str, rest: String) -> (m: String)
    ensures
        m@ == prefix@ + rest@,
        prefix@.is_prefix_of(m@),
{
    let mut m = prefix.to_string();
    m.append(rest.as_str());
    assert(m@.subrange(0, prefix@.len() as int) =~= prefix@);
    m
}

/// Whether a message of `len` bytes fits one cipher call.
fn msg_fits(len: usize) -> (b: bool)
    ensures
        b == aead_msg_fits(len as nat),
{
    (len as u64) <= 0x3f_ffff_ff80u64
}

/// Whether a ciphertext of `len` bytes fits one cipher call.
fn ct_fits(len: usize) -> (b: bool)
    ensures
        b == aead_ct_fits(len as nat),
{
    len < 16 || msg_fits(len - 16)
}

/// Byte-wise exclusive or of two 32-byte keys.
pub fn xor32(a: &[u8; 32], b: &[u8; 32]) -> (out: [u8; 32])
    ensures
        out@ == xor_bytes(a@, b@),
{
    let mut out = [0u8; 32];
    for idx in 0..32
        invariant
            out@.len() == 32,
            forall|j: int| 0 <= j < idx ==> out@[j] == a@[j] ^ b@[j],
    {
        out[idx] = a[idx] ^ b[idx];
    }
    assert(out@ =~= xor_bytes(a@, b@));
    out
}

/// Exclusive or of byte strings does not depend on the order of its operands,
/// and with all-zero bytes it changes nothing.
pub proof fn lemma_xor_laws(a: Seq<u8>, b: Seq<u8>)
    requires
        a.len() == b.len(),
    ensures
        xor_bytes(a, b) == xor_bytes(b, a),
        xor_bytes(a, Seq::new(a.len(), |i: int| 0u8)) == a,
{
    let z = Seq::new(a.len(), |i: int| 0u8);
    assert forall|i: int| 0 <= i < a.len() implies #[trigger] xor_bytes(a, b)[i] == xor_bytes(b, a)[i] by {
        let x = a[i];
        let y = b[i];
        assert(x ^ y == y ^ x) by (bit_vector);
    }
    assert forall|i: int| 0 <= i < a.len() implies #[trigger] xor_bytes(a, z)[i] == a[i] by {
        let x = a[i];
        assert(z[i] == 0u8);
        assert(x ^ 0u8 == x) by (bit_vector);
    }
    assert(xor_bytes(a, b) =~= xor_bytes(b, a));
    assert(xor_bytes(a, z) =~= a);
}

/// Wrapping is undone by unwrapping: the exclusive or with the master key is its
/// own inverse, so `unwrap_key(wrap_key(k))` gives `k` back.
pub proof fn lemma_unwrap_wrap(master_key: Seq<u8>, item_key: Seq<u8>)
    requires
        master_key.len() == 32,
        item_key.len() == 32,
    ensures
        xor_bytes(xor_bytes(item_key, master_key), master_key) == item_key,
{
    assert forall|i: int| 0 <= i < 32 implies #[trigger] xor_bytes(
        xor_bytes(item_key, master_key),
        master_key,
    )[i] == item_key[i] by {
        let a = item_key[i];
        let b = master_key[i];
        assert((a ^ b) ^ b == a) by (bit_vector);
    }
    assert(xor_bytes(xor_bytes(item_key, master_key), master_key) =~= item_key);
}

} // verus!
