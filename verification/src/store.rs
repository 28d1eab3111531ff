//! The knowledge store: what is written for an item (its wrapped key, its sealed
//! payload, its checksum) and how a stored row is read back.  The SQL statements
//! that move these values to and from the database file are run by the caller.
use vstd::prelude::*;
use vstd::utf8::encode_utf8;

use crate::crypto::{
    aead_msg_fits, decrypt_failure, lemma_unwrap_wrap, sealed_payload, sha256, sha256_digest, spec_decrypt_payload,
    xor_bytes, CryptoBox, EncryptedPayload,
};
use crate::error::SielError;
use crate::types::{KnowledgePayload, KnowledgeStatus, TeachProposalKind, TeachResponse, TeachRequest};

verus! {

// ---------------------------------------------------------------------------
// Checksums
// ---------------------------------------------------------------------------

/// The lower-case hexadecimal digit of a nibble.
pub open spec fn hex_digit(n: u8) -> char {
    if n < 10 {
        (48 + n) as char
    } else {
        (87 + n) as char
    }
}

/// Lower-case hexadecimal: two digits per byte, high nibble first.
pub open spec fn hex_lower(data: Seq<u8>) -> Seq<char> {
    Seq::new(
        2 * data.len(),
        |i: int|
            if i % 2 == 0 {
                hex_digit(data[i / 2] / 16)
            } else {
                hex_digit(data[i / 2] % 16)
            },
    )
}

/// `hex::encode`: every byte as two lower-case hexadecimal digits, high nibble
/// first.
#[verifier::external_body]
fn hex_encode(data: &[u8]) -> (s: String)
    ensures
        s@ == hex_lower(data@),
{
    hex::encode(data)
}

/// The bytes whose digest is an item's checksum: the question, a zero byte, the
/// answer.
pub open spec fn checksum_input(question: Seq<char>, answer: Seq<char>) -> Seq<u8> {
    encode_utf8(question) + seq![0u8] + encode_utf8(answer)
}

/// The SHA-256 digest of question, zero byte and answer, in lower-case hex.
pub fn checksum(question: &str, answer: &str) -> (c: String)
    ensures
        c@ == hex_lower(sha256(checksum_input(question@, answer@))),
{
    let mut data: Vec<u8> = Vec::new();
    data.extend_from_slice(question.as_bytes());
    data.push(0u8);
    data.extend_from_slice(answer.as_bytes());
    assert(data@ =~= checksum_input(question@, answer@));
    let digest = sha256_digest(data.as_slice());
    hex_encode(digest.as_slice())
}

// ---------------------------------------------------------------------------
// Items
// ---------------------------------------------------------------------------

/// The handle on a knowledge store: the database file and the master key.
pub struct SielDb {
    path: String,
    crypto: CryptoBox,
}

/// What is written for a new item.
pub struct SealedItem {
    pub wrapped_key: Vec<u8>,
    pub payload: EncryptedPayload,
    pub checksum: String,
}

/// The columns read back for an item's payload.
pub struct PayloadRow {
    pub wrapped_key: Vec<u8>,
    pub question_cipher: Vec<u8>,
    pub answer_cipher: Vec<u8>,
    pub nonce: Vec<u8>,
    pub aad: Vec<u8>,
}

/// What a stored row decrypts to: the wrapped key must be 32 bytes (a destroyed
/// key is empty), and the payload must open under the unwrapped key.
pub open spec fn spec_open_row(master_key: Seq<u8>, row: PayloadRow) -> Option<(Seq<char>, Seq<char>)> {
    if row.wrapped_key@.len() != 32 {
        None
    } else {
        spec_decrypt_payload(
            xor_bytes(row.wrapped_key@, master_key),
            row.question_cipher@,
            row.answer_cipher@,
            row.nonce@,
            row.aad@,
        )
    }
}

/// The message of a row that cannot be read: a key that is not 32 bytes long
/// (a destroyed key is empty) is refused first, then the payload's checks apply.
pub open spec fn open_row_failure(master_key: Seq<u8>, row: PayloadRow, message: Seq<char>) -> bool {
    if row.wrapped_key@.len() != 32 {
        message == "wrapped key is invalid or destroyed"@
    } else {
        decrypt_failure(
            xor_bytes(row.wrapped_key@, master_key),
            row.question_cipher@,
            row.answer_cipher@,
            row.nonce@,
            row.aad@,
            message,
        )
    }
}

/// The row that stores a sealed item.
pub open spec fn row_of(s: SealedItem) -> PayloadRow {
    PayloadRow {
        wrapped_key: s.wrapped_key,
        question_cipher: s.payload.question_cipher,
        answer_cipher: s.payload.answer_cipher,
        nonce: s.payload.nonce,
        aad: s.payload.aad,
    }
}

/// `s` stores `question` and `answer` for `item_id`: a 32-byte item key wrapped
/// with the master key, the payload sealed under that key with the item id as
/// associated data, and the checksum of question and answer.
pub open spec fn sealed_item(
    master_key: Seq<u8>,
    item_id: Seq<char>,
    question: Seq<char>,
    answer: Seq<char>,
    s: SealedItem,
) -> bool {
    &&& s.wrapped_key@.len() == 32
    &&& sealed_payload(
        xor_bytes(s.wrapped_key@, master_key),
        question,
        answer,
        encode_utf8(item_id),
        s.payload,
    )
    &&& s.checksum@ == hex_lower(sha256(checksum_input(question, answer)))
    &&& spec_decrypt_payload(
        xor_bytes(s.wrapped_key@, master_key),
        s.payload.question_cipher@,
        s.payload.answer_cipher@,
        s.payload.nonce@,
        s.payload.aad@,
    ) == Some((question, answer))
}

impl SielDb {
    pub closed spec fn spec_path(&self) -> Seq<char> {
        self.path@
    }

    pub closed spec fn master_key(&self) -> Seq<u8> {
        self.crypto.master_key()
    }

    /// The handle on the store at `path`, whose master key derives from the
    /// secret.  The caller applies the schema to the file before first use.
    pub fn open(path: &str, master_secret: &[u8]) -> (db: SielDb)
        ensures
            db.spec_path() == path@,
            db.master_key() == sha256(master_secret@),
    {
        SielDb { path: path.to_string(), crypto: CryptoBox::new(master_secret) }
    }

    pub fn path(&self) -> (p: &str)
        ensures
            p@ == self.spec_path(),
    {
        self.path.as_str()
    }

    pub fn crypto(&self) -> (c: &CryptoBox)
        ensures
            c.master_key() == self.master_key(),
    {
        &self.crypto
    }

    /// Prepares a new item: a fresh random item key, wrapped; question and answer
    /// sealed under it with the item id as associated data; and the checksum.
    /// Fails exactly when a field is too long for the cipher.
    pub fn seal_item(&self, item_id: &str, question: &str, answer: &str) -> (r: Result<SealedItem, SielError>)
        ensures
            r is Ok <==> aead_msg_fits(encode_utf8(question@).len()) && aead_msg_fits(
                encode_utf8(answer@).len(),
            ),
            r matches Err(e) ==> (e matches SielError::Crypto(m) && m@ == if aead_msg_fits(
                encode_utf8(question@).len(),
            ) {
                "answer encryption failed"@
            } else {
                "question encryption failed"@
            }),
            r matches Ok(s) ==> sealed_item(self.master_key(), item_id@, question@, answer@, s),
    {
        let item_key = self.crypto.generate_item_key();
        let wrapped_key = self.crypto.wrap_key(&item_key);
        let payload = match self.crypto.encrypt_payload(&item_key, question, answer, item_id.as_bytes()) {
            Ok(p) => p,
            Err(e) => {
                return Err(e);
            },
        };
        let checksum = checksum(question, answer);
        proof {
            self.crypto.lemma_master_key_len();
            lemma_unwrap_wrap(self.crypto.master_key(), item_key@);
        }
        Ok(SealedItem { wrapped_key, payload, checksum })
    }

    /// Reads an item's payload back from its stored row; every failure (a
    /// destroyed or malformed key, a payload that does not open) is a `Crypto`
    /// error.
    pub fn open_payload(&self, item_id: &str, row: &PayloadRow) -> (r: Result<KnowledgePayload, SielError>)
        ensures
            match r {
                Ok(p) => p.item_id@ == item_id@ && spec_open_row(self.master_key(), *row) == Some(
                    (p.question@, p.answer@),
                ),
                Err(e) => spec_open_row(self.master_key(), *row) is None && (e matches SielError::Crypto(
                    m,
                ) && open_row_failure(self.master_key(), *row, m@)),
            },
    {
        let item_key = match self.crypto.unwrap_key(row.wrapped_key.as_slice()) {
            Ok(k) => k,
            Err(e) => {
                return Err(e);
            },
        };
        let (question, answer) = match self.crypto.decrypt_payload(
            &item_key,
            row.question_cipher.as_slice(),
            row.answer_cipher.as_slice(),
            row.nonce.as_slice(),
            row.aad.as_slice(),
        ) {
            Ok(p) => p,
            Err(e) => {
                return Err(e);
            },
        };
        Ok(KnowledgePayload { item_id: item_id.to_string(), question, answer })
    }
}

/// Reading back what was written: the row of a sealed item opens to the question
/// and answer that were sealed.
pub proof fn lemma_read_after_write(
    master_key: Seq<u8>,
    item_id: Seq<char>,
    question: Seq<char>,
    answer: Seq<char>,
    s: SealedItem,
)
    requires
        sealed_item(master_key, item_id, question, answer, s),
    ensures
        spec_open_row(master_key, row_of(s)) == Some((question, answer)),
{
}

/// Erasure: once its wrapped key has been destroyed (emptied), no row can be read.
pub proof fn lemma_destroyed_key_unreadable(master_key: Seq<u8>, row: PayloadRow)
    requires
        row.wrapped_key@.len() == 0,
    ensures
        spec_open_row(master_key, row) is None,
{
}

/// A row that was looked up: absent rows are `NotFound` for the given id.
pub fn found_or_not_found<T>(row: Option<T>, id: &str) -> (r: Result<T, SielError>)
    ensures
        match row {
            Some(v) => r == Ok::<T, SielError>(v),
            None => r matches Err(SielError::NotFound(s)) && s@ == id@,
        },
{
    match row {
        Some(v) => Ok(v),
        None => Err(SielError::NotFound(id.to_string())),
    }
}

impl KnowledgeStatus {
    /// The status stored as `text`; unrecognised text reads as `Candidate`.
    pub fn from_db_text(text: &str) -> (s: KnowledgeStatus)
        ensures
            s == if text@ == "approved"@ {
                KnowledgeStatus::Approved
            } else if text@ == "candidate"@ {
                KnowledgeStatus::Candidate
            } else if text@ == "rejected"@ {
                KnowledgeStatus::Rejected
            } else if text@ == "deleted"@ {
                KnowledgeStatus::Deleted
            } else {
                KnowledgeStatus::Candidate
            },
    {
        let t = text.to_string();
        if t == "approved".to_string() {
            KnowledgeStatus::Approved
        } else if t == "candidate".to_string() {
            KnowledgeStatus::Candidate
        } else if t == "rejected".to_string() {
            KnowledgeStatus::Rejected
        } else if t == "deleted".to_string() {
            KnowledgeStatus::Deleted
        } else {
            KnowledgeStatus::Candidate
        }
    }
}

impl TeachRequest {
    /// The language of a taught item: the requested one, Italian by default.
    pub fn lang_or_default(&self) -> (l: String)
        ensures
            l@ == match self.lang {
                Some(s) => s@,
                None => "it"@,
            },
    {
        match &self.lang {
            Some(s) => s.clone(),
            None => "it".to_string(),
        }
    }
}

/// The answer to a teach request: a new candidate awaiting approval.
pub fn new_candidate_response(candidate_id: String, audit_id: String) -> (r: TeachResponse)
    ensures
        r.candidate_id == candidate_id,
        r.audit_id == audit_id,
        r.proposal == TeachProposalKind::NewItem,
        r.related_item_ids@.len() == 0,
{
    TeachResponse { candidate_id, proposal: TeachProposalKind::NewItem, related_item_ids: Vec::new(), audit_id }
}

} // verus!
