//! Domain types shared by storage, retrieval, policy and the model bridge.
use vstd::prelude::*;

use crate::float_bits::{F32Bits, F32_ZERO};
use crate::uuid_gen::{is_uuid_v4_text, uuid_v4_string};

verus! {

/// Outcome of a query.
#[derive(Clone, Copy, Debug, PartialEq, Eq, Structural)]
pub enum QueryStatus {
    Answered,
    NeedsClarification,
    Unknown,
    Conflict,
}

/// Lifecycle state of a knowledge item.
#[derive(Clone, Copy, Debug, PartialEq, Eq, Structural)]
pub enum KnowledgeStatus {
    Approved,
    Candidate,
    Rejected,
    Deleted,
}

/// An embedding model and the version of it that produced a vector.
#[derive(Clone, Debug, PartialEq, Eq)]
pub struct ModelRef {
    pub model_id: String,
    pub model_version: String,
}

#[derive(Clone, Debug)]
pub struct QueryRequest {
    pub query: String,
    pub lang: Option<String>,
    pub domain: Option<String>,
    pub embedding_model: Option<ModelRef>,
    pub max_hits: Option<usize>,
}

/// The answer to a query.  `confidence` holds the bit pattern of an `f32`.
#[derive(Clone, Debug)]
pub struct QueryResponse {
    pub answer: String,
    pub status: QueryStatus,
    pub confidence: F32Bits,
    pub confidence_calibrated: bool,
    pub confidence_profile_id: String,
    pub support_ids: Vec<String>,
    pub source_ids: Vec<String>,
    pub missing_information: Vec<String>,
    pub learning_suggestion: Option<String>,
    pub stale_embeddings_detected: bool,
}

/// A retrieved item with its score (the bit pattern of an `f32`).
#[derive(Clone, Debug)]
pub struct Evidence {
    pub item_id: String,
    pub question: String,
    pub answer: String,
    pub source_id: Option<String>,
    pub score: F32Bits,
    pub stale_embedding: bool,
}

/// Metadata of a stored knowledge item.  `reliability` holds the bit pattern of an
/// `f32`.
#[derive(Clone, Debug)]
pub struct KnowledgeItem {
    pub id: String,
    pub lang: String,
    pub domain: Option<String>,
    pub status: KnowledgeStatus,
    pub reliability: F32Bits,
    pub confidence_profile_id: String,
    pub source_id: Option<String>,
    pub version: i64,
    pub checksum_sha256: String,
    pub deleted_at: Option<String>,
    pub encryption_key_id: Option<String>,
}

/// The decrypted question and answer of an item.
#[derive(Clone, Debug)]
pub struct KnowledgePayload {
    pub item_id: String,
    pub question: String,
    pub answer: String,
}

#[derive(Clone, Debug)]
pub struct TeachRequest {
    pub question: String,
    pub answer: String,
    pub lang: Option<String>,
    pub domain: Option<String>,
    pub source_id: Option<String>,
}

#[derive(Clone, Copy, Debug, PartialEq, Eq, Structural)]
pub enum TeachProposalKind {
    NewItem,
    VariantAdded,
    DuplicateCandidate,
    Conflict,
}

#[derive(Clone, Debug)]
pub struct TeachResponse {
    pub candidate_id: String,
    pub proposal: TeachProposalKind,
    pub related_item_ids: Vec<String>,
    pub audit_id: String,
}

#[derive(Clone, Debug)]
pub struct ApproveRequest {
    pub candidate_id: String,
}

#[derive(Clone, Debug)]
pub struct ApproveResponse {
    pub item_id: String,
    pub audit_id: String,
}

/// The answer text of a response that declines to answer.
pub open spec fn unknown_answer_text() -> Seq<char> {
    "Non lo so con sufficiente certezza."@
}

/// `r` declines to answer, giving `reason` as the only missing information.
pub open spec fn is_unknown_response(r: QueryResponse, reason: Seq<char>) -> bool {
    &&& r.answer@ == unknown_answer_text()
    &&& r.status == QueryStatus::Unknown
    &&& r.confidence == F32Bits(F32_ZERO)
    &&& !r.confidence_calibrated
    &&& r.confidence_profile_id@ == "default"@
    &&& r.support_ids@.len() == 0
    &&& r.source_ids@.len() == 0
    &&& r.missing_information@.len() == 1
    &&& r.missing_information@[0]@ == reason
    &&& r.learning_suggestion is None
    &&& !r.stale_embeddings_detected
}

impl QueryResponse {
    /// A response that declines to answer for the given reason.
    pub fn unknown(reason: &str) -> (r: QueryResponse)
        ensures
            is_unknown_response(r, reason@),
    {
        let mut missing: Vec<String> = Vec::new();
        missing.push(reason.to_string());
        QueryResponse {
            answer: "Non lo so con sufficiente certezza.".to_string(),
            status: QueryStatus::Unknown,
            confidence: F32Bits(F32_ZERO),
            confidence_calibrated: false,
            confidence_profile_id: "default".to_string(),
            support_ids: Vec::new(),
            source_ids: Vec::new(),
            missing_information: missing,
            learning_suggestion: None,
            stale_embeddings_detected: false,
        }
    }
}

/// A fresh identifier: the prefix, an underscore, then a random version-4 UUID in
/// its 36-character hyphenated form.
pub fn new_id(prefix: &str) -> (id: String)
    ensures
        id@.len() == prefix@.len() + 37,
        id@.take(prefix@.len() as int) == prefix@,
        id@[prefix@.len() as int] == '_',
        is_uuid_v4_text(id@.skip(prefix@.len() + 1int)),
{
    let uuid = uuid_v4_string();
    let mut id = prefix.to_string();
    id.append("_");
    id.append(uuid.as_str());
    proof {
        reveal_strlit("_");
        assert(id@.take(prefix@.len() as int) =~= prefix@);
        assert(id@.skip(prefix@.len() + 1int) =~= uuid@);
    }
    id
}

} // verus!
