//! The answering policy: confidence thresholds, and the rule that an answer may
//! only cite evidence that was actually retrieved.
use vstd::prelude::*;

use crate::calibrator::{calibrated_value, isotonic_error, isotonic_valid, Calibrator, ConfidenceProfile};
use crate::error::SielError;
use crate::float_bits::{spec_clamp01, spec_f32_le, F32Bits};
use crate::types::{is_unknown_response, Evidence, QueryResponse, QueryStatus};

verus! {

/// The outcome of applying a confidence profile to a raw score.  `confidence`
/// holds the bit pattern of an `f32`.
#[derive(Clone, Debug)]
pub struct PolicyDecision {
    pub status: QueryStatus,
    pub confidence: F32Bits,
    pub confidence_calibrated: bool,
    pub reason: Option<String>,
}

/// `Answered` from the high threshold on, `NeedsClarification` from the low one
/// on, `Unknown` below (and for NaN).
pub open spec fn status_for(confidence: F32Bits, high: F32Bits, low: F32Bits) -> QueryStatus {
    if spec_f32_le(high.0, confidence.0) {
        QueryStatus::Answered
    } else if spec_f32_le(low.0, confidence.0) {
        QueryStatus::NeedsClarification
    } else {
        QueryStatus::Unknown
    }
}

/// How strong a graded status is: `Unknown` below `NeedsClarification` below
/// `Answered`.
pub open spec fn status_rank(s: QueryStatus) -> int {
    match s {
        QueryStatus::Answered => 2,
        QueryStatus::NeedsClarification => 1,
        _ => 0,
    }
}

/// A confidence at least as high never gets a weaker status, whatever the
/// thresholds.
pub proof fn lemma_status_monotone(c1: F32Bits, c2: F32Bits, high: F32Bits, low: F32Bits)
    requires
        spec_f32_le(c1.0, c2.0),
    ensures
        status_rank(status_for(c1, high, low)) <= status_rank(status_for(c2, high, low)),
{
}

/// Under a fixed calibrator, a raw score at least as high never gets a weaker
/// status: clamping keeps the order of the scores.
pub proof fn lemma_fixed_status_monotone(r1: F32Bits, r2: F32Bits, high: F32Bits, low: F32Bits)
    requires
        spec_f32_le(r1.0, r2.0),
    ensures
        spec_f32_le(spec_clamp01(r1.0), spec_clamp01(r2.0)),
        status_rank(status_for(F32Bits(spec_clamp01(r1.0)), high, low)) <= status_rank(
            status_for(F32Bits(spec_clamp01(r2.0)), high, low),
        ),
{
    lemma_status_monotone(F32Bits(spec_clamp01(r1.0)), F32Bits(spec_clamp01(r2.0)), high, low);
}

/// The reason given when the confidence is below the low threshold.
pub open spec fn below_low_reason() -> Seq<char> {
    "confidence below low threshold"@
}

/// Calibrates `raw_score` with the profile's calibrator and grades the result
/// against the profile's thresholds.  Fails only when the calibrator is invalid.
pub fn decide(raw_score: F32Bits, profile: &ConfidenceProfile) -> (r: Result<PolicyDecision, SielError>)
    ensures
        r is Err <==> (profile.calibrator matches Calibrator::Isotonic(m) && !isotonic_valid(
            m.x_thresholds@,
            m.y_probabilities@,
        )),
        r matches Err(e) ==> (profile.calibrator matches Calibrator::Isotonic(m) && e matches SielError::InvalidInput(
            t,
        ) && t@ == isotonic_error(m.x_thresholds@, m.y_probabilities@)),
        r matches Ok(d) ==> {
            &&& calibrated_value(profile.calibrator, raw_score, d.confidence)
            &&& d.confidence_calibrated == (profile.calibrator is Isotonic)
            &&& d.status == status_for(d.confidence, profile.threshold_high, profile.threshold_low)
            &&& (d.reason is Some <==> d.status == QueryStatus::Unknown)
            &&& (d.reason matches Some(s) ==> s@ == below_low_reason())
        },
{
    let (confidence, calibrated) = profile.calibrator.predict(raw_score)?;
    let status = if profile.threshold_high.le(confidence) {
        QueryStatus::Answered
    } else if profile.threshold_low.le(confidence) {
        QueryStatus::NeedsClarification
    } else {
        QueryStatus::Unknown
    };
    let reason = if status == QueryStatus::Unknown {
        Some("confidence below low threshold".to_string())
    } else {
        None
    };
    Ok(PolicyDecision { status, confidence, confidence_calibrated: calibrated, reason })
}

/// The identifiers of the retrieved evidence.
pub open spec fn evidence_ids(retrieved: Seq<Evidence>) -> Seq<Seq<char>> {
    retrieved.map_values(|e: Evidence| e.item_id@)
}

/// Every cited identifier belongs to a retrieved item.
pub open spec fn all_supported(support_ids: Seq<String>, retrieved: Seq<Evidence>) -> bool {
    forall|i: int| 0 <= i < support_ids.len() ==> evidence_ids(retrieved).contains(#[trigger] support_ids[i]@)
}

/// Some retrieved item came from a stale embedding.
pub open spec fn any_stale(retrieved: Seq<Evidence>) -> bool {
    exists|i: int| 0 <= i < retrieved.len() && #[trigger] retrieved[i].stale_embedding
}

/// The reason given when an answer cites evidence that was not retrieved.
pub open spec fn unretrieved_reason() -> Seq<char> {
    "model cited support_ids that were not retrieved"@
}

/// The reason given when an answer cites no evidence at all.
pub open spec fn unsupported_reason() -> Seq<char> {
    "answered response had no supporting evidence"@
}

/// Whether `id` is the identifier of some retrieved item.
pub fn is_retrieved(id: &String, retrieved: &[Evidence]) -> (b: bool)
    ensures
        b == evidence_ids(retrieved@).contains(id@),
{
    let mut i: usize = 0;
    while i < retrieved.len()
        invariant
            i <= retrieved@.len(),
            forall|j: int| 0 <= j < i ==> retrieved@[j].item_id@ != id@,
        decreases retrieved@.len() - i,
    {
        if retrieved[i].item_id == *id {
            assert(evidence_ids(retrieved@)[i as int] == id@);
            return true;
        }
        i = i + 1;
    }
    proof {
        if evidence_ids(retrieved@).contains(id@) {
            let j = choose|j: int| 0 <= j < evidence_ids(retrieved@).len() && evidence_ids(retrieved@)[j] == id@;
            assert(retrieved@[j].item_id@ == id@);
        }
    }
    false
}

/// Whether every cited identifier belongs to a retrieved item.
pub fn cites_only_retrieved(support_ids: &Vec<String>, retrieved: &[Evidence]) -> (b: bool)
    ensures
        b == all_supported(support_ids@, retrieved@),
{
    let mut i: usize = 0;
    while i < support_ids.len()
        invariant
            i <= support_ids@.len(),
            forall|j: int| 0 <= j < i ==> evidence_ids(retrieved@).contains(#[trigger] support_ids@[j]@),
        decreases support_ids@.len() - i,
    {
        if !is_retrieved(&support_ids[i], retrieved) {
            return false;
        }
        i = i + 1;
    }
    true
}

/// Whether some retrieved item came from a stale embedding.
pub fn has_stale(retrieved: &[Evidence]) -> (b: bool)
    ensures
        b == any_stale(retrieved@),
{
    let mut i: usize = 0;
    while i < retrieved.len()
        invariant
            i <= retrieved@.len(),
            forall|j: int| 0 <= j < i ==> !(#[trigger] retrieved@[j]).stale_embedding,
        decreases retrieved@.len() - i,
    {
        if retrieved[i].stale_embedding {
            return true;
        }
        i = i + 1;
    }
    false
}

/// `v` is what the support check makes of `response`: see
/// `validate_supported_response`.
pub open spec fn supported_outcome(response: QueryResponse, retrieved: Seq<Evidence>, v: QueryResponse) -> bool {
    if !all_supported(response.support_ids@, retrieved) {
        is_unknown_response(v, unretrieved_reason())
    } else if response.status == QueryStatus::Answered && response.support_ids@.len() == 0 {
        is_unknown_response(v, unsupported_reason())
    } else {
        v == (QueryResponse {
            stale_embeddings_detected: response.stale_embeddings_detected || any_stale(retrieved),
            ..response
        })
    }
}

/// Checks a model answer against the retrieved evidence: an answer that cites an
/// unretrieved item, or that claims to answer while citing nothing, is replaced by
/// an `Unknown` response giving the reason; otherwise the answer is kept, flagged
/// as stale when it already was or when any retrieved item is stale.
pub fn validate_supported_response(response: QueryResponse, retrieved: &[Evidence]) -> (r: Result<
    QueryResponse,
    SielError,
>)
    ensures
        r matches Ok(v) && supported_outcome(response, retrieved@, v),
        all_supported(response.support_ids@, retrieved@) && (response.status != QueryStatus::Answered
            || response.support_ids@.len() > 0) ==> r == Ok::<QueryResponse, SielError>(
            QueryResponse {
                stale_embeddings_detected: response.stale_embeddings_detected || exists|j: int|
                    0 <= j < retrieved@.len() && (#[trigger] retrieved@[j]).stale_embedding,
                ..response
            },
        ),
{
    let mut response = response;
    if !cites_only_retrieved(&response.support_ids, retrieved) {
        return Ok(QueryResponse::unknown("model cited support_ids that were not retrieved"));
    }
    if response.status == QueryStatus::Answered && response.support_ids.len() == 0 {
        return Ok(QueryResponse::unknown("answered response had no supporting evidence"));
    }
    let stale = has_stale(retrieved);
    response.stale_embeddings_detected = response.stale_embeddings_detected || stale;
    Ok(response)
}

/// The strict variant used before an answer is shown: citing an unretrieved item,
/// or answering while citing nothing, is a `Policy` error.
pub fn strict_support_check(response: &QueryResponse, evidences: &[Evidence]) -> (r: Result<
    (),
    SielError,
>)
    ensures
        r is Ok <==> all_supported(response.support_ids@, evidences@) && !(response.status
            == QueryStatus::Answered && response.support_ids@.len() == 0),
        r matches Err(e) ==> (e matches SielError::Policy(m) && m@ == if !all_supported(
            response.support_ids@,
            evidences@,
        ) {
            "response cited support_ids outside retrieved evidence"@
        } else {
            "answered response has no support_ids"@
        }),
{
    if !cites_only_retrieved(&response.support_ids, evidences) {
        return Err(
            SielError::Policy("response cited support_ids outside retrieved evidence".to_string()),
        );
    }
    if response.status == QueryStatus::Answered && response.support_ids.len() == 0 {
        return Err(SielError::Policy("answered response has no support_ids".to_string()));
    }
    Ok(())
}

/// The support check replaces an answer only when it cites an unretrieved item
/// or claims `Answered` without citing anything: a response that cites only
/// retrieved items and does not claim `Answered` comes back unchanged, except
/// that it is flagged stale when any retrieved item is; so does an `Answered`
/// one that cites at least one retrieved item.
pub proof fn lemma_support_check_keeps_supported(response: QueryResponse, retrieved: Seq<Evidence>, v: QueryResponse)
    requires
        supported_outcome(response, retrieved, v),
        all_supported(response.support_ids@, retrieved),
        response.status != QueryStatus::Answered || response.support_ids@.len() > 0,
    ensures
        v == (QueryResponse {
            stale_embeddings_detected: response.stale_embeddings_detected || exists|j: int|
                0 <= j < retrieved.len() && (#[trigger] retrieved[j]).stale_embedding,
            ..response
        }),
{
}

/// An `Answered` response that cites nothing is replaced by an `Unknown` one
/// that gives the reason.
pub proof fn lemma_uncited_answer_is_declined(response: QueryResponse, retrieved: Seq<Evidence>, v: QueryResponse)
    requires
        supported_outcome(response, retrieved, v),
        response.status == QueryStatus::Answered,
        response.support_ids@.len() == 0,
    ensures
        v.status == QueryStatus::Unknown,
        v.support_ids@.len() == 0,
        v.missing_information@.len() == 1,
        v.missing_information@[0]@ == "answered response had no supporting evidence"@,
{
}

/// Whatever the support check lets through passes the strict check: it cites only
/// retrieved items, and it does not claim an answer without citing one.
pub proof fn lemma_validated_passes_strict_check(
    response: QueryResponse,
    retrieved: Seq<Evidence>,
    v: QueryResponse,
)
    requires
        supported_outcome(response, retrieved, v),
    ensures
        all_supported(v.support_ids@, retrieved),
        !(v.status == QueryStatus::Answered && v.support_ids@.len() == 0),
{
}

} // verus!
