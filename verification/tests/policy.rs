use siel::float_bits::F32Bits;
use siel::policy::{decide, strict_support_check, validate_supported_response};
use siel::types::{Evidence, QueryResponse, QueryStatus};

fn bits(x: f32) -> F32Bits {
    F32Bits(x.to_bits())
}

fn response(status: QueryStatus, support: &[&str]) -> QueryResponse {
    QueryResponse {
        answer: "test".to_string(),
        status,
        confidence: bits(0.9),
        confidence_calibrated: false,
        confidence_profile_id: "default".to_string(),
        support_ids: support.iter().map(|s| s.to_string()).collect(),
        source_ids: Vec::new(),
        missing_information: Vec::new(),
        learning_suggestion: None,
        stale_embeddings_detected: false,
    }
}

fn evidence(id: &str, stale: bool) -> Evidence {
    Evidence {
        item_id: id.to_string(),
        question: "q".to_string(),
        answer: "a".to_string(),
        source_id: None,
        score: bits(0.5),
        stale_embedding: stale,
    }
}

#[test]
fn answered_without_support_becomes_unknown() {
    let response = QueryResponse {
        answer: "test".to_string(),
        status: QueryStatus::Answered,
        confidence: bits(0.9),
        confidence_calibrated: false,
        confidence_profile_id: "default".to_string(),
        support_ids: Vec::new(),
        source_ids: Vec::new(),
        missing_information: Vec::new(),
        learning_suggestion: None,
        stale_embeddings_detected: false,
    };

    let checked = validate_supported_response(response, &[]).unwrap();
    assert_eq!(checked.status, QueryStatus::Unknown);
}

#[test]
fn unretrieved_citation_becomes_unknown_with_reason() {
    let checked =
        validate_supported_response(response(QueryStatus::Answered, &["x"]), &[evidence("y", false)])
            .unwrap();
    assert_eq!(checked.status, QueryStatus::Unknown);
    assert_eq!(checked.answer, "Non lo so con sufficiente certezza.");
    assert_eq!(
        checked.missing_information,
        vec!["model cited support_ids that were not retrieved".to_string()]
    );
    assert_eq!(checked.confidence, F32Bits(0));
    assert!(checked.support_ids.is_empty());
}

#[test]
fn supported_answer_is_kept_and_flagged_stale() {
    let checked = validate_supported_response(
        response(QueryStatus::Answered, &["y"]),
        &[evidence("y", false), evidence("z", true)],
    )
    .unwrap();
    assert_eq!(checked.status, QueryStatus::Answered);
    assert_eq!(checked.answer, "test");
    assert_eq!(checked.support_ids, vec!["y".to_string()]);
    assert!(checked.stale_embeddings_detected);
}

#[test]
fn strict_check_reports_policy_errors() {
    assert!(strict_support_check(&response(QueryStatus::Answered, &["y"]), &[evidence("y", false)]).is_ok());
    assert_eq!(
        strict_support_check(&response(QueryStatus::Answered, &["x"]), &[evidence("y", false)])
            .unwrap_err(),
        siel::error::SielError::Policy(
            "response cited support_ids outside retrieved evidence".to_string()
        )
    );
    assert_eq!(
        strict_support_check(&response(QueryStatus::Answered, &[]), &[]).unwrap_err(),
        siel::error::SielError::Policy("answered response has no support_ids".to_string())
    );
    assert!(strict_support_check(&response(QueryStatus::Unknown, &[]), &[]).is_ok());
}

#[test]
fn decide_grades_against_thresholds() {
    let profile = siel::calibrator::ConfidenceProfile::default();
    let high = decide(bits(0.9), &profile).unwrap();
    assert_eq!(high.status, QueryStatus::Answered);
    assert_eq!(high.confidence, bits(0.9));
    assert!(!high.confidence_calibrated);
    assert!(high.reason.is_none());
    let mid = decide(bits(0.7), &profile).unwrap();
    assert_eq!(mid.status, QueryStatus::NeedsClarification);
    let low = decide(bits(0.1), &profile).unwrap();
    assert_eq!(low.status, QueryStatus::Unknown);
    assert_eq!(low.reason.as_deref(), Some("confidence below low threshold"));
    let clamped = decide(bits(3.0), &profile).unwrap();
    assert_eq!(clamped.confidence, bits(1.0));
    assert_eq!(clamped.status, QueryStatus::Answered);
}

#[test]
fn higher_scores_never_weaken_the_status() {
    let profile = siel::calibrator::ConfidenceProfile::default();
    let rank = |s: QueryStatus| match s {
        QueryStatus::Answered => 2,
        QueryStatus::NeedsClarification => 1,
        _ => 0,
    };
    let scores = [-1.0f32, -0.0, 0.0, 0.3, 0.62, 0.7, 0.82, 0.9, 1.0, 5.0];
    for w in scores.windows(2) {
        let a = decide(bits(w[0]), &profile).unwrap();
        let b = decide(bits(w[1]), &profile).unwrap();
        assert!(rank(a.status) <= rank(b.status));
    }
}
