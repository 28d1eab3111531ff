use siel::calibrator::{Calibrator, ConfidenceProfile, IsotonicCalibrator};
use siel::error::SielError;
use siel::float_bits::F32Bits;
use siel::policy::decide;
use siel::ranking::{rank_order, select_top, sort_by_scores, sort_evidence_by_score};
use siel::retrieval::{answer_from_ranked, group_by_item};
use siel::types::{Evidence, QueryStatus};

fn bits(x: f32) -> F32Bits {
    F32Bits(x.to_bits())
}

fn ev(id: &str, score: f32, stale: bool, source: Option<&str>) -> Evidence {
    Evidence {
        item_id: id.to_string(),
        question: format!("q-{}", id),
        answer: format!("a-{}", id),
        source_id: source.map(|s| s.to_string()),
        score: bits(score),
        stale_embedding: stale,
    }
}

#[test]
fn float_comparisons_agree_with_f32() {
    let values = [
        0.0f32, -0.0, 1.0, -1.0, 0.5, 0.82, 0.62, 1e-30, -1e-30, 3.0e38, -3.0e38, f32::MAX, f32::MIN,
        f32::INFINITY, f32::NEG_INFINITY, f32::NAN, f32::MIN_POSITIVE,
    ];
    for &a in &values {
        for &b in &values {
            assert_eq!(bits(a).lt(bits(b)), a < b, "{} < {}", a, b);
            assert_eq!(bits(a).le(bits(b)), a <= b, "{} <= {}", a, b);
            assert_eq!(
                bits(a).total_lt(bits(b)),
                a.total_cmp(&b) == std::cmp::Ordering::Less,
                "{} total< {}",
                a,
                b
            );
        }
        let c = bits(a).clamp01();
        assert_eq!(c.0, a.clamp(0.0, 1.0).to_bits(), "clamp {}", a);
    }
}

#[test]
fn isotonic_validation() {
    let ok = IsotonicCalibrator {
        version: 1,
        x_thresholds: vec![bits(0.0), bits(0.5), bits(1.0)],
        y_probabilities: vec![bits(0.1), bits(0.6), bits(0.9)],
    };
    assert!(ok.validate().is_ok());
    let empty = IsotonicCalibrator { version: 1, x_thresholds: vec![], y_probabilities: vec![] };
    assert!(matches!(empty.validate(), Err(SielError::InvalidInput(_))));
    let misaligned = IsotonicCalibrator {
        version: 1,
        x_thresholds: vec![bits(0.0)],
        y_probabilities: vec![bits(0.1), bits(0.2)],
    };
    assert!(misaligned.validate().is_err());
    let unsorted = IsotonicCalibrator {
        version: 1,
        x_thresholds: vec![bits(0.5), bits(0.1)],
        y_probabilities: vec![bits(0.1), bits(0.2)],
    };
    assert!(unsorted.validate().is_err());
    let out_of_range = IsotonicCalibrator {
        version: 1,
        x_thresholds: vec![bits(0.1), bits(0.5)],
        y_probabilities: vec![bits(0.1), bits(1.5)],
    };
    assert!(out_of_range.validate().is_err());
}

#[test]
fn isotonic_prediction_steps() {
    let m = IsotonicCalibrator {
        version: 1,
        x_thresholds: vec![bits(0.2), bits(0.5), bits(0.8)],
        y_probabilities: vec![bits(0.1), bits(0.6), bits(0.9)],
    };
    assert_eq!(m.predict(bits(0.0)).unwrap(), bits(0.1));
    assert_eq!(m.predict(bits(0.2)).unwrap(), bits(0.1));
    assert_eq!(m.predict(bits(0.3)).unwrap(), bits(0.1));
    assert_eq!(m.predict(bits(0.5)).unwrap(), bits(0.6));
    assert_eq!(m.predict(bits(0.79)).unwrap(), bits(0.6));
    assert_eq!(m.predict(bits(0.8)).unwrap(), bits(0.9));
    assert_eq!(m.predict(bits(5.0)).unwrap(), bits(0.9));
    let c = Calibrator::Isotonic(m);
    assert_eq!(c.predict(bits(0.5)).unwrap(), (bits(0.6), true));
    assert_eq!(Calibrator::Fixed.predict(bits(-2.0)).unwrap(), (bits(0.0), false));
    let profile = ConfidenceProfile {
        profile_id: "p".to_string(),
        threshold_high: bits(0.8),
        threshold_low: bits(0.5),
        calibrator: c,
    };
    let d = decide(bits(0.6), &profile).unwrap();
    assert_eq!(d.status, QueryStatus::NeedsClarification);
    assert!(d.confidence_calibrated);
    let bad = ConfidenceProfile {
        calibrator: Calibrator::Isotonic(IsotonicCalibrator {
            version: 1,
            x_thresholds: vec![],
            y_probabilities: vec![],
        }),
        ..ConfidenceProfile::default()
    };
    assert!(matches!(decide(bits(0.6), &bad), Err(SielError::InvalidInput(_))));
}

#[test]
fn default_profile() {
    let p = ConfidenceProfile::default();
    assert_eq!(p.profile_id, "default");
    assert_eq!(p.threshold_high, bits(0.82));
    assert_eq!(p.threshold_low, bits(0.62));
    assert!(matches!(p.calibrator, Calibrator::Fixed));
}

#[test]
fn sort_is_stable_and_descending() {
    let scores = [bits(0.5), bits(0.9), bits(0.5), bits(f32::NAN), bits(-0.0), bits(0.0), bits(0.9)];
    let order = rank_order(&scores);
    assert_eq!(order, vec![3, 1, 6, 0, 2, 5, 4]);
    let items = vec!["a", "b", "c", "d", "e", "f", "g"];
    let sorted = sort_by_scores(items, &scores);
    assert_eq!(sorted, vec!["d", "b", "g", "a", "c", "f", "e"]);
    let mut expected: Vec<(usize, f32)> =
        [0.5f32, 0.9, 0.5, f32::NAN, -0.0, 0.0, 0.9].iter().cloned().enumerate().collect();
    expected.sort_by(|a, b| b.1.total_cmp(&a.1));
    assert_eq!(order, expected.iter().map(|p| p.0).collect::<Vec<_>>());
}

#[test]
fn select_top_filters_sorts_and_truncates() {
    let docs = vec![
        ev("a", 0.3, false, None),
        ev("b", 0.7, false, None),
        ev("c", 0.45, false, None),
        ev("d", 0.9, false, None),
        ev("e", 0.45, false, None),
    ];
    let top = select_top(docs, bits(0.45), 3);
    let ids: Vec<_> = top.iter().map(|e| e.item_id.as_str()).collect();
    assert_eq!(ids, vec!["d", "b", "c"]);
    let sorted = sort_evidence_by_score(vec![ev("x", 0.1, false, None), ev("y", 0.2, false, None)]);
    assert_eq!(sorted[0].item_id, "y");
}

#[test]
fn fusion_groups_by_item_in_first_occurrence_order() {
    let groups = group_by_item(vec![
        ev("a", 1.0, false, None),
        ev("b", 0.5, false, None),
        ev("a", 0.2, true, None),
        ev("c", 0.1, false, None),
        ev("b", 0.3, false, None),
    ]);
    assert_eq!(groups.len(), 3);
    assert_eq!(groups[0].evidence.item_id, "a");
    assert_eq!(groups[0].ranks, vec![0, 2]);
    assert!(groups[0].evidence.stale_embedding);
    assert_eq!(groups[0].evidence.score, bits(1.0));
    assert_eq!(groups[1].evidence.item_id, "b");
    assert_eq!(groups[1].ranks, vec![1, 4]);
    assert!(!groups[1].evidence.stale_embedding);
    assert_eq!(groups[1].evidence.score, bits(0.5));
    assert_eq!(groups[2].ranks, vec![3]);
    assert!(group_by_item(vec![]).is_empty());
}

#[test]
fn answer_from_ranking() {
    let profile = ConfidenceProfile {
        threshold_high: bits(0.01),
        threshold_low: bits(0.0),
        ..ConfidenceProfile::default()
    };
    let ranked = vec![
        ev("a", 0.9, false, Some("s1")),
        ev("b", 0.5, true, None),
        ev("c", 0.4, false, Some("s3")),
        ev("d", 0.3, false, Some("s4")),
    ];
    let r = answer_from_ranked(&ranked, &profile).unwrap();
    assert_eq!(r.status, QueryStatus::Answered);
    assert_eq!(r.answer, "a-a");
    assert_eq!(r.support_ids, vec!["a", "b", "c"]);
    assert_eq!(r.source_ids, vec!["s1", "s3", "s4"]);
    assert!(r.stale_embeddings_detected);
    assert_eq!(r.confidence, bits(0.9));
    assert_eq!(r.confidence_profile_id, "default");

    let low = answer_from_ranked(&ranked, &ConfidenceProfile::default()).unwrap();
    assert_eq!(low.status, QueryStatus::Answered);
    let weak = vec![ev("a", 0.1, false, Some("s1"))];
    let r = answer_from_ranked(&weak, &ConfidenceProfile::default()).unwrap();
    assert_eq!(r.status, QueryStatus::Unknown);
    assert_eq!(r.answer, "Non lo so con sufficiente certezza.");
    assert_eq!(r.missing_information, vec!["confidence below low threshold"]);
    assert_eq!(
        r.learning_suggestion.as_deref(),
        Some("Puoi insegnarmi questa informazione con /teach.")
    );
    assert!(r.support_ids.is_empty());
    assert_eq!(r.confidence, bits(0.1));

    let none = answer_from_ranked(&vec![], &ConfidenceProfile::default()).unwrap();
    assert_eq!(none.status, QueryStatus::Unknown);
    assert_eq!(none.missing_information, vec!["no supporting evidence found"]);
}

#[test]
fn calibrator_errors_name_the_failed_check() {
    let err = |x: Vec<f32>, y: Vec<f32>| {
        let m = IsotonicCalibrator {
            version: 1,
            x_thresholds: x.into_iter().map(bits).collect(),
            y_probabilities: y.into_iter().map(bits).collect(),
        };
        let e = m.validate().unwrap_err();
        assert_eq!(m.predict(bits(0.3)).unwrap_err(), e);
        assert_eq!(Calibrator::Isotonic(m).predict(bits(0.3)).unwrap_err(), e);
        e
    };
    assert_eq!(
        err(vec![], vec![]),
        SielError::InvalidInput("isotonic calibrator requires aligned non-empty arrays".to_string())
    );
    assert_eq!(
        err(vec![0.5, 0.2], vec![0.1, 0.2]),
        SielError::InvalidInput("isotonic x_thresholds must be sorted ascending".to_string())
    );
    assert_eq!(
        err(vec![0.0], vec![1.5]),
        SielError::InvalidInput("isotonic probabilities must be in [0, 1]".to_string())
    );
}

#[test]
fn nondecreasing_calibrator_is_monotone() {
    let m = IsotonicCalibrator {
        version: 1,
        x_thresholds: vec![bits(0.1), bits(0.4), bits(0.7)],
        y_probabilities: vec![bits(0.2), bits(0.2), bits(0.8)],
    };
    let scores = [-1.0f32, 0.0, 0.1, 0.2, 0.4, 0.5, 0.7, 0.9, 2.0];
    for w in scores.windows(2) {
        let a = f32::from_bits(m.predict(bits(w[0])).unwrap().0);
        let b = f32::from_bits(m.predict(bits(w[1])).unwrap().0);
        assert!(a <= b);
    }
}
