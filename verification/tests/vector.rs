use siel::error::SielError;
use siel::float_bits::F32Bits;
use siel::vector::{
    decode_vector, encode_vector, rank_hits, validate_dimensions, FakeVectorIndex, VectorHit,
    VectorScoreKind, VectorSearchFilter,
};

fn bits(v: &[f32]) -> Vec<F32Bits> {
    v.iter().map(|x| F32Bits(x.to_bits())).collect()
}

fn filter(model: &str, version: &str) -> VectorSearchFilter {
    VectorSearchFilter {
        model_id: model.to_string(),
        model_version: version.to_string(),
        lang: None,
        domain: None,
        include_statuses: vec!["approved".to_string()],
        exclude_deleted: true,
    }
}

fn cosine(a: &[F32Bits], b: &[F32Bits]) -> f32 {
    let mut dot = 0.0f32;
    let mut na = 0.0f32;
    let mut nb = 0.0f32;
    for (l, r) in a.iter().zip(b) {
        let l = f32::from_bits(l.0);
        let r = f32::from_bits(r.0);
        dot += l * r;
        na += l * l;
        nb += r * r;
    }
    if na == 0.0 || nb == 0.0 {
        return 0.0;
    }
    dot / (na.sqrt() * nb.sqrt())
}

fn search(index: &FakeVectorIndex, query: &[F32Bits], k: usize, f: &VectorSearchFilter) -> Vec<VectorHit> {
    let hits = index
        .candidates(query.len(), f)
        .unwrap()
        .into_iter()
        .map(|c| VectorHit {
            id: c.id,
            score: F32Bits(cosine(query, &c.vector).to_bits()),
            score_kind: VectorScoreKind::CosineSimilarity,
            model_id: f.model_id.clone(),
            model_version: f.model_version.clone(),
        })
        .collect();
    rank_hits(hits, k)
}

#[test]
fn fake_index_respects_model_version() {
    let mut index = FakeVectorIndex::new();
    let a = bits(&[1.0, 0.0]);
    let b = bits(&[0.0, 1.0]);
    index.upsert_batch("m", "1", 2, &[("a", &a), ("b", &b)]).unwrap();
    let c = bits(&[1.0, 0.0]);
    index.upsert_batch("m", "2", 2, &[("c", &c)]).unwrap();

    let hits = search(&index, &bits(&[1.0, 0.0]), 10, &filter("m", "1"));

    assert_eq!(hits[0].id, "a");
    assert!(hits.iter().all(|hit| hit.model_version == "1"));
    let mut ids: Vec<&str> = hits.iter().map(|hit| hit.id.as_str()).collect();
    ids.sort();
    assert_eq!(ids, vec!["a", "b"]);
}

#[test]
fn detects_stale_vectors() {
    let mut index = FakeVectorIndex::new();
    let a = bits(&[1.0, 0.0]);
    index.upsert_batch("m", "1", 2, &[("a", &a)]).unwrap();
    assert_eq!(index.list_stale("m", "2").unwrap(), vec!["a".to_string()]);
}

#[test]
fn upsert_stops_at_the_first_bad_vector() {
    let mut index = FakeVectorIndex::new();
    let good = bits(&[1.0, 0.0]);
    let bad = bits(&[1.0]);
    let r = index.upsert_batch("m", "1", 2, &[("a", &good), ("b", &bad), ("c", &good)]);
    assert!(matches!(r, Err(SielError::InvalidInput(_))));
    let mut ids: Vec<String> =
        index.candidates(2, &filter("m", "1")).unwrap().into_iter().map(|c| c.id).collect();
    ids.sort();
    assert_eq!(ids, vec!["a".to_string()]);
}

#[test]
fn candidates_check_dimensions_and_deletions_apply() {
    let mut index = FakeVectorIndex::new();
    let v2 = bits(&[1.0, 0.0]);
    let v3 = bits(&[1.0, 0.0, 0.0]);
    index.upsert_batch("m", "1", 2, &[("a", &v2)]).unwrap();
    index.upsert_batch("m", "2", 3, &[("b", &v3)]).unwrap();
    assert!(matches!(index.candidates(3, &filter("m", "1")), Err(SielError::InvalidInput(_))));
    assert_eq!(index.candidates(3, &filter("m", "2")).unwrap().len(), 1);
    assert!(index.candidates(5, &filter("other", "1")).unwrap().is_empty());
    // Re-upserting moves the id to the new version.
    index.upsert_batch("m", "2", 2, &[("a", &v2)]).unwrap();
    assert!(index.candidates(2, &filter("m", "1")).unwrap().is_empty());
    let mut stale = index.list_stale("m", "3").unwrap();
    stale.sort();
    assert_eq!(stale, vec!["a".to_string(), "b".to_string()]);
    index.delete_id("a").unwrap();
    index.delete_id("zzz").unwrap();
    assert_eq!(index.list_stale("m", "3").unwrap(), vec!["b".to_string()]);
    index.upsert_batch("m", "1", 2, &[("c", &v2)]).unwrap();
    index.delete_model_version("m", "2").unwrap();
    assert_eq!(index.list_stale("m", "3").unwrap(), vec!["c".to_string()]);
    assert!(index.list_stale("m", "1").unwrap().is_empty());
}

#[test]
fn vector_codec_round_trips() {
    let v = bits(&[1.5, -0.25, 0.0, f32::INFINITY]);
    let bytes = encode_vector(&v);
    let mut expected = Vec::new();
    for x in [1.5f32, -0.25, 0.0, f32::INFINITY] {
        expected.extend_from_slice(&x.to_le_bytes());
    }
    assert_eq!(bytes, expected);
    assert_eq!(decode_vector(&bytes).unwrap(), v);
    assert!(matches!(decode_vector(&bytes[..5]), Err(SielError::Storage(_))));
    assert!(decode_vector(&[]).unwrap().is_empty());
    assert!(validate_dimensions(2, &bits(&[1.0, 2.0])).is_ok());
    assert!(matches!(validate_dimensions(3, &bits(&[1.0])), Err(SielError::InvalidInput(_))));
}

#[test]
fn ranking_hits_truncates() {
    let hit = |id: &str, s: f32| VectorHit {
        id: id.to_string(),
        score: F32Bits(s.to_bits()),
        score_kind: VectorScoreKind::CosineSimilarity,
        model_id: "m".into(),
        model_version: "1".into(),
    };
    let ranked = rank_hits(vec![hit("a", 0.1), hit("b", 0.8), hit("c", 0.5)], 2);
    let ids: Vec<_> = ranked.iter().map(|h| h.id.as_str()).collect();
    assert_eq!(ids, vec!["b", "c"]);
}

#[test]
fn vector_errors_give_the_dimensions() {
    assert_eq!(
        validate_dimensions(3, &bits(&[1.0])).unwrap_err(),
        SielError::InvalidInput("vector dimension mismatch: expected 3, got 1".to_string())
    );
    assert_eq!(
        validate_dimensions(1024, &[]).unwrap_err(),
        SielError::InvalidInput("vector dimension mismatch: expected 1024, got 0".to_string())
    );
    let mut index = FakeVectorIndex::new();
    let good = bits(&[1.0, 0.0]);
    let bad = bits(&[1.0, 0.0, 0.0, 0.0, 0.0, 0.0, 0.0, 0.0, 0.0, 0.0, 0.0, 0.0]);
    assert_eq!(
        index.upsert_batch("m", "1", 2, &[("a", &good), ("b", &bad)]).unwrap_err(),
        SielError::InvalidInput("vector dimension mismatch: expected 2, got 12".to_string())
    );
    match index.candidates(7, &filter("m", "1")) {
        Err(e) => assert_eq!(
            e,
            SielError::InvalidInput("vector dimension mismatch: expected 2, got 7".to_string())
        ),
        Ok(_) => panic!("a dimension mismatch must be refused"),
    }
    assert_eq!(
        decode_vector(&[1, 2, 3]).unwrap_err(),
        SielError::Storage("vector blob length is not a multiple of 4".to_string())
    );
}
