use siel::crypto::CryptoBox;
use siel::error::SielError;
use siel::store::{checksum, found_or_not_found, PayloadRow, SielDb};
use siel::error::http_status_for;
use siel::store::new_candidate_response;
use siel::types::{new_id, KnowledgeStatus, TeachProposalKind, TeachRequest};

#[test]
fn wrapped_key_unwraps_to_the_item_key() {
    let b = CryptoBox::new(b"test master secret");
    let key = b.generate_item_key();
    let wrapped = b.wrap_key(&key);
    assert_eq!(wrapped.len(), 32);
    assert_ne!(wrapped.as_slice(), key.as_slice());
    assert_eq!(b.unwrap_key(&wrapped).unwrap(), key);
}

#[test]
fn wrapping_uses_the_sha256_of_the_secret() {
    let b = CryptoBox::new(b"test master secret");
    let zero = [0u8; 32];
    let wrapped = b.wrap_key(&zero);
    let hex: String = wrapped.iter().map(|x| format!("{:02x}", x)).collect();
    assert_eq!(hex, "90ba661ac58dfa190bd32c49c6133f3077c87c4866aa9fc4ac246cf579540d71");
}

#[test]
fn destroyed_or_malformed_key_is_refused() {
    let b = CryptoBox::new(b"secret");
    assert!(matches!(b.unwrap_key(&[]), Err(SielError::Crypto(_))));
    assert!(matches!(b.unwrap_key(&[1u8; 31]), Err(SielError::Crypto(_))));
    assert!(matches!(b.unwrap_key(&[1u8; 33]), Err(SielError::Crypto(_))));
}

#[test]
fn payload_round_trips() {
    let b = CryptoBox::new(b"secret");
    let key = b.generate_item_key();
    let e = b.encrypt_payload(&key, "Chi sei?", "Sono SIEL.", b"item_1").unwrap();
    assert_eq!(e.nonce.len(), 24);
    assert_eq!(e.aad, b"item_1".to_vec());
    assert_eq!(e.question_cipher.len(), "Chi sei?".len() + 16);
    assert_eq!(e.answer_cipher.len(), "Sono SIEL.".len() + 16);
    let (q, a) = b
        .decrypt_payload(&key, &e.question_cipher, &e.answer_cipher, &e.nonce, &e.aad)
        .unwrap();
    assert_eq!(q, "Chi sei?");
    assert_eq!(a, "Sono SIEL.");
}

#[test]
fn tampering_is_detected() {
    let b = CryptoBox::new(b"secret");
    let key = b.generate_item_key();
    let e = b.encrypt_payload(&key, "q", "a", b"id").unwrap();
    // Wrong associated data.
    assert!(matches!(
        b.decrypt_payload(&key, &e.question_cipher, &e.answer_cipher, &e.nonce, b"other"),
        Err(SielError::Crypto(_))
    ));
    // Wrong nonce length.
    assert!(matches!(
        b.decrypt_payload(&key, &e.question_cipher, &e.answer_cipher, &e.nonce[..23], &e.aad),
        Err(SielError::Crypto(_))
    ));
    // Nonces swapped between the fields.
    let mut swapped = e.nonce[12..].to_vec();
    swapped.extend_from_slice(&e.nonce[..12]);
    assert!(b
        .decrypt_payload(&key, &e.question_cipher, &e.answer_cipher, &swapped, &e.aad)
        .is_err());
    // Another key.
    let other = b.generate_item_key();
    assert!(b
        .decrypt_payload(&other, &e.question_cipher, &e.answer_cipher, &e.nonce, &e.aad)
        .is_err());
}

#[test]
fn checksum_is_hex_sha256_of_question_zero_answer() {
    assert_eq!(
        checksum("Chi sei?", "Sono SIEL."),
        "27a0c76252153f835d9ceba4f273fceb3e9f26284ab2f623b82967a13e58d59d"
    );
}

#[test]
fn sealed_item_reads_back_and_shredded_key_does_not() {
    let db = SielDb::open("/nonexistent/siel.db", b"test master secret");
    assert_eq!(db.path(), "/nonexistent/siel.db");
    let sealed = db.seal_item("item_1", "Chi sei?", "Sono SIEL.").unwrap();
    assert_eq!(sealed.checksum, checksum("Chi sei?", "Sono SIEL."));
    assert_eq!(sealed.payload.aad, b"item_1".to_vec());
    let row = PayloadRow {
        wrapped_key: sealed.wrapped_key.clone(),
        question_cipher: sealed.payload.question_cipher.clone(),
        answer_cipher: sealed.payload.answer_cipher.clone(),
        nonce: sealed.payload.nonce.clone(),
        aad: sealed.payload.aad.clone(),
    };
    let payload = db.open_payload("item_1", &row).unwrap();
    assert_eq!(payload.item_id, "item_1");
    assert_eq!(payload.question, "Chi sei?");
    assert_eq!(payload.answer, "Sono SIEL.");

    let shredded = PayloadRow { wrapped_key: Vec::new(), ..row };
    assert_eq!(
        db.open_payload("item_1", &shredded).unwrap_err(),
        SielError::Crypto("wrapped key is invalid or destroyed".to_string())
    );

    let other_db = SielDb::open("x", b"another secret");
    let row2 = PayloadRow {
        wrapped_key: sealed.wrapped_key.clone(),
        question_cipher: sealed.payload.question_cipher.clone(),
        answer_cipher: sealed.payload.answer_cipher.clone(),
        nonce: sealed.payload.nonce.clone(),
        aad: sealed.payload.aad.clone(),
    };
    assert!(other_db.open_payload("item_1", &row2).is_err());
}

#[test]
fn lookups_and_statuses() {
    assert_eq!(found_or_not_found(Some(3), "x").unwrap(), 3);
    match found_or_not_found::<u8>(None, "item_9") {
        Err(SielError::NotFound(id)) => assert_eq!(id, "item_9"),
        _ => panic!("expected NotFound"),
    }
    assert_eq!(KnowledgeStatus::from_db_text("approved"), KnowledgeStatus::Approved);
    assert_eq!(KnowledgeStatus::from_db_text("candidate"), KnowledgeStatus::Candidate);
    assert_eq!(KnowledgeStatus::from_db_text("rejected"), KnowledgeStatus::Rejected);
    assert_eq!(KnowledgeStatus::from_db_text("deleted"), KnowledgeStatus::Deleted);
    assert_eq!(KnowledgeStatus::from_db_text("garbage"), KnowledgeStatus::Candidate);
}

#[test]
fn error_statuses() {
    assert_eq!(http_status_for(&SielError::InvalidInput("x".into())), 400);
    assert_eq!(http_status_for(&SielError::NotFound("x".into())), 404);
    assert_eq!(http_status_for(&SielError::Conflict("x".into())), 409);
    assert_eq!(http_status_for(&SielError::Policy("x".into())), 409);
    assert_eq!(http_status_for(&SielError::Crypto("x".into())), 500);
    assert_eq!(http_status_for(&SielError::Storage("x".into())), 500);
    assert_eq!(http_status_for(&SielError::Model("x".into())), 500);
    assert_eq!(http_status_for(&SielError::Serialization("x".into())), 500);
}

#[test]
fn error_messages_name_their_kind() {
    assert_eq!(SielError::InvalidInput("q".into()).message(), "invalid input: q");
    assert_eq!(SielError::NotFound("item_1".into()).message(), "not found: item_1");
    assert_eq!(SielError::Conflict("c".into()).message(), "conflict: c");
    assert_eq!(SielError::Crypto("k".into()).message(), "crypto error: k");
    assert_eq!(SielError::Storage("s".into()).message(), "storage error: s");
    assert_eq!(SielError::Model("m".into()).message(), "model error: m");
    assert_eq!(SielError::Policy("p".into()).message(), "policy rejected output: p");
    assert_eq!(SielError::Serialization("j".into()).message(), "serialization error: j");
}

#[test]
fn ids_and_teaching() {
    let id = new_id("item");
    assert!(id.starts_with("item_"));
    assert_eq!(id.len(), 5 + 36);
    assert_ne!(new_id("item"), new_id("item"));
    let uuid: Vec<char> = id["item_".len()..].chars().collect();
    for (i, c) in uuid.iter().enumerate() {
        if [8, 13, 18, 23].contains(&i) {
            assert_eq!(*c, '-');
        } else {
            assert!(c.is_ascii_hexdigit() && !c.is_ascii_uppercase());
        }
    }
    assert_eq!(uuid[14], '4');
    assert!(['8', '9', 'a', 'b'].contains(&uuid[19]));
    let req = TeachRequest {
        question: "q".into(),
        answer: "a".into(),
        lang: None,
        domain: None,
        source_id: None,
    };
    assert_eq!(req.lang_or_default(), "it");
    let req_en = TeachRequest { lang: Some("en".into()), ..req };
    assert_eq!(req_en.lang_or_default(), "en");
    let r = new_candidate_response("c1".into(), "a1".into());
    assert_eq!(r.proposal, TeachProposalKind::NewItem);
    assert_eq!(r.candidate_id, "c1");
    assert_eq!(r.audit_id, "a1");
    assert!(r.related_item_ids.is_empty());
}

#[test]
fn crypto_errors_name_the_failed_check() {
    let b = CryptoBox::new(b"secret");
    assert_eq!(
        b.unwrap_key(&[]).unwrap_err(),
        SielError::Crypto("wrapped key is invalid or destroyed".to_string())
    );
    let key = b.generate_item_key();
    let e = b.encrypt_payload(&key, "q", "a", b"id").unwrap();
    assert_eq!(
        b.decrypt_payload(&key, &e.question_cipher, &e.answer_cipher, &e.nonce[..23], &e.aad)
            .unwrap_err(),
        SielError::Crypto("nonce length is invalid".to_string())
    );
    assert_eq!(
        b.decrypt_payload(&key, &e.question_cipher, &e.answer_cipher, &e.nonce, b"x").unwrap_err(),
        SielError::Crypto("question decryption failed".to_string())
    );
    let mut bad_answer = e.answer_cipher.clone();
    bad_answer[0] ^= 1;
    assert_eq!(
        b.decrypt_payload(&key, &e.question_cipher, &bad_answer, &e.nonce, &e.aad).unwrap_err(),
        SielError::Crypto("answer decryption failed".to_string())
    );
    assert_eq!(
        b.decrypt_payload(&key, &[0u8; 3], &e.answer_cipher, &e.nonce, &e.aad).unwrap_err(),
        SielError::Crypto("question decryption failed".to_string())
    );
}

#[test]
fn exclusive_or_laws() {
    let a: [u8; 32] = core::array::from_fn(|i| (i * 7 + 3) as u8);
    let b: [u8; 32] = core::array::from_fn(|i| (255 - i * 5) as u8);
    let x = siel::crypto::xor32(&a, &b);
    for i in 0..32 {
        assert_eq!(x[i], a[i] ^ b[i]);
    }
    assert_eq!(siel::crypto::xor32(&x, &b), a);
    assert_eq!(siel::crypto::xor32(&a, &b), siel::crypto::xor32(&b, &a));
    assert_eq!(siel::crypto::xor32(&a, &[0u8; 32]), a);
}
