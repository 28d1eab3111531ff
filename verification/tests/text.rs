use siel::retrieval::{embedding_text, fts_phrase_query, prepare_query, HashEmbedder};
use siel::text::{levenshtein, normalize_tokens, similarity_terms, trim_white_space};

#[test]
fn tokens_are_lowercased_alphanumeric_runs() {
    assert_eq!(normalize_tokens("Che cos'è SIEL?"), vec!["che", "cos", "è", "siel"]);
    assert_eq!(normalize_tokens("  --  "), Vec::<String>::new());
    assert_eq!(normalize_tokens(""), Vec::<String>::new());
    assert_eq!(normalize_tokens("a1,B2;;c3"), vec!["a1", "b2", "c3"]);
    assert_eq!(normalize_tokens("ÉTÉ"), vec!["été"]);
}

#[test]
fn edit_distance_values() {
    assert_eq!(levenshtein("kitten", "sitting"), 3);
    assert_eq!(levenshtein("", "abc"), 3);
    assert_eq!(levenshtein("abc", ""), 3);
    assert_eq!(levenshtein("abc", "abc"), 0);
    assert_eq!(levenshtein("flaw", "lawn"), 2);
    assert_eq!(levenshtein("è", "e"), 1);
}

#[test]
fn similarity_terms_are_case_insensitive() {
    let t = similarity_terms("Chi sei?", "chi SEI?");
    assert!(t.identical);
    assert_eq!(t.distance, 0);
    assert_eq!(t.max_len, 8);
    let t = similarity_terms("Kitten", "sitting");
    assert!(!t.identical);
    assert_eq!(t.distance, 3);
    assert_eq!(t.max_len, 7);
}

#[test]
fn bucket_counts_follow_sha256() {
    let e = HashEmbedder::default();
    assert_eq!(e.dimensions(), 64);
    assert_eq!(e.model_ref().model_id, "hash-embedder");
    assert_eq!(e.model_ref().model_version, "0.1.0");
    let counts = e.bucket_counts("Che cos'è SIEL? siel");
    assert_eq!(counts.len(), 64);
    assert_eq!(counts[37], 1);
    assert_eq!(counts[27], 1);
    assert_eq!(counts[23], 1);
    assert_eq!(counts[60], 2);
    assert_eq!(counts.iter().sum::<usize>(), 5);
    let small = HashEmbedder::new("m", "v", 8);
    let c = small.bucket_counts("che cos è siel");
    assert_eq!(c, vec![0, 0, 0, 1, 1, 1, 0, 1]);
    let empty = HashEmbedder::new("m", "v", 0);
    assert!(empty.bucket_counts("  ").is_empty());
}

#[test]
fn queries_are_trimmed() {
    assert_eq!(prepare_query("  Chi sei?\n").unwrap(), "Chi sei?");
    assert_eq!(
        prepare_query(" \t ").unwrap_err(),
        siel::error::SielError::InvalidInput("query cannot be empty".to_string())
    );
    assert_eq!(embedding_text("Q", "A"), "Q\nA");
}

#[test]
fn trimming_matches_std() {
    let samples = [
        "",
        "   ",
        "abc",
        "  a b  ",
        "\u{3000}Chi sei?\u{85}",
        "\u{200b}x\u{200b}",
        "\t\n\u{a0}è\u{2029}",
        "\u{1680}\u{2000}\u{200a}\u{202f}\u{205f}",
        "x\u{180e}",
    ];
    for s in samples {
        assert_eq!(trim_white_space(s), s.trim());
    }
    assert_eq!(trim_white_space("\u{3000} ciao \u{2028}"), "ciao");
}

#[test]
fn edit_distance_is_symmetric_and_zero_only_on_equal_texts() {
    let samples = ["", "a", "kitten", "sitting", "flaw", "lawn", "è", "Chi sei?", "chi sei"];
    for a in samples {
        for b in samples {
            assert_eq!(levenshtein(a, b), levenshtein(b, a));
            assert_eq!(levenshtein(a, b) == 0, a == b);
        }
    }
}

#[test]
fn edit_distance_is_at_least_the_length_difference() {
    let samples = ["", "a", "kitten", "sitting", "è", "abcdef"];
    for a in samples {
        for b in samples {
            let la = a.chars().count() as isize;
            let lb = b.chars().count() as isize;
            assert!((la - lb).unsigned_abs() <= levenshtein(a, b));
        }
    }
}

#[test]
fn bucket_counts_ignore_token_order() {
    let e = HashEmbedder::default();
    assert_eq!(e.bucket_counts("Che cos'è SIEL?"), e.bucket_counts("siel, CHE è cos"));
    assert_eq!(e.checked_bucket_counts("Che cos'è SIEL?"), Some(e.bucket_counts("siel che cos è")));
    let empty = HashEmbedder::new("m", "v", 0);
    assert_eq!(empty.checked_bucket_counts("ciao"), None);
    assert_eq!(empty.checked_bucket_counts(" ?! "), Some(vec![]));
}

#[test]
fn full_text_queries_are_quoted_phrases() {
    assert_eq!(fts_phrase_query("Che cos'è SIEL?"), "\"Che cos'è SIEL?\"");
    assert_eq!(fts_phrase_query("a \"b\" c"), "\"a \"\"b\"\" c\"");
    assert_eq!(fts_phrase_query(""), "\"\"");
}

#[test]
fn ascii_tokens_rejoined_tokenize_to_themselves() {
    for s in ["Che cos e SIEL?", "a1,B2;;c3", "  --  ", "Hello  World 42", "x"] {
        let tokens = normalize_tokens(s);
        assert_eq!(normalize_tokens(&tokens.join(" ")), tokens);
    }
}
