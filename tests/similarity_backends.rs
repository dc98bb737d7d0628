use precursor::fbhash::calculate_fbhash;
use precursor::lzjd::calculate_lzjd_hash;
use precursor::mrshv2::calculate_mrshv2_hash;
use precursor::similarity::{calculate_similarity_hash, diff_similarity_hash, SimilarityHash, SimilarityMode};

/// Cosine dissimilarity of aligned term frequencies, as a whole percentage.
fn cosine_percent(terms: &Vec<(u32, u32)>) -> u32 {
    let weight = |tf: u32, df: f64| (1.0 + (tf as f64).ln()) * (1.0 + 2.0 / df).ln();
    let (mut dot, mut nl, mut nr) = (0.0f64, 0.0f64, 0.0f64);
    for &(l, r) in terms {
        if l > 0 && r > 0 {
            let (wl, wr) = (weight(l, 2.0), weight(r, 2.0));
            dot += wl * wr;
            nl += wl * wl;
            nr += wr * wr;
        } else if l > 0 {
            nl += weight(l, 1.0).powi(2);
        } else {
            nr += weight(r, 1.0).powi(2);
        }
    }
    let cos = if nl == 0.0 || nr == 0.0 { 0.0 } else { dot / (nl.sqrt() * nr.sqrt()) };
    ((1.0 - cos.clamp(0.0, 1.0)) * 100.0).round() as u32
}

#[test]
fn test_calculate_lzjd_hash_returns_stable_prefix() {
    let hash = calculate_lzjd_hash(b"GET / HTTP/1.1\r\nHost: example.org\r\n").expect("expected lzjd hash");
    let rendered = hash.as_string();
    assert!(rendered.starts_with("lzjd:"));
}

#[test]
fn lzjd_test_diff_identical_payloads_is_zero() {
    let left = calculate_lzjd_hash(b"AAAAABBBBBCCCCCDDDD").expect("expected left hash");
    let right = calculate_lzjd_hash(b"AAAAABBBBBCCCCCDDDD").expect("expected right hash");
    assert_eq!(left.diff(&right, false), 0);
}

#[test]
fn lzjd_test_diff_changes_with_different_payloads() {
    let left = calculate_lzjd_hash(b"AAAAABBBBBCCCCCDDDD").expect("expected left hash");
    let right = calculate_lzjd_hash(b"\x7fELF\x02\x01\x01\x00\xAA\xBB\xCC\xDD").expect("expected right hash");
    assert!(left.diff(&right, false) > 0);
}

#[test]
fn test_diff_with_length_penalty() {
    let short = calculate_lzjd_hash(b"GET /short HTTP/1.1").expect("expected short hash");
    let long = calculate_lzjd_hash(b"GET /a/very/long/path HTTP/1.1\r\nHost: example.org\r\nUser-Agent: precursor\r\n")
        .expect("expected long hash");
    assert!(short.diff(&long, true) >= short.diff(&long, false));
}

#[test]
fn lzjd_empty_payload_is_refused() {
    assert!(calculate_lzjd_hash(b"").is_err());
}

#[test]
fn lzjd_render_is_stable_and_exact_in_shape() {
    let a = calculate_lzjd_hash(b"abcabcabc").expect("hash");
    let b = calculate_lzjd_hash(b"abcabcabc").expect("hash");
    assert_eq!(a.as_string(), b.as_string());
    // "abcabcabc" parses into the phrases a, b, c, ab, ca, bc: six buckets.
    let rendered = a.as_string();
    assert!(rendered.starts_with("lzjd:6:"));
    assert_eq!(rendered.len(), "lzjd:6:".len() + 32);
    assert!(rendered["lzjd:6:".len()..].chars().all(|c| c.is_ascii_hexdigit() && !c.is_ascii_uppercase()));
}

#[test]
fn lzjd_distance_is_symmetric_and_bounded() {
    let a = calculate_lzjd_hash(b"GET /index HTTP/1.1\r\nHost: a.example\r\n").expect("hash");
    let b = calculate_lzjd_hash(b"POST /upload HTTP/1.0\r\nHost: b.example\r\n").expect("hash");
    for flag in [false, true] {
        let ab = a.diff(&b, flag);
        assert_eq!(ab, b.diff(&a, flag));
        assert!((0..=100).contains(&ab));
    }
    assert_eq!(a.diff(&a, true), 0);
}

#[test]
fn lzjd_disjoint_sketches_are_at_distance_100() {
    let a = calculate_lzjd_hash(b"a").expect("hash");
    let b = calculate_lzjd_hash(b"b").expect("hash");
    assert_eq!(a.diff(&b, false), 100);
    // Equal lengths add no penalty.
    assert_eq!(a.diff(&b, true), 100);
}

#[test]
fn lzjd_length_penalty_exact_value() {
    // "aaaa" has phrases a, aa, a(trailing, already known): two buckets;
    // "aa" has phrases a, a(trailing): one bucket. Jaccard 1/2 gives 50, and
    // the lengths 4 and 2 give round(10 * 2 / 4) = 5 more.
    let a = calculate_lzjd_hash(b"aaaa").expect("hash");
    let b = calculate_lzjd_hash(b"aa").expect("hash");
    assert_eq!(a.diff(&b, false), 50);
    assert_eq!(a.diff(&b, true), 55);
}

#[test]
fn test_calculate_fbhash_prefix() {
    let hash = calculate_fbhash(b"GET / HTTP/1.1\r\nHost: example.org\r\n").expect("expected fbhash hash");
    assert!(hash.as_string().starts_with("fbhash:"));
}

#[test]
fn fbhash_test_diff_identical_payloads_is_zero() {
    let left = calculate_fbhash(b"AAAAABBBBBCCCCCDDDD").expect("expected left hash");
    let right = calculate_fbhash(b"AAAAABBBBBCCCCCDDDD").expect("expected right hash");
    assert_eq!(left.diff(&right, false, cosine_percent), 0);
}

#[test]
fn fbhash_test_diff_changes_with_different_payloads() {
    let left = calculate_fbhash(b"AAAAABBBBBCCCCCDDDD").expect("expected left hash");
    let right = calculate_fbhash(b"\x7fELF\x02\x01\x01\x00\xAA\xBB\xCC\xDD").expect("expected right");
    assert!(left.diff(&right, false, cosine_percent) > 0);
}

#[test]
fn test_short_payload_supported() {
    let hash = calculate_fbhash(b"abc").expect("expected short hash");
    assert!(hash.as_string().starts_with("fbhash:"));
}

#[test]
fn fbhash_counts_features_of_sliding_windows() {
    // Eight bytes give two 7-byte windows; a short payload has one feature.
    let hash = calculate_fbhash(b"abcdefgh").expect("hash");
    assert!(hash.as_string().starts_with("fbhash:2:"));
    let same = calculate_fbhash(b"aaaaaaaaa").expect("hash");
    assert!(same.as_string().starts_with("fbhash:1:"));
    let short = calculate_fbhash(b"abc").expect("hash");
    assert!(short.as_string().starts_with("fbhash:1:"));
    assert!(calculate_fbhash(b"").is_err());
}

#[test]
fn fbhash_aligned_terms_pair_common_features() {
    let a = calculate_fbhash(b"aaaaaaaaa").expect("hash");
    let terms = a.aligned_term_frequencies(&a);
    assert_eq!(terms, vec![(3, 3)]);
    let b = calculate_fbhash(b"bbbbbbbb").expect("hash");
    let mut mixed = a.aligned_term_frequencies(&b);
    mixed.sort();
    assert_eq!(mixed, vec![(0, 2), (3, 0)]);
}

#[test]
fn fbhash_near_identical_requests_are_close() {
    let a = calculate_fbhash(b"GET /index.html HTTP/1.1\r\nHost: example.org\r\n").expect("hash");
    let b = calculate_fbhash(b"GET /index.htm HTTP/1.1\r\nHost: example.org\r\n").expect("hash");
    assert!(a.as_string().starts_with("fbhash:"));
    assert!(b.as_string().starts_with("fbhash:"));
    assert!(a.diff(&b, false, cosine_percent) < 100);
    assert_eq!(a.diff(&a, false, cosine_percent), 0);
}

#[test]
fn fbhash_penalty_never_lowers_distance() {
    let a = calculate_fbhash(b"short payload").expect("hash");
    let b = calculate_fbhash(b"a considerably longer payload than the first").expect("hash");
    assert!(a.diff(&b, true, cosine_percent) >= a.diff(&b, false, cosine_percent));
    assert!(a.diff(&b, true, |_: &Vec<(u32, u32)>| 500) <= 100);
}

#[test]
fn test_similarity_mode_lzjd_roundtrip() {
    let mode = SimilarityMode::from_str("lzjd").expect("expected mode");
    assert_eq!(mode, SimilarityMode::Lzjd);
    assert_eq!(mode.as_str(), "lzjd");
}

#[test]
fn test_calculate_and_diff_lzjd() {
    let payload = b"GET /index HTTP/1.1\r\nHost: example.org\r\n";
    let left = calculate_similarity_hash(payload, &SimilarityMode::Lzjd, "48_1").expect("expected left hash");
    let right = calculate_similarity_hash(payload, &SimilarityMode::Lzjd, "48_1").expect("expected right hash");
    let rendered = left.as_string().expect("expected string form");
    assert!(rendered.starts_with("lzjd:"));
    let distance = diff_similarity_hash(&left, &right, false, cosine_percent).expect("expected distance");
    assert_eq!(distance, 0);
}

#[test]
fn test_similarity_mode_mrshv2_roundtrip() {
    let mode = SimilarityMode::from_str("mrshv2").expect("expected mode");
    assert_eq!(mode, SimilarityMode::Mrshv2);
    assert_eq!(mode.as_str(), "mrshv2");
}

#[test]
fn similarity_mode_rejects_unknown_names() {
    let err = SimilarityMode::from_str("ssdeep").expect_err("unknown mode");
    assert_eq!(err.message(), "Unsupported similarity mode 'ssdeep'");
    assert_eq!(SimilarityMode::from_str("fbhash").expect("mode").as_str(), "fbhash");
    assert_eq!(SimilarityMode::from_str("tlsh").expect("mode"), SimilarityMode::Tlsh);
}

#[test]
fn cross_variant_distance_fails() {
    let l = calculate_similarity_hash(b"payload one", &SimilarityMode::Lzjd, "48_1").expect("lzjd");
    let f = calculate_similarity_hash(b"payload one", &SimilarityMode::FbHash, "48_1").expect("fbhash");
    let err = diff_similarity_hash(&l, &f, false, cosine_percent).expect_err("incompatible");
    assert_eq!(err.message(), "Incompatible similarity hash algorithm types");
    assert!(matches!(f, SimilarityHash::FbHash(_)));
}

#[test]
fn unavailable_backends_fail_recoverably() {
    assert!(calculate_similarity_hash(b"x", &SimilarityMode::Tlsh, "48_1").is_err());
    assert!(calculate_similarity_hash(b"x", &SimilarityMode::Mrshv2, "48_1").is_err());
    assert!(calculate_mrshv2_hash(b"x").is_err());
    assert!(calculate_similarity_hash(b"", &SimilarityMode::FbHash, "48_1").is_err());
    assert!(calculate_similarity_hash(b"", &SimilarityMode::Lzjd, "48_1").is_err());
}

#[test]
fn fbhash_render_is_stable_for_identical_payloads() {
    let a = calculate_fbhash(b"identical payload bytes").expect("hash");
    let b = calculate_fbhash(b"identical payload bytes").expect("hash");
    assert_eq!(a.as_string(), b.as_string());
    assert_eq!(a, b);
    let c = calculate_fbhash(b"identical payload bytez").expect("hash");
    assert_ne!(a.as_string(), c.as_string());
}
