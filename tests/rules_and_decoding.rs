use precursor::condition::{parse_sigma_condition, tokenize_condition, wildcard_match, SelectorHits};
use precursor::regex_engine::{vectorscan_compatibility_issues, RegexEngine};
use precursor::sigma::{
    matching_sigma_rules, load_sigma_rule_plan, sanitize_capture_name, sigma_capture_name, sigma_escape_literal,
    sigma_value_to_pcre, strip_yaml_quotes,
};
use precursor::tagging::{build_regex, tag_payload, tags_from_matches};
use precursor::util::{format_size, get_payload, get_payload_from_blob, remove_wrapped_quotes, xxh3_64_hex};

#[test]
fn regex_engine_round_trip() {
    assert_eq!(RegexEngine::from_str("pcre2").expect("parse pcre2"), RegexEngine::Pcre2);
    assert_eq!(RegexEngine::from_str("vectorscan").expect("parse vectorscan"), RegexEngine::Vectorscan);
    assert_eq!(RegexEngine::from_str("vectorscan").expect("parse vectorscan").as_str(), "vectorscan");
}

#[test]
fn regex_engine_rejects_unknown_engine() {
    assert_eq!(RegexEngine::from_str("re2").expect_err("unknown"), "Unsupported regex engine 're2'");
}

#[test]
fn vectorscan_compatibility_catches_unsupported_constructs() {
    let issues = vectorscan_compatibility_issues(r"(?<=abc)(foo)\1");
    assert!(issues.iter().any(|issue| issue.contains("lookbehind")));
    assert!(issues.iter().any(|issue| issue.contains("backreferences")));
}

#[test]
fn vectorscan_compatibility_lists_issues_in_order() {
    assert!(vectorscan_compatibility_issues("(?<http>GET)").is_empty());
    assert_eq!(
        vectorscan_compatibility_issues("(?>a)(?(1)b|c)(?C1)(?R)"),
        vec![
            "recursive/subroutine constructs are not supported",
            "atomic groups may be incompatible",
            "conditional expressions are not supported",
            "callouts are not supported",
        ]
    );
}

#[test]
fn parse_and_evaluate_basic_condition() {
    let expr = parse_sigma_condition("keywords and not filter").expect("parse condition");
    let mut selector_hits = SelectorHits::new();
    selector_hits.insert("keywords".to_string(), true);
    selector_hits.insert("filter".to_string(), false);
    assert!(expr.evaluate(&selector_hits));
}

#[test]
fn parse_count_of_selector_glob() {
    let expr = parse_sigma_condition("1 of selection*").expect("parse condition");
    let mut selector_hits = SelectorHits::new();
    selector_hits.insert("selection_a".to_string(), false);
    selector_hits.insert("selection_b".to_string(), true);
    assert!(expr.evaluate(&selector_hits));
}

#[test]
fn and_not_condition_truth_table() {
    let expr = parse_sigma_condition("A and not B").expect("parse");
    for (a, b, expected) in [(true, false, true), (true, true, false), (false, false, false), (false, true, false)] {
        let mut hits = SelectorHits::new();
        hits.insert("A".to_string(), a);
        hits.insert("B".to_string(), b);
        assert_eq!(expr.evaluate(&hits), expected);
    }
}

#[test]
fn count_conditions_and_precedence() {
    let mut hits = SelectorHits::new();
    hits.insert("sel_a".to_string(), true);
    hits.insert("sel_b".to_string(), false);
    hits.insert("other".to_string(), true);
    assert!(!parse_sigma_condition("all of sel_*").expect("parse").evaluate(&hits));
    assert!(parse_sigma_condition("all of them or sel_a").expect("parse").evaluate(&hits));
    assert!(parse_sigma_condition("2 of THEM").expect("parse").evaluate(&hits));
    assert!(!parse_sigma_condition("3 of them").expect("parse").evaluate(&hits));
    assert!(!parse_sigma_condition("1 of nothing*").expect("parse").evaluate(&hits));
    assert!(parse_sigma_condition("sel_b or other and sel_a").expect("parse").evaluate(&hits));
    assert!(!parse_sigma_condition("(sel_b or other) and not sel_a").expect("parse").evaluate(&hits));
    assert!(!parse_sigma_condition("missing").expect("parse").evaluate(&hits));
}

#[test]
fn condition_errors() {
    assert!(parse_sigma_condition("a and").is_err());
    assert!(parse_sigma_condition("(a or b").is_err());
    assert!(parse_sigma_condition("a b").is_err());
    assert!(parse_sigma_condition("1 selection").is_err());
    assert!(parse_sigma_condition("a | b").is_err());
    assert!(tokenize_condition("99999999999999999999999 of them").is_err());
    assert_eq!(tokenize_condition(" (a) ").expect("tokens").len(), 3);
}

#[test]
fn wildcard_matching() {
    assert!(wildcard_match("*", "anything"));
    assert!(wildcard_match("sel*", "selection"));
    assert!(wildcard_match("*tion", "selection"));
    assert!(wildcard_match("s*c*n", "selection"));
    assert!(!wildcard_match("sel*x", "selection"));
    assert!(wildcard_match("exact", "exact"));
    assert!(!wildcard_match("exact", "exactly"));
}

#[test]
fn sigma_helpers() {
    assert_eq!(strip_yaml_quotes("  'curl '  "), "curl ");
    assert_eq!(strip_yaml_quotes("\"x\""), "x");
    assert_eq!(strip_yaml_quotes("'x\""), "'x\"");
    assert_eq!(sanitize_capture_name("Sigma-Condition Test!"), "sigma_condition_test");
    assert_eq!(sanitize_capture_name("123abc"), "sigma_123abc");
    assert_eq!(sanitize_capture_name("___"), "sigma_match");
    assert_eq!(sigma_escape_literal("a.b*c?(d)"), "a\\.b.*c.\\(d\\)");
    let contains = vec!["contains".to_string()];
    assert_eq!(sigma_value_to_pcre("/bin/sh", &contains), ".*/bin/sh.*");
    assert_eq!(sigma_value_to_pcre("a*b", &contains), "a.*b");
    assert_eq!(sigma_value_to_pcre("x.y", &vec!["startswith".to_string()]), "x\\.y.*");
    assert_eq!(sigma_value_to_pcre("x.y", &vec!["endswith".to_string()]), ".*x\\.y");
    assert_eq!(sigma_value_to_pcre("x.y", &vec!["re".to_string()]), "x.y");
}

#[test]
fn sigma_capture_name_respects_portable_pcre2_limit() {
    let capture_name = sigma_capture_name("sigma_condition_filter_test", "selection_fetch_commandline", 123_456_789);
    assert!(capture_name.starts_with("sigma_"));
    assert!(capture_name.len() <= 32);
}

#[test]
fn sigma_capture_name_keeps_short_ordinal() {
    let name = sigma_capture_name("rule", "sel", 3);
    assert!(name.starts_with("sigma_"));
    assert!(name.ends_with("_3"));
    assert_eq!(name.len(), "sigma_".len() + 16 + 2);
}

const RULE_YAML: &str = "title: Sigma Condition Test
id: sigma-condition-test
detection:
  selection_cmd:
    CommandLine|contains:
      - '/bin/sh'
  selection_fetch:
    CommandLine|contains:
      - 'curl '
  condition: selection_cmd and selection_fetch
";

#[test]
fn load_rule_plan_and_condition_match() {
    let plan = load_sigma_rule_plan(RULE_YAML, "precursor-sigma-condition", "rule.yml").expect("load rule plan");
    assert_eq!(plan.rule_slug, "sigma_condition_test");
    assert_eq!(plan.pattern_specs.len(), 2);
    let matched = plan
        .selector_capture_names
        .iter()
        .flat_map(|(_, captures)| captures.iter().cloned())
        .collect::<Vec<String>>();
    assert!(matched.iter().all(|capture_name| capture_name.len() <= 32));
    let plans = vec![plan];
    let hits = matching_sigma_rules(&plans, &matched);
    assert_eq!(hits.len(), 1);
}

#[test]
fn sigma_rule_requires_both_selectors() {
    let plan = load_sigma_rule_plan(RULE_YAML, "stem", "rule.yml").expect("plan");
    assert_eq!(plan.rule_name, "Sigma Condition Test");
    assert!(plan.pattern_specs[0].regex.ends_with(">.*/bin/sh.*)"));
    let fetch_only: Vec<String> = plan.selector_capture_names.iter().filter(|(s, _)| s == "selection_fetch")
        .flat_map(|(_, c)| c.iter().cloned()).collect();
    let plans = vec![plan];
    assert!(matching_sigma_rules(&plans, &fetch_only).is_empty());
    assert!(matching_sigma_rules(&plans, &Vec::new()).is_empty());
}

#[test]
fn sigma_rule_errors() {
    assert!(load_sigma_rule_plan("title: x\n", "stem", "r.yml").is_err());
    assert!(load_sigma_rule_plan("detection:\n  condition: a\n", "stem", "r.yml").is_err());
    assert!(load_sigma_rule_plan("detection:\n  sel: abc\n  condition: sel and\n", "stem", "r.yml").is_err());
    let plan = load_sigma_rule_plan("detection:\n  keywords: evil\n", "stem", "r.yml").expect("plan");
    assert_eq!(plan.rule_name, "stem");
    assert_eq!(plan.pattern_specs.len(), 1);
}

#[test]
fn test_remove_wrapped_quotes() {
    assert_eq!(remove_wrapped_quotes("Hello"), "Hello");
    assert_eq!(remove_wrapped_quotes("\"Hello\""), "Hello");
    assert_eq!(remove_wrapped_quotes("'Hello'"), "Hello");
}

#[test]
fn test_xxh3_64_hex() {
    let input = b"Hello, world!";
    let (hash, hex) = xxh3_64_hex(input.to_vec());
    assert_ne!(hash, 0);
    assert_eq!(hex, format!("{:x}", hash));
    assert_eq!(hash, xxhash_rust::xxh3::xxh3_64(input));
}

#[test]
fn test_get_payload() {
    assert_eq!(get_payload("aGVsbG8=", "base64").expect("decode base64"), b"hello".to_vec());
    assert_eq!(get_payload("hello", "string").expect("decode string"), b"hello".to_vec());
    assert_eq!(get_payload("68656c6c6f", "hex").expect("decode hex"), b"hello".to_vec());
    assert_eq!(get_payload("hello", "binary").expect("decode binary"), b"hello".to_vec());
    let result = get_payload("hello", "invalid_mode");
    assert!(result.is_err());
}

#[test]
fn get_payload_strips_quotes_and_whitespace() {
    assert_eq!(get_payload("'68 65 6c'", "hex").expect("hex"), b"hel".to_vec());
    assert_eq!(get_payload("\"hi\"", "binary").expect("binary"), b"\"hi\"".to_vec());
    assert!(get_payload("6", "hex").expect_err("odd").starts_with("invalid hex payload"));
    assert!(get_payload("!!", "base64").expect_err("bad").starts_with("invalid base64 payload"));
    assert_eq!(get_payload("x", "utf16").expect_err("mode"), "utf16 not a supported input mode.");
}

#[test]
fn test_get_payload_from_blob() {
    assert_eq!(get_payload_from_blob(b"\"aGVs bG8=\"\n", "base64").expect("decode blob base64"), b"hello".to_vec());
    assert_eq!(get_payload_from_blob(b"'68 65 6c 6c 6f'\r\n", "hex").expect("decode blob hex"), b"hello".to_vec());
    let binary = vec![0x7f, b'E', b'L', b'F', 0x00, 0x01];
    assert_eq!(get_payload_from_blob(binary.as_slice(), "binary").expect("decode blob binary"), binary);
}

#[test]
fn test_get_payload_from_blob_errors_are_decode_not_utf8() {
    let err = get_payload_from_blob(b"6865fg", "hex").expect_err("expect bad hex");
    assert!(err.contains("invalid hex payload"));
    assert!(!err.contains("UTF-8"));
}

#[test]
fn test_format_size() {
    assert_eq!(format_size(500), "500B");
    assert_eq!(format_size(1023), "1023B");
    assert_eq!(format_size(1024), "1.00KB");
    assert_eq!(format_size(1536), "1.50KB");
    assert_eq!(format_size(1048576), "1.00MB");
    assert_eq!(format_size(1572864), "1.50MB");
    assert_eq!(format_size(1073741824), "1.00GB");
    assert_eq!(format_size(1610612736), "1.50GB");
    assert_eq!(format_size(1099511627776), "1.00TB");
    assert_eq!(format_size(1649267441664), "1.50TB");
}

#[test]
fn format_size_edges() {
    assert_eq!(format_size(0), "0B");
    assert_eq!(format_size(-5), "-5B");
    assert_eq!(format_size(1025), "1.00KB");
    assert_eq!(format_size(2047), "2.00KB");
}

#[test]
fn test_build_regex() {
    assert!(build_regex("(?<digits>\\d+)").is_ok());
    assert!(build_regex("[InvalidRegex").is_err());
}

#[test]
fn build_regex_requires_a_named_group() {
    assert!(build_regex("\\d+").is_err());
}

#[test]
fn tagging_collects_named_captures_in_order() {
    let patterns = vec![
        build_regex("(?<http_get>GET)").expect("p1"),
        build_regex("(?<host>Host:)|(?<agent>User-Agent:)").expect("p2"),
    ];
    let (tags, matched) = tag_payload(&patterns, b"GET / HTTP/1.1 Host: x User-Agent: y GET");
    assert!(matched);
    assert_eq!(tags, vec!["http_get", "http_get", "host", "agent"]);
    let (none, matched_none) = tag_payload(&patterns, b"nothing here");
    assert!(none.is_empty());
    assert!(!matched_none);
}

#[test]
fn tagging_line_and_blob_modes() {
    let patterns = vec![build_regex("(?<multi>GET /blob HTTP/1\\.1\\nHost: blob\\.example)").expect("pattern")];
    let blob = b"GET /blob HTTP/1.1\nHost: blob.example\n";
    for line in blob.split(|b| *b == b'\n') {
        assert!(!tag_payload(&patterns, line).1);
    }
    let (tags, matched) = tag_payload(&patterns, blob);
    assert!(matched);
    assert_eq!(tags, vec!["multi"]);
    let elf = vec![build_regex("(?<elf_magic>^\\x7fELF)").expect("elf")];
    let (elf_tags, _) = tag_payload(&elf, &[0x7f, 0x45, 0x4c, 0x46, 0x02, 0x01, 0x01, 0x00]);
    assert_eq!(elf_tags, vec!["elf_magic"]);
}

#[test]
fn tags_skip_empty_and_unnamed_groups() {
    let names = vec![None, Some("a".to_string()), Some("b".to_string())];
    let matches = vec![vec![Some((0, 3)), Some((1, 1)), Some((0, 2))], vec![Some((4, 5)), Some((4, 5)), None]];
    assert_eq!(tags_from_matches(&names, &matches), vec!["b", "a"]);
}

#[test]
fn sigma_inline_values_and_field_lists() {
    let yaml = "title: 'Inline'
detection:
  keywords: \"evil\"
  selection:
    Image|endswith: '.exe'
    CommandLine:
      - 'a?b'
      - ''
# trailing comment
  condition: keywords or selection
level: high
";
    let plan = load_sigma_rule_plan(yaml, "stem", "r.yml").expect("plan");
    assert_eq!(plan.rule_name, "Inline");
    assert_eq!(plan.rule_slug, "stem");
    assert_eq!(plan.pattern_specs.len(), 3);
    assert!(plan.pattern_specs[0].regex.ends_with(">evil)"));
    assert!(plan.pattern_specs[1].regex.ends_with(">.*\\.exe)"));
    assert!(plan.pattern_specs[2].regex.ends_with(">a.b)"));
    assert_eq!(plan.selector_capture_names.len(), 2);
}

#[test]
fn remove_wrapped_quotes_strips_one_matching_layer() {
    assert_eq!(remove_wrapped_quotes("''x''"), "'x'");
    assert_eq!(remove_wrapped_quotes("'x\""), "'x\"");
    assert_eq!(remove_wrapped_quotes("\""), "\"");
    assert_eq!(remove_wrapped_quotes("\"\""), "");
}

#[test]
fn sigma_capture_names_follow_selectors() {
    let plan = load_sigma_rule_plan(RULE_YAML, "stem", "rule.yml").expect("plan");
    for (i, (selector, names)) in plan.selector_capture_names.iter().enumerate() {
        assert_eq!(names.len(), 1);
        let name = &names[0];
        assert!(name.starts_with("sigma_") && name.len() <= 32);
        assert_eq!(name, &sigma_capture_name("sigma_condition_test", &format!("{}_commandline", selector), 0));
        assert!(plan.pattern_specs[i].regex.starts_with(&format!("(?<{}>", name)));
    }
}

#[test]
fn blob_decode_errors_name_the_encoding() {
    assert!(get_payload_from_blob(b"!!", "base64").expect_err("bad").starts_with("invalid base64 payload: "));
    assert_eq!(get_payload_from_blob(b"x", "utf16").expect_err("mode"), "utf16 not a supported input mode.");
}
