use gimtex::compose::{compose_payload, finalize_payload};
use gimtex::manifest::{summarize_manifests, ManifestInfo};
use gimtex::process::{is_binary_probe, number_lines, process_file_data, token_count, ProcessedFile};
use gimtex::secrets::SecretScanner;
use gimtex::selection::{is_pruned_dir, parse_git_paths, plan_scan};
use gimtex::tree::generate_tree_view;
use gimtex::{OutputFormat, ScanError};

fn v(s: &str) -> Vec<u8> {
    s.as_bytes().to_vec()
}

fn s(b: &[u8]) -> String {
    String::from_utf8_lossy(b).to_string()
}

#[test]
fn plan_keeps_subset_filtered_and_sorted() {
    let raw = vec![v("b.rs"), v("a.rs"), v("c.txt"), v("a.rs")];
    let planned = plan_scan(&raw, &Some(v("*.rs"))).unwrap();
    assert_eq!(planned, vec![v("a.rs"), v("b.rs")]);
}

#[test]
fn plan_without_filter_sorts_and_dedups() {
    let raw = vec![v("z"), v("m"), v("a"), v("m")];
    let planned = plan_scan(&raw, &None).unwrap();
    assert_eq!(planned, vec![v("a"), v("m"), v("z")]);
}

#[test]
fn invalid_glob_is_fatal() {
    let raw = vec![v("a.rs")];
    let r = plan_scan(&raw, &Some(v("a[")));
    assert_eq!(r, Err(ScanError::InvalidGlob));
}

#[test]
fn clean_text_passes_through_scanner() {
    let scanner = SecretScanner::new();
    let content = v("fn main() {\n    println!(\"hi\");\n}\n");
    let (out, found) = scanner.scan(&content);
    assert_eq!(out, content);
    assert!(!found);
}

#[test]
fn generic_secret_value_is_redacted_in_place() {
    let scanner = SecretScanner::new();
    let (out, found) = scanner.scan(&v("password = \"abcdef12\""));
    assert_eq!(s(&out), "password = \"[REDACTED_SECRET]\"");
    assert!(found);
}

#[test]
fn generic_detector_keeps_surrounding_line() {
    let scanner = SecretScanner::new();
    let (out, _) = scanner.scan(&v("x = 1\napi_key: 'secretvalue99'\ny = 2\n"));
    assert_eq!(s(&out), "x = 1\napi_key: '[REDACTED_SECRET]'\ny = 2\n");
}

#[test]
fn short_values_are_not_redacted() {
    let scanner = SecretScanner::new();
    let content = v("password = \"short\"");
    let (out, found) = scanner.scan(&content);
    assert_eq!(out, content);
    assert!(!found);
}

#[test]
fn cloud_key_id_is_redacted_whole() {
    let scanner = SecretScanner::new();
    // The key id is assembled at runtime so that no source line holds a
    // credential-shaped string.
    let key = format!("{}{}{}", "AKIA", "IOSFODNN7", "EXAMPLE");
    let (out, found) = scanner.scan(&v(&format!("key id {} end", key)));
    assert_eq!(s(&out), "key id [REDACTED_AWS_KEY] end");
    assert!(found);
}

#[test]
fn ai_provider_key_is_redacted_whole() {
    let scanner = SecretScanner::new();
    // Assembled at runtime so that no source line holds a key-shaped string.
    let key = format!("{}{}{}", "sk-", "abcdefghijklmnopqrst", "T3BlbkFJ");
    let (out, found) = scanner.scan(&v(&format!("token {} here", key)));
    assert_eq!(s(&out), "token [REDACTED_OPENAI_KEY] here");
    assert!(found);
}

#[test]
fn rescanning_redacted_text_changes_nothing() {
    let scanner = SecretScanner::new();
    let ai_key = format!("{}{}{}", "sk-", "abcdefghijklmnopqrst", "T3BlbkFJ");
    let cloud_key = format!("{}{}{}", "AKIA", "IOSFODNN7", "EXAMPLE");
    let input = v(&format!(
        "password = \"abcdef12\"\n{}\n{}\nsecret: 'value_with_12'\n",
        ai_key, cloud_key
    ));
    let (once, found) = scanner.scan(&input);
    assert!(found);
    let (twice, found_again) = scanner.scan(&once);
    assert_eq!(once, twice);
    assert!(!found_again);
}

#[test]
fn binary_probe_is_detected() {
    assert!(is_binary_probe(&vec![104, 105, 0, 106]));
    assert!(!is_binary_probe(&v("plain text")));
}

#[test]
fn binary_file_yields_no_entry() {
    let scanner = SecretScanner::new();
    let probe = vec![0u8, 1, 2];
    let content = v("looks like text");
    let r = process_file_data(&scanner, &probe, Some(&content), false);
    assert!(r.is_none());
}

#[test]
fn unreadable_file_yields_no_entry() {
    let scanner = SecretScanner::new();
    let r = process_file_data(&scanner, &v("text"), None, false);
    assert!(r.is_none());
}

#[test]
fn processed_file_keeps_clean_content() {
    let scanner = SecretScanner::new();
    let content = v("hello world");
    let r = process_file_data(&scanner, &content, Some(&content), false);
    let (pf, found) = r.unwrap();
    assert_eq!(pf.text, content);
    assert_eq!(pf.tokens, 2);
    assert!(!found);
}

#[test]
fn line_numbers_are_right_aligned() {
    let out = number_lines(&v("alpha\nbeta"));
    assert_eq!(s(&out), "   1 | alpha\n   2 | beta\n");
}

#[test]
fn line_numbers_drop_carriage_returns() {
    let out = number_lines(&v("a\r\nb\n"));
    assert_eq!(s(&out), "   1 | a\n   2 | b\n");
}

#[test]
fn token_count_matches_vocabulary() {
    assert_eq!(token_count(&v("hello world")), 2);
}

#[test]
fn tree_orders_children_lexicographically() {
    let files = vec![v("./a/b/x"), v("./a/b/y"), v("./a/c/z")];
    let out = generate_tree_view(&files, &v("."));
    let expected = ".\n\u{2514}\u{2500}\u{2500} a/\n    \u{251c}\u{2500}\u{2500} b/\n    \u{2502}   \u{251c}\u{2500}\u{2500} x\n    \u{2502}   \u{2514}\u{2500}\u{2500} y\n    \u{2514}\u{2500}\u{2500} c/\n        \u{2514}\u{2500}\u{2500} z\n";
    assert_eq!(s(&out), expected);
}

#[test]
fn tree_root_label_is_printed_once() {
    let files = vec![v("r/only")];
    let out = generate_tree_view(&files, &v("r"));
    assert_eq!(s(&out), "r\n\u{2514}\u{2500}\u{2500} only\n");
}

#[test]
fn markdown_payload_has_one_block_per_processed_file() {
    let entries = vec![
        (v("a.rs"), Some(ProcessedFile { text: v("fn a() {}"), tokens: 4 })),
        (v("b.rs"), None),
        (v("c.rs"), Some(ProcessedFile { text: v("fn c() {}"), tokens: 5 })),
    ];
    let out = compose_payload(&None, &v("TREE"), &entries, OutputFormat::Markdown);
    let expected = "PROJECT STRUCTURE:\n==================\nTREE\n\nFILE CONTENTS:\n==================\n\n--- File: a.rs (4 tokens) ---\nfn a() {}\n\n--- File: c.rs (5 tokens) ---\nfn c() {}\n\n";
    assert_eq!(s(&out), expected);
}

#[test]
fn xml_payload_carries_path_and_token_attributes() {
    let entries = vec![
        (v("a.rs"), Some(ProcessedFile { text: v("fn a() {}"), tokens: 4 })),
        (v("c.rs"), Some(ProcessedFile { text: v("fn c() {}"), tokens: 5 })),
    ];
    let out = compose_payload(&None, &v("TREE"), &entries, OutputFormat::Xml);
    let expected = "PROJECT STRUCTURE:\n==================\nTREE\n\nFILE CONTENTS:\n==================\n\n<file path=\"a.rs\" tokens=\"4\">\nfn a() {}\n</file>\n<file path=\"c.rs\" tokens=\"5\">\nfn c() {}\n</file>\n";
    assert_eq!(s(&out), expected);
}

#[test]
fn context_block_precedes_structure() {
    let entries: Vec<(Vec<u8>, Option<ProcessedFile>)> = Vec::new();
    let out = compose_payload(&Some(v("CTX")), &v("TREE"), &entries, OutputFormat::Markdown);
    assert!(s(&out).starts_with("CTX\nPROJECT STRUCTURE:\n"));
}

#[test]
fn payload_metrics_cover_the_whole_text() {
    let p = finalize_payload(v("hello world"));
    assert_eq!(p.tokens, 2);
    assert_eq!(p.chars, 11);
    assert_eq!(p.text, v("hello world"));
}

#[test]
fn manifest_summary_lists_capped_dependencies() {
    let rust = ManifestInfo {
        name: Some(v("demo")),
        deps: Some(vec![(v("serde"), Some(v("1.0"))), (v("toml"), None)]),
    };
    let out = summarize_manifests(&Some(rust), &None).unwrap();
    let expected = "PROJECT CONTEXT:\n================\n[+] Project: demo (Rust)\n[+] Dependencies:\n    - serde: 1.0\n    - toml: *\n\n";
    assert_eq!(s(&out), expected);
}

#[test]
fn manifest_cap_is_fifteen() {
    let deps: Vec<(Vec<u8>, Option<Vec<u8>>)> =
        (0..20).map(|i| (v(&format!("dep{:02}", i)), None)).collect();
    let rust = ManifestInfo { name: None, deps: Some(deps) };
    let out = summarize_manifests(&Some(rust), &None).unwrap();
    let text = s(&out);
    assert_eq!(text.matches("    - ").count(), 15);
    assert!(text.contains("[+] Project: Unknown (Rust)\n"));
}

#[test]
fn absent_manifests_leave_no_context_block() {
    assert!(summarize_manifests(&None, &None).is_none());
}

#[test]
fn node_manifest_follows_rust_manifest() {
    let rust = ManifestInfo { name: Some(v("crate_name")), deps: None };
    let node = ManifestInfo { name: Some(v("pkg")), deps: Some(vec![]) };
    let out = summarize_manifests(&Some(rust), &Some(node)).unwrap();
    let expected = "PROJECT CONTEXT:\n================\n[+] Project: crate_name (Rust)\n[+] Project: pkg (Node.js)\n[+] Dependencies:\n\n";
    assert_eq!(s(&out), expected);
}

#[test]
fn git_file_list_drops_empty_lines() {
    let out = parse_git_paths(&v("a.rs\nsrc/b.rs\n\n"));
    assert_eq!(out, vec![v("a.rs"), v("src/b.rs")]);
}

#[test]
fn bulk_directories_are_pruned() {
    assert!(is_pruned_dir(&v("node_modules")));
    assert!(is_pruned_dir(&v(".git")));
    assert!(is_pruned_dir(&v("target")));
    assert!(!is_pruned_dir(&v("src")));
}

#[test]
fn args_distill_into_config() {
    let a = gimtex::Args {
        path: None,
        copy: false,
        format: "xml".to_string(),
        filter: Some("*.rs".to_string()),
        diff: true,
        numbers: true,
        output: None,
        max_size: 5,
        interactive: false,
    };
    let c = a.to_config();
    assert!(matches!(c.mode, gimtex::ScanMode::GitDiff));
    assert!(matches!(c.format, gimtex::OutputFormat::Xml));
    assert_eq!(c.filter, Some(b"*.rs".to_vec()));
    assert!(c.number_lines);
    assert_eq!(c.max_size, 5);
}

#[test]
fn default_format_is_markdown() {
    let a = gimtex::Args {
        path: Some(".".to_string()),
        copy: false,
        format: "markdown".to_string(),
        filter: None,
        diff: false,
        numbers: false,
        output: None,
        max_size: 100_000,
        interactive: false,
    };
    let c = a.to_config();
    assert!(matches!(c.mode, gimtex::ScanMode::FullWalk));
    assert!(matches!(c.format, gimtex::OutputFormat::Markdown));
    assert_eq!(c.filter, None);
}

#[test]
fn ai_provider_match_is_greedy_to_the_last_marker() {
    let scanner = SecretScanner::new();
    let key = format!(
        "{}{}{}{}{}",
        "sk-",
        "a".repeat(20),
        "T3BlbkFJ",
        "b".repeat(20),
        "T3BlbkFJ"
    );
    let (out, _) = scanner.scan(&v(&format!("{}!x", key)));
    assert_eq!(s(&out), "[REDACTED_OPENAI_KEY]!x");
}

#[test]
fn adjacent_cloud_keys_are_both_redacted() {
    let scanner = SecretScanner::new();
    let one = format!("{}{}", "AKIA", "0123456789ABCDEF");
    let (out, _) = scanner.scan(&v(&format!("{}{}", one, one)));
    assert_eq!(s(&out), "[REDACTED_AWS_KEY][REDACTED_AWS_KEY]");
}

#[test]
fn final_line_without_newline_keeps_a_bare_carriage_return() {
    let out = number_lines(&v("a\r\nb\r"));
    assert_eq!(s(&out), "   1 | a\n   2 | b\r\n");
}
