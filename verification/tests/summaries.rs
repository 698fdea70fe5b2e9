use wrangler_cmd::ansi::strip_ansi;
use wrangler_cmd::deploy::{extract_binding_types, filter_deploy_output, parse_deploy_output};
use wrangler_cmd::pages::{filter_pages_output, parse_pages_output};

// ── strip_ansi ─────────────────────────────────────────────────

#[test]
fn strip_ansi_removes_colour_sequences() {
    assert_eq!(strip_ansi("\x1b[32mgreen\x1b[0m plain \x1b[1;31mbold\x1b[m"), "green plain bold");
}

#[test]
fn strip_ansi_keeps_incomplete_sequences() {
    // An escape without a final letter is not a sequence and stays.
    assert_eq!(strip_ansi("a\x1b[12;"), "a\x1b[12;");
    assert_eq!(strip_ansi("a\x1b[1-x"), "a\x1b[1-x");
    assert_eq!(strip_ansi("a\x1b"), "a\x1b");
    assert_eq!(strip_ansi("\x1b(B"), "\x1b(B");
}

#[test]
fn strip_ansi_plain_text_unchanged() {
    let plain = "Uploaded my-worker (1.00 sec)\n  ✓ done";
    assert_eq!(strip_ansi(plain), plain);
}

#[test]
fn strip_ansi_does_not_rescan() {
    // Removing the inner sequence leaves `\x1b[m`, which stays.
    assert_eq!(strip_ansi("\x1b[\x1b[0mm"), "\x1b[m");
}

// ── deploy: exact summaries ─────────────────────────────────────

#[test]
fn deploy_summary_exact() {
    let output = "Total Upload: 45.67 KiB / gzip: 12.34 KiB\nUploaded my-worker (1.23 sec)\n  https://my-worker.username.workers.dev\nCurrent Version ID: abc123def456\n";
    assert_eq!(
        filter_deploy_output(output),
        "✓ my-worker deployed (1.23 sec) 45.67 KiB/12.34 KiB gzip\n  https://my-worker.username.workers.dev\n  version: abc123def456"
    );
}

#[test]
fn deploy_summary_with_warnings_exact() {
    let output = "▲ [WARNING] one\n▲ [WARN] two\n▲ [WARNING] three\n  - KV Namespaces: A\n  - Queue Producers: Q\n  - Queue Consumers: Q\nUploaded w (1 sec)\n";
    assert_eq!(
        filter_deploy_output(output),
        "✓ w deployed (1 sec)\n  ⚠ 3 warnings (bindings: KV, Queue)"
    );
}

#[test]
fn deploy_summary_single_warning_without_bindings() {
    let output = "[WARNING] careful\nUploaded w\n";
    assert_eq!(filter_deploy_output(output), "✓ w deployed\n  ⚠ 1 warning");
}

#[test]
fn deploy_summary_default_name() {
    let output = "https://x.workers.dev\nschedule: 0 0 * * *\n";
    assert_eq!(
        filter_deploy_output(output),
        "✓ worker deployed\n  https://x.workers.dev\n  schedule: 0 0 * * *"
    );
}

#[test]
fn deploy_failure_report_exact() {
    let output = "✘ [ERROR] first\nError: second\nsomething [ERROR] third\nUploaded w (1 sec)\n";
    assert_eq!(
        filter_deploy_output(output),
        "✘ wrangler deploy failed\n  ✘ [ERROR] first\n  Error: second\n  something [ERROR] third"
    );
}

#[test]
fn deploy_only_noise_is_ok() {
    let output = " ⛅️ wrangler 4.14.4\n-----\nWorker Startup Time: 2 ms\n";
    assert_eq!(filter_deploy_output(output), "ok ✓");
}

#[test]
fn deploy_noise_line_changes_nothing() {
    let base = "Uploaded w (1 sec)\n  https://w.dev";
    let with_noise = "Uploaded w (1 sec)\n  https://w.dev\nDeployed w triggers (0.45 sec)";
    assert_eq!(filter_deploy_output(base), filter_deploy_output(with_noise));
}

#[test]
fn deploy_later_line_overwrites() {
    let r = parse_deploy_output("Uploaded first (1 sec)\nUploaded second\n");
    assert_eq!(r.worker_name, Some("second".to_string()));
    assert_eq!(r.deploy_time, Some("1 sec".to_string()));
}

#[test]
fn deploy_uploaded_without_closing_paren() {
    let r = parse_deploy_output("Uploaded  spaced-name  (no end\n");
    assert_eq!(r.worker_name, Some("spaced-name".to_string()));
    assert_eq!(r.deploy_time, None);
}

#[test]
fn deploy_upload_size_without_gzip_label() {
    let r = parse_deploy_output("Total Upload:  7 KiB / 2 KiB\n");
    assert_eq!(r.upload_size, Some("7 KiB".to_string()));
    assert_eq!(r.gzip_size, None);
}

#[test]
fn deploy_crlf_and_unicode_blanks_trimmed() {
    let r = parse_deploy_output("Current Version ID:\u{3000}v1\u{a0}\r\n\tschedule: x \r\n");
    assert_eq!(r.version_id, Some("v1".to_string()));
    assert_eq!(r.schedules, vec!["schedule: x".to_string()]);
}

#[test]
fn deploy_fields_all_lists() {
    let r = parse_deploy_output("[WARN] a\nError: b\nhttps://c\n");
    assert_eq!(r.warnings, vec!["[WARN] a".to_string()]);
    assert_eq!(r.errors, vec!["Error: b".to_string()]);
    assert_eq!(r.urls, vec!["https://c".to_string()]);
    assert_eq!(r.worker_name, None);
    assert_eq!(r.upload_size, None);
}

#[test]
fn deploy_empty_output_fields() {
    let r = parse_deploy_output("");
    assert!(r.worker_name.is_none() && r.urls.is_empty() && r.errors.is_empty());
}

// ── binding types ───────────────────────────────────────────────

#[test]
fn bindings_in_order_of_first_mention() {
    let b = extract_binding_types("- Vars: X\n- KV Namespaces: Y\n- Vars: Z\n");
    assert_eq!(b, vec!["Vars".to_string(), "KV".to_string()]);
}

#[test]
fn bindings_table_order_within_a_line() {
    // Within one line the table order decides.
    let b = extract_binding_types("- Vars and AI and D1 Databases\n");
    assert_eq!(b, vec!["D1".to_string(), "AI".to_string(), "Vars".to_string()]);
}

#[test]
fn bindings_only_list_items() {
    let b = extract_binding_types("KV Namespaces: X\n-KV Namespaces\n");
    assert!(b.is_empty());
}

#[test]
fn bindings_with_escapes() {
    let b = extract_binding_types("  \x1b[2m- R2 Buckets: S\x1b[0m\n");
    assert_eq!(b, vec!["R2".to_string()]);
}

// ── pages ───────────────────────────────────────────────────────

#[test]
fn pages_summary_exact() {
    let output = "✨ Success! Uploaded 24 files (2.34 sec)\n✨ Deployment complete! Take a peek over at https://abc.pages.dev\n";
    assert_eq!(
        filter_pages_output(output),
        "✓ 24 files uploaded (2.34 sec)\n  https://abc.pages.dev"
    );
}

#[test]
fn pages_summary_nothing_found() {
    assert_eq!(filter_pages_output(""), "✓ files uploaded");
}

#[test]
fn pages_failure_report_exact() {
    assert_eq!(
        filter_pages_output("Error: nope\n✘ also\n"),
        "✘ wrangler pages deploy failed\n  Error: nope\n  ✘ also"
    );
}

#[test]
fn pages_number_rules() {
    // `+7` reads as 7; `-3`, `3x` and an overflowing number do not.
    let r = parse_pages_output("Uploaded -3 3x +7 files\n");
    assert_eq!(r.files_uploaded, Some(7));
    let r = parse_pages_output("Uploaded 99999999999999999999999 files and 5\n");
    assert_eq!(r.files_uploaded, Some(5));
    let r = parse_pages_output("Uploaded many files\n");
    assert_eq!(r.files_uploaded, None);
}

#[test]
fn pages_url_first_word() {
    let r = parse_pages_output("see xhttps://no and https://yes https://later\n");
    assert_eq!(r.url, Some("https://yes".to_string()));
    let r = parse_pages_output("see xhttps://no\n");
    assert_eq!(r.url, None);
}

#[test]
fn pages_noise_line_changes_nothing() {
    let base = "Uploaded 3 files (1 sec)";
    let with_noise = "Uploaded 3 files (1 sec)\n🌍 Uploading... (3/3)";
    assert_eq!(filter_pages_output(base), filter_pages_output(with_noise));
}

#[test]
fn pages_time_kept_when_later_line_has_none() {
    let r = parse_pages_output("Uploaded 1 files (1 sec)\nUploaded 2 files\n");
    assert_eq!(r.files_uploaded, Some(2));
    assert_eq!(r.upload_time, Some("1 sec".to_string()));
}
