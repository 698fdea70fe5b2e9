use wrangler_cmd::deploy::{extract_binding_types, filter_deploy_output, parse_deploy_output};
use wrangler_cmd::pages::{filter_pages_output, parse_pages_output};

// ── Deploy tests ───────────────────────────────────────────

#[test]
fn test_deploy_basic() {
    let output = r#"
 ⛅️ wrangler 4.14.4 (update available 4.15.0)
-------------------------------------------------------

Total Upload: 45.67 KiB / gzip: 12.34 KiB
Worker Startup Time: 2 ms
Uploaded my-worker (1.23 sec)
Deployed my-worker triggers (0.45 sec)
  https://my-worker.username.workers.dev
Current Version ID: abc123def456
"#;
    let result = filter_deploy_output(output);
    assert!(result.contains("✓ my-worker deployed"));
    assert!(result.contains("1.23 sec"));
    assert!(result.contains("45.67 KiB"));
    assert!(result.contains("12.34 KiB"));
    assert!(result.contains("https://my-worker.username.workers.dev"));
    assert!(result.contains("version: abc123def456"));
    // Should NOT contain banner
    assert!(!result.contains("⛅️"));
    assert!(!result.contains("-------"));
    assert!(!result.contains("Worker Startup Time"));
}

#[test]
fn test_deploy_with_warnings_and_bindings() {
    let output = r#"
 ⛅️ wrangler 4.14.4
-------------------------------------------------------

▲ [WARNING] Your worker has access to the following bindings

  - KV Namespaces: MY_KV
  - D1 Databases: MY_DB

Total Upload: 123.45 KiB / gzip: 34.56 KiB
Worker Startup Time: 5 ms
Uploaded api-worker (2.34 sec)
Deployed api-worker triggers (0.67 sec)
  https://api-worker.username.workers.dev
  https://api.example.com
Current Version ID: xyz789abc012
"#;
    let result = filter_deploy_output(output);
    assert!(result.contains("✓ api-worker deployed"));
    assert!(result.contains("https://api-worker.username.workers.dev"));
    assert!(result.contains("https://api.example.com"));
    assert!(result.contains("⚠ 1 warning"));
    assert!(result.contains("KV"));
    assert!(result.contains("D1"));
}

#[test]
fn test_deploy_with_schedule() {
    let output = r#"
Total Upload: 10.00 KiB / gzip: 3.00 KiB
Uploaded cron-worker (0.50 sec)
Deployed cron-worker triggers (0.20 sec)
  https://cron-worker.username.workers.dev
  schedule: */5 * * * *
Current Version ID: schedule123
"#;
    let result = filter_deploy_output(output);
    assert!(result.contains("✓ cron-worker deployed"));
    assert!(result.contains("schedule: */5 * * * *"));
}

#[test]
fn test_deploy_multiple_warnings() {
    let output = r#"
▲ [WARNING] First warning

▲ [WARNING] Second warning

  - KV Namespaces: CACHE
  - R2 Buckets: STORAGE

Total Upload: 50.00 KiB / gzip: 15.00 KiB
Uploaded multi-worker (1.00 sec)
  https://multi-worker.workers.dev
Current Version ID: multi123
"#;
    let result = filter_deploy_output(output);
    assert!(result.contains("⚠ 2 warnings"));
    assert!(result.contains("KV"));
    assert!(result.contains("R2"));
}

#[test]
fn test_deploy_error() {
    let output = r#"
 ⛅️ wrangler 4.14.4
-------------------------------------------------------

✘ [ERROR] Could not find wrangler.toml

  No configuration file found. Create a wrangler.toml in your project root.
"#;
    let result = filter_deploy_output(output);
    assert!(result.contains("✘ wrangler deploy failed"));
    assert!(result.contains("Could not find wrangler.toml"));
}

#[test]
fn test_deploy_only_size_no_gzip() {
    let output = r#"
Total Upload: 5.00 KiB
Uploaded simple-worker (0.30 sec)
  https://simple.workers.dev
Current Version ID: simple123
"#;
    let result = filter_deploy_output(output);
    assert!(result.contains("5.00 KiB"));
    assert!(!result.contains("gzip"));
}

#[test]
fn test_deploy_empty_output() {
    let result = filter_deploy_output("");
    assert_eq!(result, "ok ✓");
}

#[test]
fn test_deploy_ansi_codes_stripped() {
    let output = "\x1b[32mUploaded\x1b[0m \x1b[1mmy-worker\x1b[0m (1.00 sec)\n  https://my-worker.workers.dev\nCurrent Version ID: ansi123\n";
    let result = filter_deploy_output(output);
    assert!(result.contains("my-worker deployed"));
    assert!(!result.contains("\x1b"));
}

// ── Pages deploy tests ─────────────────────────────────────

#[test]
fn test_pages_deploy_basic() {
    let output = r#"
🌍 Uploading... (24/24)

✨ Success! Uploaded 24 files (2.34 sec)

✨ Deployment complete! Take a peek over at https://abc123.my-pages.pages.dev
"#;
    let result = filter_pages_output(output);
    assert!(result.contains("✓ 24 files uploaded"));
    assert!(result.contains("2.34 sec"));
    assert!(result.contains("https://abc123.my-pages.pages.dev"));
    // Should NOT contain progress
    assert!(!result.contains("Uploading..."));
    assert!(!result.contains("🌍"));
}

#[test]
fn test_pages_deploy_error() {
    let output = r#"
✘ [ERROR] Failed to publish

  No project found with name "nonexistent"
"#;
    let result = filter_pages_output(output);
    assert!(result.contains("✘ wrangler pages deploy failed"));
    assert!(result.contains("Failed to publish"));
}

#[test]
fn test_pages_deploy_no_count() {
    let output = r#"
✨ Deployment complete! Take a peek over at https://preview.my-pages.pages.dev
"#;
    let result = filter_pages_output(output);
    assert!(result.contains("✓ files uploaded"));
    assert!(result.contains("https://preview.my-pages.pages.dev"));
}

// ── Parse helpers ──────────────────────────────────────────

#[test]
fn test_parse_deploy_output_fields() {
    let output = r#"
Total Upload: 100.00 KiB / gzip: 30.00 KiB
Uploaded test-worker (3.50 sec)
  https://test.workers.dev
  https://custom.example.com
  schedule: 0 * * * *
Current Version ID: test789
"#;
    let result = parse_deploy_output(output);
    assert_eq!(result.worker_name, Some("test-worker".to_string()));
    assert_eq!(result.upload_size, Some("100.00 KiB".to_string()));
    assert_eq!(result.gzip_size, Some("30.00 KiB".to_string()));
    assert_eq!(result.deploy_time, Some("3.50 sec".to_string()));
    assert_eq!(result.urls.len(), 2);
    assert_eq!(result.version_id, Some("test789".to_string()));
    assert_eq!(result.schedules.len(), 1);
}

#[test]
fn test_extract_binding_types() {
    let output = r#"
  - KV Namespaces: CACHE
  - D1 Databases: MY_DB
  - R2 Buckets: STORAGE
  - Durable Objects: COUNTER
  - AI: AI_BINDING
  - Vars: API_KEY
"#;
    let bindings = extract_binding_types(output);
    assert!(bindings.contains(&"KV".to_string()));
    assert!(bindings.contains(&"D1".to_string()));
    assert!(bindings.contains(&"R2".to_string()));
    assert!(bindings.contains(&"DO".to_string()));
    assert!(bindings.contains(&"AI".to_string()));
    assert!(bindings.contains(&"Vars".to_string()));
}

#[test]
fn test_extract_binding_types_dedup() {
    let output = r#"
  - Queue Producers: QUEUE_1
  - Queue Consumers: QUEUE_1
"#;
    let bindings = extract_binding_types(output);
    // Queue should appear only once despite two entries
    assert_eq!(
        bindings.iter().filter(|b| *b == "Queue").count(),
        1,
        "Queue binding should be deduplicated"
    );
}

#[test]
fn test_parse_pages_output_fields() {
    let output = r#"
✨ Success! Uploaded 42 files (5.67 sec)
✨ Deployment complete! Take a peek over at https://deploy.pages.dev
"#;
    let result = parse_pages_output(output);
    assert_eq!(result.files_uploaded, Some(42));
    assert_eq!(result.upload_time, Some("5.67 sec".to_string()));
    assert_eq!(
        result.url,
        Some("https://deploy.pages.dev".to_string())
    );
    assert!(result.errors.is_empty());
}
