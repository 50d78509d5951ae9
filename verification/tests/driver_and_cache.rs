use emergency_dispatch::cache::FetchCache;
use emergency_dispatch::clock::now_datetime;
use emergency_dispatch::driver::{get_all, AdapterOutcome};
use emergency_dispatch::records::{build_union_snapshot, is_record_file_name, jurisdiction_index,
    AuthorityRecord, RawEvent, SourceDescriptor};
use emergency_dispatch::HttpRequestConfig;

fn record(code: &str, n_events: usize) -> AuthorityRecord {
    AuthorityRecord {
        jurisdiction_code: code.to_string(),
        source: SourceDescriptor {
            name: format!("{}消防局", code),
            url: format!("http://example.jp/{}", code),
        },
        events: (0..n_events)
            .map(|i| RawEvent {
                event_type: "救急".to_string(),
                address: format!("住所{}", i),
                time: "10:00".to_string(),
            })
            .collect(),
    }
}

#[test]
fn partial_failure_is_tolerated() {
    let outcomes = vec![
        AdapterOutcome::Fetched(record("011002", 1)),
        AdapterOutcome::Failed("012025: unreachable".to_string()),
        AdapterOutcome::Fetched(record("122033", 0)),
        AdapterOutcome::Failed("141003: markup changed".to_string()),
        AdapterOutcome::Fetched(record("231002", 2)),
    ];
    let report = get_all(outcomes).unwrap();
    assert_eq!(report.persisted_count, 3);
    assert_eq!(report.failure_count, 2);
    assert_eq!(report.records.len(), 3);
    assert_eq!(report.records[0].jurisdiction_code, "011002");
    assert_eq!(report.records[1].jurisdiction_code, "122033");
    assert_eq!(report.records[2].jurisdiction_code, "231002");
}

#[test]
fn total_failure_aborts_the_run() {
    let outcomes = vec![
        AdapterOutcome::Failed("a".to_string()),
        AdapterOutcome::Failed("b".to_string()),
        AdapterOutcome::Failed("c".to_string()),
        AdapterOutcome::Failed("d".to_string()),
        AdapterOutcome::Failed("e".to_string()),
    ];
    let err = get_all(outcomes).unwrap_err();
    assert_eq!(err.failure_count, 5);
}

#[test]
fn empty_run_succeeds_vacuously() {
    let report = get_all(Vec::new()).unwrap();
    assert_eq!(report.persisted_count, 0);
    assert_eq!(report.failure_count, 0);
}

#[test]
fn fetch_cache_returns_stored_bodies() {
    let mut cache = FetchCache::new();
    assert!(cache.lookup("http://example.jp/a").is_none());
    let body = cache.store_fetched("http://example.jp/a", b"hello page".to_vec(), false);
    assert_eq!(body, "hello page");
    assert_eq!(cache.lookup("http://example.jp/a").map(|b| b.as_str()), Some("hello page"));
    assert!(cache.lookup("http://example.jp/b").is_none());
}

#[test]
fn fetch_cache_decodes_shift_jis() {
    // "テスト" in Shift_JIS
    let raw = vec![0x83u8, 0x65, 0x83, 0x58, 0x83, 0x67];
    let mut cache = FetchCache::new();
    let body = cache.store_fetched("http://example.jp/sjis", raw, true);
    assert_eq!(body, "テスト");
    assert_eq!(cache.lookup("http://example.jp/sjis").map(|b| b.as_str()), Some("テスト"));
}

#[test]
fn fetch_cache_decodes_utf8_lossily() {
    let mut cache = FetchCache::new();
    let body = cache.store_fetched("http://example.jp/bad", vec![0x61, 0xff, 0x62], false);
    assert_eq!(body, "a\u{fffd}b");
}

#[test]
fn jurisdiction_index_is_sorted() {
    let records = vec![record("231002", 0), record("011002", 1), record("122033", 0)];
    let index = jurisdiction_index(&records);
    assert_eq!(index, vec!["011002", "122033", "231002"]);
}

#[test]
fn union_snapshot_keeps_only_non_empty_records() {
    let records = vec![record("231002", 0), record("011002", 1), record("122033", 2)];
    let snapshot = build_union_snapshot(&records);
    assert_eq!(snapshot.len(), 2);
    assert_eq!(snapshot[0].jurisdiction_code, "011002");
    assert_eq!(snapshot[1].jurisdiction_code, "122033");
    assert_eq!(snapshot[1].events.len(), 2);
    assert_eq!(snapshot[1].events[0].address, "住所0");
}

#[test]
fn record_file_names_are_six_digits_dot_json() {
    assert!(is_record_file_name("011002.json"));
    assert!(is_record_file_name("999999.json"));
    assert!(!is_record_file_name("01100.json"));
    assert!(!is_record_file_name("0110022.json"));
    assert!(!is_record_file_name("a11002.json"));
    assert!(!is_record_file_name("011002.Json"));
    assert!(!is_record_file_name("011002json"));
    assert!(!is_record_file_name("list.json"));
    assert!(!is_record_file_name(""));
}

#[test]
fn request_config_builders_set_their_fields() {
    let config = HttpRequestConfig::new("www.example.jp", "http://www.example.jp/saigai");
    assert_eq!(config.host, "www.example.jp");
    assert_eq!(config.url, "http://www.example.jp/saigai");
    assert!(!config.use_shift_jis);
    assert!(config.accept.is_none());

    let config = config
        .with_shift_jis(true)
        .with_accept("text/html")
        .with_accept_language("ja")
        .with_connection("close")
        .with_content_type("text/plain");
    assert!(config.use_shift_jis);
    assert_eq!(config.accept.as_deref(), Some("text/html"));
    assert_eq!(config.accept_language.as_deref(), Some("ja"));
    assert_eq!(config.connection.as_deref(), Some("close"));
    assert_eq!(config.content_type.as_deref(), Some("text/plain"));
    assert_eq!(config.host, "www.example.jp");
}

#[test]
fn system_clock_reads_a_well_formed_date() {
    let now = now_datetime().unwrap();
    assert!(1 <= now.date.month && now.date.month <= 12);
    assert!(1 <= now.date.day && now.date.day <= 31);
    assert!(now.hour <= 23);
    assert!(now.minute <= 59);
    assert!(1 <= now.date.year && now.date.year <= 9999);
}
