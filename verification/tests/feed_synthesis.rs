use emergency_dispatch::clock::{Date, DateTime};
use emergency_dispatch::feed::generate_rss_feed;
use emergency_dispatch::identity::load_previous_guid_mapping;
use emergency_dispatch::records::{AuthorityRecord, RawEvent, SourceDescriptor};

fn record(code: &str, name: &str, url: &str, events: &[(&str, &str, &str)]) -> AuthorityRecord {
    AuthorityRecord {
        jurisdiction_code: code.to_string(),
        source: SourceDescriptor { name: name.to_string(), url: url.to_string() },
        events: events
            .iter()
            .map(|(event_type, address, time)| RawEvent {
                event_type: event_type.to_string(),
                address: address.to_string(),
                time: time.to_string(),
            })
            .collect(),
    }
}

fn noon(day: u8) -> DateTime {
    DateTime { date: Date { year: 2025, month: 1, day }, hour: 12, minute: 0 }
}

#[test]
fn renders_exact_document_for_one_event() {
    let records = vec![record(
        "011002",
        "札幌市消防局",
        "http://example.jp/sapporo",
        &[("救助", "北海道札幌市中央区北1条", "11:30")],
    )];
    let feed = generate_rss_feed(records, None, &noon(15));
    let expected = [
        "<?xml version=\"1.0\" encoding=\"UTF-8\"?>",
        "<rss version=\"2.0\"><channel>",
        "<title>日本の緊急車両出動フィード（非公式） by oageo</title>",
        "<link>https://github.com/oageo/emergency-dispatch</link>",
        "<description>全国の緊急車両出動情報を統一されたフォーマットで提供する</description>",
        "<lastBuildDate>2025-01-15T12:00</lastBuildDate>",
        "<generator>emergency-dispatch</generator>",
        "<language>ja</language>",
        "<item>",
        "<title>救助（札幌市消防局）</title>",
        "<description>北海道札幌市中央区北1条</description>",
        "<link>http://example.jp/sapporo</link>",
        "<pubDate>2025-01-15T11:30</pubDate>",
        "<guid isPermaLink=\"false\">202501151130-011002</guid>",
        "</item>",
        "</channel></rss>",
        "",
    ]
        .join("\n");
    assert_eq!(feed, expected);
}

#[test]
fn renders_empty_document_without_records() {
    let feed = generate_rss_feed(Vec::new(), None, &noon(15));
    let expected = [
        "<?xml version=\"1.0\" encoding=\"UTF-8\"?>",
        "<rss version=\"2.0\"><channel>",
        "<title>日本の緊急車両出動フィード（非公式） by oageo</title>",
        "<link>https://github.com/oageo/emergency-dispatch</link>",
        "<description>全国の緊急車両出動情報を統一されたフォーマットで提供する</description>",
        "<lastBuildDate>2025-01-15T12:00</lastBuildDate>",
        "<generator>emergency-dispatch</generator>",
        "<language>ja</language>",
        "</channel></rss>",
        "",
    ]
        .join("\n");
    assert_eq!(feed, expected);
}

#[test]
fn malformed_times_drop_the_event() {
    let records = vec![record(
        "011002",
        "札幌市消防局",
        "http://example.jp/sapporo",
        &[("救助", "どこか", "調査中"), ("火災", "そこ", "25:00")],
    )];
    let feed = generate_rss_feed(records, None, &noon(15));
    assert!(!feed.contains("<item>"));
}

#[test]
fn identity_survives_to_the_next_run() {
    // run 1 publishes the incident at 10:00
    let run1 = vec![record(
        "011002",
        "札幌市消防局",
        "http://example.jp/sapporo",
        &[("火災", "北海道札幌市白石区", "10:00")],
    )];
    let feed1 = generate_rss_feed(run1, None, &noon(15));
    assert!(feed1.contains("<guid isPermaLink=\"false\">202501151000-011002</guid>"));

    // run 2 sees the same incident with a shifted timestamp
    let run2 = vec![record(
        "011002",
        "札幌市消防局",
        "http://example.jp/sapporo",
        &[("火災", "北海道札幌市白石区", "10:05")],
    )];
    let feed2 = generate_rss_feed(run2, Some(&feed1), &noon(15));
    assert!(feed2.contains("<guid isPermaLink=\"false\">202501151000-011002</guid>"));
    assert!(!feed2.contains("202501151005-011002"));
    assert!(feed2.contains("<pubDate>2025-01-15T10:05</pubDate>"));
}

#[test]
fn unreadable_prior_feed_degrades_to_fresh_identities() {
    let records = vec![record(
        "011002",
        "札幌市消防局",
        "http://example.jp/sapporo",
        &[("火災", "北海道札幌市白石区", "10:05")],
    )];
    let feed = generate_rss_feed(records, Some("not a feed at all"), &noon(15));
    assert!(feed.contains("<guid isPermaLink=\"false\">202501151005-011002</guid>"));
}

#[test]
fn collision_gets_sequence_suffix() {
    // two distinct incidents, same jurisdiction, same synthesized minute
    let records = vec![record(
        "011002",
        "札幌市消防局",
        "http://example.jp/sapporo",
        &[("救助", "北区", "09:15"), ("火災", "南区", "09:15")],
    )];
    let feed = generate_rss_feed(records, None, &noon(15));
    assert!(feed.contains("<guid isPermaLink=\"false\">202501150915-011002</guid>"));
    assert!(feed.contains("<guid isPermaLink=\"false\">202501150915-011002-01</guid>"));
}

#[test]
fn items_come_out_in_chronological_order() {
    let records = vec![
        record("122033", "市原市消防局", "http://example.jp/ichihara", &[(
            "救急",
            "千葉県市原市",
            "12:30",
        )]),
        record("011002", "札幌市消防局", "http://example.jp/sapporo", &[
            ("救助", "北海道札幌市", "09:15"),
            ("火災", "北海道札幌市北区", "23:40"),
        ]),
    ];
    let now = DateTime { date: Date { year: 2025, month: 1, day: 15 }, hour: 13, minute: 0 };
    let feed = generate_rss_feed(records, None, &now);
    // 23:40 lies beyond the grace window, so it belongs to yesterday
    let yesterday = feed.find("<pubDate>2025-01-14T23:40</pubDate>").unwrap();
    let morning = feed.find("<pubDate>2025-01-15T09:15</pubDate>").unwrap();
    let noon_item = feed.find("<pubDate>2025-01-15T12:30</pubDate>").unwrap();
    assert!(yesterday < morning && morning < noon_item);
}

#[test]
fn rendering_is_idempotent_up_to_the_build_stamp() {
    let make = || {
        vec![record("011002", "札幌市消防局", "http://example.jp/sapporo", &[
            ("救助", "北海道札幌市", "09:15"),
            ("火災", "北海道札幌市北区", "08:40"),
        ])]
    };
    let now1 = DateTime { date: Date { year: 2025, month: 1, day: 15 }, hour: 12, minute: 0 };
    let feed_a = generate_rss_feed(make(), None, &now1);
    let feed_b = generate_rss_feed(make(), None, &now1);
    assert_eq!(feed_a, feed_b);

    // a later instant of the same day that resolves every time of day
    // alike changes nothing but the build stamp line
    let now2 = DateTime { date: Date { year: 2025, month: 1, day: 15 }, hour: 12, minute: 30 };
    let feed_c = generate_rss_feed(make(), None, &now2);
    let lines_a: Vec<&str> = feed_a.lines().collect();
    let lines_c: Vec<&str> = feed_c.lines().collect();
    assert_eq!(lines_a.len(), lines_c.len());
    for (idx, (la, lc)) in lines_a.iter().zip(lines_c.iter()).enumerate() {
        if idx == 5 {
            assert_eq!(*la, "<lastBuildDate>2025-01-15T12:00</lastBuildDate>");
            assert_eq!(*lc, "<lastBuildDate>2025-01-15T12:30</lastBuildDate>");
        } else {
            assert_eq!(la, lc);
        }
    }
}

#[test]
fn enumeration_order_is_pinned_by_jurisdiction_code() {
    // the same two colliding events, handed over in both record orders,
    // suffix the same incident
    let a = record("011002", "札幌市消防局", "http://example.jp/sapporo", &[(
        "救助",
        "北区",
        "09:15",
    )]);
    let b = record("122033", "市原市消防局", "http://example.jp/ichihara", &[(
        "火災",
        "南区",
        "09:15",
    )]);
    let a2 = record("011002", "札幌市消防局", "http://example.jp/sapporo", &[(
        "救助",
        "北区",
        "09:15",
    )]);
    let b2 = record("122033", "市原市消防局", "http://example.jp/ichihara", &[(
        "火災",
        "南区",
        "09:15",
    )]);
    let feed1 = generate_rss_feed(vec![a, b], None, &noon(15));
    let feed2 = generate_rss_feed(vec![b2, a2], None, &noon(15));
    let strip_stamp = |s: &str| {
        s.lines().enumerate().filter(|(i, _)| *i != 5).map(|(_, l)| l.to_string()).collect::<Vec<
            String,
        >>()
    };
    assert_eq!(strip_stamp(&feed1), strip_stamp(&feed2));
}

#[test]
fn load_previous_guid_mapping_reads_rendered_output() {
    let records = vec![record(
        "011002",
        "札幌市消防局",
        "http://example.jp/sapporo",
        &[("火災", "北海道札幌市白石区", "10:00")],
    )];
    let feed = generate_rss_feed(records, None, &noon(15));
    let mapping = load_previous_guid_mapping(&feed);
    let guid = mapping.get("北海道札幌市白石区-火災");
    assert_eq!(guid.map(|g| g.as_str()), Some("202501151000-011002"));
    assert!(mapping.get("北海道札幌市白石区-救助").is_none());
}

#[test]
fn load_previous_guid_mapping_of_garbage_is_empty() {
    let mapping = load_previous_guid_mapping("<html>\nnothing here\n</html>\n");
    assert!(mapping.get("x-y").is_none());
}

#[test]
fn three_way_collision_counts_upward() {
    let records = vec![record(
        "011002",
        "札幌市消防局",
        "http://example.jp/sapporo",
        &[("救助", "北区", "09:15"), ("火災", "南区", "09:15"), ("救急", "東区", "09:15")],
    )];
    let feed = generate_rss_feed(records, None, &noon(15));
    assert!(feed.contains("<guid isPermaLink=\"false\">202501150915-011002</guid>"));
    assert!(feed.contains("<guid isPermaLink=\"false\">202501150915-011002-01</guid>"));
    assert!(feed.contains("<guid isPermaLink=\"false\">202501150915-011002-02</guid>"));
}

#[test]
fn recovery_tolerates_indented_prior_lines() {
    let prior = [
        "  <item>",
        "\t<title>火災（どこかの消防局）</title>",
        "  <description>青森県八戸市</description>",
        "  <guid isPermaLink=\"false\">prior-token</guid>",
        "  </item>",
        "",
    ]
        .join("\n");
    let mapping = load_previous_guid_mapping(&prior);
    assert_eq!(mapping.get("青森県八戸市-火災").map(|g| g.as_str()), Some("prior-token"));
}

#[test]
fn recovery_skips_incomplete_items() {
    let prior = [
        "<item>",
        "<title>火災（どこかの消防局）</title>",
        "<guid isPermaLink=\"false\">token-a</guid>",
        "</item>",
        "<item>",
        "<title>救助（どこかの消防局）</title>",
        "<description>岩手県盛岡市</description>",
        "<guid isPermaLink=\"false\">token-b</guid>",
        "</item>",
        "",
    ]
        .join("\n");
    let mapping = load_previous_guid_mapping(&prior);
    // the first item has no description line, so it contributes nothing
    assert!(mapping.get("-火災").is_none());
    assert_eq!(mapping.get("岩手県盛岡市-救助").map(|g| g.as_str()), Some("token-b"));
}
