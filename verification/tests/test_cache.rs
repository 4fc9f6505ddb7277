use peeprs::cache::{cache_rows, stale_paths, stats_from_cache, CachedFile, CountCacheRow, HourlyCacheRow, SessionCacheRow};
use peeprs::lines::split_lines;
use peeprs::models::{EventFile, FileScanStats};
use peeprs::scan::{scan_event_lines};

fn joined(lines: &[&str]) -> String {
    lines.iter().map(|l| format!("{l}\n")).collect()
}

fn scan(data: &str) -> FileScanStats {
    let lines: Vec<String> = split_lines(&data.as_bytes().to_vec()).unwrap();
    let ef = EventFile {
        day: "2025-01-01".to_string(),
        session: "file-sess".to_string(),
        channel: "api".to_string(),
        file_type: "json".to_string(),
        path: "/tmp/f".to_string(),
    };
    let mut pool = Vec::new();
    let mut stats = scan_event_lines(&lines, &ef, &mut pool);
    stats.recent_events = pool;
    stats
}

fn sample() -> FileScanStats {
    scan(&joined(&[
        r#"{"session":"a","agent":"sonnet","timestamp":"2023-11-14T22:13:20.000Z","display":"x","message":{"model":"m","usage":{"input_tokens":4},"content":[{"type":"tool_use","name":"Edit"}]}}"#,
        r#"{"session":"b","timestamp":1700003600,"subtype":"turn_duration","durationMs":1234,"isApiErrorMessage":true}"#,
        r#"{"session":"a","subtype":"stop_hook_summary","hookInfos":[{"command":"h","durationMs":-3}]}"#,
        "plain text",
    ]))
}

fn assert_same(a: &FileScanStats, b: &FileScanStats) {
    assert_eq!(a.event_count, b.event_count);
    assert_eq!(a.session_stats.len(), b.session_stats.len());
    for (name, s) in &a.session_stats.entries {
        let t = b.session_stats.get(name).unwrap();
        assert_eq!(s.events, t.events);
        assert_eq!(s.bytes, t.bytes);
        assert_eq!(s.last_seen_ms, t.last_seen_ms);
        assert_eq!(s.agent, t.agent);
        assert_eq!(s.hourly_events, t.hourly_events);
    }
    assert_eq!(a.recent_events.len(), b.recent_events.len());
    for (x, y) in a.recent_events.iter().zip(b.recent_events.iter()) {
        assert_eq!(x.sort_key_ms, y.sort_key_ms);
        assert_eq!(x.event.timestamp, y.event.timestamp);
        assert_eq!(x.event.preview, y.event.preview);
    }
    assert_eq!(a.token_usage.input_tokens, b.token_usage.input_tokens);
    assert_eq!(a.turn_durations, b.turn_durations);
    assert_eq!(a.api_error_count, b.api_error_count);
    assert_eq!(a.tool_error_count, b.tool_error_count);
    assert_eq!(a.tool_counts.len(), b.tool_counts.len());
    for (name, n) in &a.tool_counts.entries {
        assert_eq!(b.tool_counts.get(name), Some(n));
    }
    for (name, n) in &a.model_counts.entries {
        assert_eq!(b.model_counts.get(name), Some(n));
    }
    for (name, h) in &a.hook_stats.entries {
        let g = b.hook_stats.get(name).unwrap();
        assert_eq!((h.count, h.total_ms), (g.count, g.total_ms));
    }
}

#[test]
fn test_cache_rows_of_sample() {
    let stats = sample();
    let rows = cache_rows(&stats);
    assert_eq!(rows.event_count, 4);
    assert_eq!(rows.sessions.len(), 3);
    assert_eq!(rows.tools.len(), 1);
    assert_eq!(rows.tools[0].name, "Edit");
    assert_eq!(rows.durations, vec![1234]);
    let tokens = rows.tokens.as_ref().unwrap();
    assert_eq!(tokens.input_tokens, 4);
    assert_eq!(tokens.api_error_count, 1);
    // only hours with events get a row: a at 22h, b at 23h
    assert_eq!(rows.hourly.len(), 2);
    assert!(rows.hourly.iter().all(|r| r.count > 0));
}

#[test]
fn test_cache_round_trip_law() {
    let stats = sample();
    let back = stats_from_cache(&cache_rows(&stats));
    assert_same(&stats, &back);
}

#[test]
fn test_cache_round_trip_large_counts() {
    let mut stats = sample();
    stats.event_count = u64::MAX;
    stats.api_error_count = 1 << 63;
    let rows = cache_rows(&stats);
    assert_eq!(rows.event_count, -1);
    let back = stats_from_cache(&rows);
    assert_eq!(back.event_count, u64::MAX);
    assert_eq!(back.api_error_count, 1 << 63);
}

#[test]
fn test_stats_from_cache_missing_token_row_and_stray_hours() {
    let rows = CachedFile {
        event_count: 2,
        sessions: vec![
            SessionCacheRow { session_id: "s".to_string(), events: 1, bytes: 5, last_seen_ms: None, agent: None },
            SessionCacheRow { session_id: "s".to_string(), events: 2, bytes: 9, last_seen_ms: Some(7), agent: Some("g".to_string()) },
        ],
        recent: vec![],
        tokens: None,
        tools: vec![CountCacheRow { name: "t".to_string(), count: 1 }, CountCacheRow { name: "t".to_string(), count: 4 }],
        durations: vec![],
        hooks: vec![],
        models: vec![],
        hourly: vec![
            HourlyCacheRow { session_id: "s".to_string(), hour: 3, count: 6 },
            HourlyCacheRow { session_id: "s".to_string(), hour: 24, count: 1 },
            HourlyCacheRow { session_id: "s".to_string(), hour: -1, count: 1 },
            HourlyCacheRow { session_id: "other".to_string(), hour: 2, count: 1 },
        ],
    };
    let stats = stats_from_cache(&rows);
    assert_eq!(stats.token_usage.input_tokens, 0);
    assert_eq!(stats.api_error_count, 0);
    let s = stats.session_stats.get("s").unwrap();
    assert_eq!(stats.session_stats.len(), 1);
    assert_eq!((s.events, s.bytes, s.last_seen_ms), (2, 9, Some(7)));
    assert_eq!(s.agent.as_deref(), Some("g"));
    assert_eq!(s.hourly_events[3], 6);
    assert_eq!(s.hourly_events.iter().sum::<u64>(), 6);
    assert!(stats.session_stats.get("other").is_none());
    assert_eq!(stats.tool_counts.get("t"), Some(&4));
}

#[test]
fn test_stale_paths() {
    let cached = vec!["/a".to_string(), "/b".to_string(), "/c".to_string(), "/b".to_string()];
    let valid = vec!["/c".to_string(), "/z".to_string()];
    assert_eq!(stale_paths(&cached, &valid), vec!["/a", "/b", "/b"]);
    assert!(stale_paths(&cached, &cached).is_empty());
    assert!(stale_paths(&Vec::new(), &valid).is_empty());
}
