use std::io::Write;

use peeprs::lines::{event_file_lines, has_gz_extension, split_lines, LineError};
use peeprs::models::{EventFile, FileScanStats, RecentEvent, RecentEventAccum};
use peeprs::scan::{channel_event_file, insert_recent_event, scan_event_lines, scan_event_lines_checked, session_event_file};
use peeprs::budget::{build_summary_checked, within_budget_of};
use peeprs::summary::{build_summary, summarize, FileTime, ScannedFile};

fn joined(lines: &[&str]) -> String {
    lines.iter().map(|l| format!("{l}\n")).collect()
}

fn log_lines(data: &str) -> Vec<String> {
    split_lines(&data.as_bytes().to_vec()).unwrap()
}

fn make_event_file(session: &str, channel: &str) -> EventFile {
    EventFile {
        day: "2025-01-01".to_string(),
        session: session.to_string(),
        channel: channel.to_string(),
        file_type: "json".to_string(),
        path: "/tmp/fake".to_string(),
    }
}

fn recent(ms: i64, ts: &str) -> RecentEventAccum {
    RecentEventAccum {
        sort_key_ms: ms,
        event: RecentEvent {
            timestamp: ts.to_string(),
            session: "s".to_string(),
            agent: "unknown".to_string(),
            event_type: "t".to_string(),
            preview: "p".to_string(),
        },
    }
}

fn session_events(stats: &FileScanStats, name: &str) -> u64 {
    stats.session_stats.get(name).unwrap().events
}

fn scanned(day: &str, session: &str, channel: &str, data: &str, mtime: Option<FileTime>) -> ScannedFile {
    let ef = channel_event_file(day, session, channel, &format!("/logs/{day}/{session}/{channel}/events.jsonl"));
    let mut pool = Vec::new();
    let stats = scan_event_lines(&log_lines(data), &ef, &mut pool);
    let mut stats = stats;
    stats.recent_events = pool;
    ScannedFile { event_file: ef, size_bytes: data.len() as u64, mtime, stats }
}

// --- scan_event_lines ---

#[test]
fn test_scan_event_lines_empty() {
    let ef = make_event_file("sess", "api");
    let mut pool = Vec::new();
    let stats = scan_event_lines(&log_lines(""), &ef, &mut pool);
    assert_eq!(stats.event_count, 0);
    assert!(stats.session_stats.is_empty());
}

#[test]
fn test_scan_event_lines_valid_json() {
    let data = r#"{"session":"s1","type":"tool_use","display":"hi","timestamp":"2023-11-14T22:13:20.000Z"}
{"session":"s1","type":"tool_use","display":"bye","timestamp":"2023-11-14T22:14:20.000Z"}
"#;
    let ef = make_event_file("fallback", "api");
    let mut pool = Vec::new();
    let stats = scan_event_lines(&log_lines(data), &ef, &mut pool);
    assert_eq!(stats.event_count, 2);
    assert_eq!(session_events(&stats, "s1"), 2);
    assert_eq!(pool.len(), 2);
}

#[test]
fn test_scan_event_lines_invalid_json_uses_fallback() {
    let ef = make_event_file("fallback-sess", "api");
    let mut pool = Vec::new();
    let stats = scan_event_lines(&log_lines("not json\n"), &ef, &mut pool);
    assert_eq!(stats.event_count, 1);
    assert_eq!(session_events(&stats, "fallback-sess"), 1);
}

#[test]
fn test_scan_event_lines_mixed() {
    let data = "not json\n{\"session\":\"s1\",\"display\":\"ok\"}\n";
    let ef = make_event_file("fallback", "api");
    let mut pool = Vec::new();
    let stats = scan_event_lines(&log_lines(data), &ef, &mut pool);
    assert_eq!(stats.event_count, 2);
    assert_eq!(session_events(&stats, "fallback"), 1);
    assert_eq!(session_events(&stats, "s1"), 1);
}

#[test]
fn test_scan_event_lines_session_details() {
    let data = joined(&[
        r#"{"session":"s1","agent":"unknown","timestamp":"2023-11-14T22:13:20.000Z"}"#,
        r#"{"session":"s1","agent":"codex","timestamp":1700000100}"#,
        r#"{"session":"s1","agent":"gemini","timestamp":"2023-11-14T21:00:00.000Z"}"#,
    ]);
    let ef = make_event_file("fallback", "api");
    let mut pool = Vec::new();
    let stats = scan_event_lines(&log_lines(&data), &ef, &mut pool);
    let s1 = stats.session_stats.get("s1").unwrap();
    assert_eq!(s1.events, 3);
    assert_eq!(s1.agent.as_deref(), Some("codex"));
    assert_eq!(s1.last_seen_ms, Some(1700000100000));
    // 22:13:20 and 22:15:00 fall in hour 22, 21:00:00 in hour 21
    assert_eq!(s1.hourly_events[22], 2);
    assert_eq!(s1.hourly_events[21], 1);
    let line_bytes: usize = data.lines().map(|l| l.len()).sum();
    assert_eq!(s1.bytes, line_bytes as u64);
}

#[test]
fn test_scan_event_lines_counts_tools_hooks_tokens_errors() {
    let data = joined(&[
        r#"{"session":"s","message":{"model":"m1","usage":{"input_tokens":10,"output_tokens":5},"content":[{"type":"tool_use","name":"Read"},{"type":"tool_use","name":"Read"},{"type":"tool_result","is_error":true}]}}"#,
        r#"{"session":"s","subtype":"turn_duration","durationMs":42000,"isApiErrorMessage":true,"message":{"model":"m1","usage":{"input_tokens":1,"cache_read_input_tokens":7}}}"#,
        r#"{"session":"s","subtype":"stop_hook_summary","hookInfos":[{"command":"lint","durationMs":30},{"command":"lint","durationMs":12}]}"#,
    ]);
    let ef = make_event_file("f", "api");
    let mut pool = Vec::new();
    let stats = scan_event_lines(&log_lines(&data), &ef, &mut pool);
    assert_eq!(stats.token_usage.input_tokens, 11);
    assert_eq!(stats.token_usage.output_tokens, 5);
    assert_eq!(stats.token_usage.cache_read_input_tokens, 7);
    assert_eq!(*stats.tool_counts.get("Read").unwrap(), 2);
    assert_eq!(*stats.model_counts.get("m1").unwrap(), 2);
    assert_eq!(stats.turn_durations, vec![42000]);
    let lint = stats.hook_stats.get("lint").unwrap();
    assert_eq!(lint.count, 2);
    assert_eq!(lint.total_ms, 42);
    assert_eq!(stats.api_error_count, 1);
    assert_eq!(stats.tool_error_count, 1);
    assert!(pool.is_empty());
}

#[test]
fn test_scan_law_sessions_add_up_to_lines() {
    let data = "x\n{\"session\":\"a\"}\n{\"session\":\"b\"}\n{\"session\":\"a\"}\ny\n";
    let ef = make_event_file("file", "api");
    let mut pool = Vec::new();
    let stats = scan_event_lines(&log_lines(data), &ef, &mut pool);
    let total: u64 = stats.session_stats.entries.iter().map(|(_, s)| s.events).sum();
    let bytes: u64 = stats.session_stats.entries.iter().map(|(_, s)| s.bytes).sum();
    assert_eq!(total, stats.event_count);
    assert_eq!(bytes, data.lines().map(|l| l.len() as u64).sum::<u64>());
}

#[test]
fn test_scan_event_lines_checked_scans_when_sums_fit() {
    let data = joined(&[
        r#"{"session":"s","timestamp":"2023-11-14T10:00:00.000Z","display":"hi","message":{"usage":{"input_tokens":10}}}"#,
        "not json",
    ]);
    let ef = make_event_file("f", "api");
    let mut pool = Vec::new();
    let stats = scan_event_lines_checked(&log_lines(&data), &ef, &mut pool).unwrap();
    let mut pool2 = Vec::new();
    let plain = scan_event_lines(&log_lines(&data), &ef, &mut pool2);
    assert_eq!(stats.event_count, 2);
    assert_eq!(stats.token_usage.input_tokens, 10);
    assert_eq!(session_events(&stats, "s"), 1);
    assert_eq!(session_events(&stats, "f"), 1);
    assert_eq!(stats.event_count, plain.event_count);
    assert_eq!(pool.len(), 1);
    assert_eq!(pool2.len(), 1);
}

#[test]
fn test_scan_event_lines_checked_refuses_token_overflow() {
    let data = joined(&[
        r#"{"session":"s","message":{"usage":{"input_tokens":9223372036854775807}}}"#,
        r#"{"session":"s","timestamp":"2023-11-14T10:00:00.000Z","message":{"usage":{"input_tokens":1}}}"#,
    ]);
    let ef = make_event_file("f", "api");
    let mut pool = vec![recent(5, "five")];
    assert!(scan_event_lines_checked(&log_lines(&data), &ef, &mut pool).is_none());
    assert_eq!(pool.len(), 1);
    assert_eq!(pool[0].sort_key_ms, 5);
}

#[test]
fn test_scan_event_lines_checked_refuses_hook_time_overflow() {
    let data = joined(&[
        r#"{"session":"s","subtype":"stop_hook_summary","hookInfos":[{"command":"lint","durationMs":9223372036854775807},{"command":"fmt","durationMs":5}]}"#,
        r#"{"session":"s","subtype":"stop_hook_summary","hookInfos":[{"command":"lint","durationMs":1}]}"#,
    ]);
    let ef = make_event_file("f", "api");
    let mut pool = Vec::new();
    assert!(scan_event_lines_checked(&log_lines(&data), &ef, &mut pool).is_none());
    // the same times under different commands fit
    let other = joined(&[
        r#"{"session":"s","subtype":"stop_hook_summary","hookInfos":[{"command":"lint","durationMs":9223372036854775807},{"command":"fmt","durationMs":5}]}"#,
        r#"{"session":"s","subtype":"stop_hook_summary","hookInfos":[{"command":"fmt","durationMs":1}]}"#,
    ]);
    let stats = scan_event_lines_checked(&log_lines(&other), &ef, &mut pool).unwrap();
    assert_eq!(stats.hook_stats.get("fmt").unwrap().total_ms, 6);
    assert_eq!(stats.hook_stats.get("lint").unwrap().total_ms, i64::MAX);
}

// --- insert_recent_event ---

#[test]
fn test_insert_recent_event_keeps_top_5() {
    let mut pool = Vec::new();
    for i in 0..10 {
        insert_recent_event(&mut pool, recent(i, &format!("ts-{i}")));
    }
    assert_eq!(pool.len(), 5);
    assert_eq!(pool[0].sort_key_ms, 9);
    assert_eq!(pool[4].sort_key_ms, 5);
}

#[test]
fn test_insert_recent_event_sorted_descending() {
    let mut pool = Vec::new();
    for ms in [3, 1, 4, 1, 5] {
        insert_recent_event(&mut pool, recent(ms, ""));
    }
    let keys: Vec<i64> = pool.iter().map(|e| e.sort_key_ms).collect();
    assert_eq!(keys, vec![5, 4, 3, 1, 1]);
}

#[test]
fn test_insert_recent_event_equal_keys_keep_arrival_order() {
    let mut pool = Vec::new();
    for (ms, ts) in [(2, "a"), (2, "b"), (9, "c"), (2, "d")] {
        insert_recent_event(&mut pool, recent(ms, ts));
    }
    let order: Vec<&str> = pool.iter().map(|e| e.event.timestamp.as_str()).collect();
    assert_eq!(order, vec!["c", "a", "b", "d"]);
}

#[test]
fn test_insert_recent_event_law_drops_only_older() {
    let mut pool = Vec::new();
    let keys = [7, 3, 11, 3, 20, 1, 15, 8];
    for (i, ms) in keys.iter().enumerate() {
        insert_recent_event(&mut pool, recent(*ms, &i.to_string()));
    }
    let kept: Vec<i64> = pool.iter().map(|e| e.sort_key_ms).collect();
    assert_eq!(kept, vec![20, 15, 11, 8, 7]);
}

// --- event files ---

#[test]
fn test_session_event_file_is_json() {
    let ef = session_event_file("2025-01-15", "sess-abc", "/r/2025-01-15/sess-abc/events.jsonl");
    assert_eq!(ef.day, "2025-01-15");
    assert_eq!(ef.session, "sess-abc");
    assert_eq!(ef.channel, "");
    assert_eq!(ef.file_type, "json");
}

#[test]
fn test_channel_event_file_types() {
    let ef = channel_event_file("2025-01-15", "sess-abc", "api", "/p");
    assert_eq!(ef.channel, "api");
    assert_eq!(ef.file_type, "json");
    let ef = channel_event_file("2025-01-15", "sess-abc", "text", "/p");
    assert_eq!(ef.file_type, "text");
}

// --- lines ---

#[test]
fn test_split_lines_like_buf_read() {
    let lines = split_lines(&b"a\r\nb\n\nc\r".to_vec()).unwrap();
    assert_eq!(lines, vec!["a", "b", "", "c\r"]);
    assert!(split_lines(&Vec::new()).unwrap().is_empty());
    assert_eq!(split_lines(&b"\n".to_vec()).unwrap(), vec![""]);
}

#[test]
fn test_split_lines_rejects_bad_utf8() {
    assert!(split_lines(&vec![b'o', b'k', b'\n', 0xff, b'\n']).is_none());
    assert!(split_lines(&vec![b'o', b'k', b'\n', 0xc3]).is_none());
}

#[test]
fn test_gz_extension() {
    assert!(has_gz_extension("/logs/d/s/events.jsonl.gz"));
    assert!(!has_gz_extension("/logs/d/s/events.jsonl"));
    assert!(!has_gz_extension("/logs/d/s/.gz"));
    assert!(!has_gz_extension("/logs/x.gz/events"));
    assert!(has_gz_extension("a.gz"));
}

#[test]
fn test_event_file_lines_plain_and_gzip() {
    let text = "{\"a\":1}\nsecond\n";
    let plain = event_file_lines("/x/events.jsonl", &text.as_bytes().to_vec()).unwrap();
    assert_eq!(plain, vec!["{\"a\":1}", "second"]);

    let mut enc = flate2::write::GzEncoder::new(Vec::new(), flate2::Compression::default());
    enc.write_all(text.as_bytes()).unwrap();
    let gz = enc.finish().unwrap();
    let decoded = event_file_lines("/x/events.jsonl.gz", &gz).unwrap();
    assert_eq!(decoded, vec!["{\"a\":1}", "second"]);
    // the same bytes under a plain name are read as they are
    assert!(event_file_lines("/x/events.jsonl", &gz).is_err());
}

#[test]
fn test_event_file_lines_bad_gzip() {
    let r = event_file_lines("/x/events.jsonl.gz", &b"not gzip at all".to_vec());
    assert_eq!(r, Err(LineError::Gzip));
    let r = event_file_lines("/x/events.jsonl", &vec![0xff]);
    assert_eq!(r, Err(LineError::Utf8));
}

// --- summary ---

#[test]
fn test_build_summary_empty_dir() {
    let summary = build_summary("/tmp/empty".to_string(), &Vec::new());
    assert_eq!(summary.totals.files, 0);
    assert_eq!(summary.totals.events, 0);
    assert!(summary.days.is_empty());
    assert!(summary.top_sessions.is_empty());
    assert!(summary.totals.newest_file_mtime.is_none());
    assert!(summary.generated_at.ends_with('Z'));
}

#[test]
fn test_build_summary_with_events() {
    let line = r#"{"session":"sess-1","type":"tool_use","display":"hi","timestamp":"2023-11-14T22:13:20.000Z"}"#;
    let files = vec![scanned("2025-01-15", "sess-1", "api", &format!("{line}\n"), None)];
    let summary = build_summary("/logs".to_string(), &files);
    assert_eq!(summary.totals.files, 1);
    assert_eq!(summary.totals.events, 1);
    assert_eq!(summary.totals.days, 1);
    assert_eq!(summary.totals.sessions, 1);
    assert_eq!(summary.days.len(), 1);
    assert_eq!(summary.days[0].day, "2025-01-15");
    assert_eq!(summary.recent_events.len(), 1);
    assert_eq!(summary.recent_events[0].preview, "hi");
}

#[test]
fn test_build_summary_with_agent_field() {
    let line = r#"{"session":"sess-1","type":"tool_use","display":"hi","timestamp":"2023-11-14T22:13:20.000Z","agent":"gemini"}"#;
    let files = vec![scanned("2025-01-15", "sess-1", "api", &format!("{line}\n"), None)];
    let summary = build_summary("/logs".to_string(), &files);
    assert_eq!(summary.agents.len(), 1);
    assert!(summary.agents.contains_key("gemini"));
    let gemini = summary.agents.get("gemini").unwrap();
    assert_eq!(gemini.events, 1);
    assert_eq!(gemini.sessions, 1);
    assert_eq!(gemini.files, 1);
    assert_eq!(summary.top_sessions[0].agent, "gemini");
}

#[test]
fn test_build_summary_without_agent_defaults_unknown() {
    let line = r#"{"session":"sess-1","type":"tool_use","display":"hi","timestamp":"2023-11-14T22:13:20.000Z"}"#;
    let files = vec![scanned("2025-01-15", "sess-1", "api", &format!("{line}\n"), None)];
    let summary = build_summary("/logs".to_string(), &files);
    assert_eq!(summary.agents.len(), 1);
    assert!(summary.agents.contains_key("unknown"));
    assert_eq!(summary.top_sessions[0].agent, "unknown");
}

fn multi_day_files() -> Vec<ScannedFile> {
    let a = joined(&[
        r#"{"session":"s1","agent":"sonnet","timestamp":"2023-11-14T10:00:00.000Z","display":"one","message":{"usage":{"input_tokens":3,"cache_read_input_tokens":6,"cache_creation_input_tokens":2},"content":[{"type":"tool_use","name":"Bash"}]}}"#,
        r#"{"session":"s2","timestamp":"2023-11-14T11:00:00.000Z","display":"two","subtype":"turn_duration","durationMs":45000}"#,
    ]);
    let b = joined(&[
        r#"{"session":"s1","timestamp":"2023-11-15T09:30:00.000Z","display":"three","isApiErrorMessage":true}"#,
        r#"{"session":"s1","timestamp":"2023-11-15T09:40:00.000Z","display":"four","subtype":"stop_hook_summary","hookInfos":[{"command":"fmt","durationMs":9}]}"#,
        "garbage line",
    ]);
    vec![
        scanned("2023-11-14", "s1", "api", &a, Some(FileTime { millis: 1_700_000_000_000, iso: "2023-11-14T22:13:20Z".to_string() })),
        scanned("2023-11-15", "s9", "text", &b, Some(FileTime { millis: 1_700_100_000_000, iso: "2023-11-16T02:00:00Z".to_string() })),
    ]
}

#[test]
fn test_summarize_full_picture() {
    let files = multi_day_files();
    let s = summarize("/root".to_string(), "2024-01-01T00:00:00.000Z".to_string(), &files);
    assert_eq!(s.root, "/root");
    assert_eq!(s.generated_at, "2024-01-01T00:00:00.000Z");
    assert_eq!(s.totals.files, 2);
    assert_eq!(s.totals.events, 5);
    assert_eq!(s.totals.days, 2);
    assert_eq!(s.totals.sessions, 3);
    assert_eq!(s.totals.newest_file_mtime.as_deref(), Some("2023-11-16T02:00:00Z"));
    // newest day first
    assert_eq!(s.days[0].day, "2023-11-15");
    assert_eq!(s.days[0].events, 3);
    assert_eq!(s.days[1].day, "2023-11-14");
    assert_eq!(s.days[1].sessions, 2);
    assert_eq!(s.token_usage.daily[1].input_tokens, 3);
    assert_eq!(s.token_usage.total_cache_read, 6);
    assert_eq!(s.cache_efficiency.total_cache_read, 6);
    assert_eq!(s.cache_efficiency.total_cache_creation, 2);
    // sessions: s1 has 3 events over both days, most first
    assert_eq!(s.top_sessions[0].session, "s1");
    assert_eq!(s.top_sessions[0].events, 3);
    assert_eq!(s.top_sessions[0].days, 2);
    assert_eq!(s.top_sessions[0].agent, "sonnet");
    assert_eq!(s.top_sessions[0].last_seen, "2023-11-15T09:40:00.000Z");
    // the garbage line counts under the file's session, which has no timestamp
    let s9 = s.top_sessions.iter().find(|r| r.session == "s9").unwrap();
    assert_eq!(s9.events, 1);
    assert_eq!(s9.last_seen, "2023-11-16T02:00:00.000Z");
    assert_eq!(s.tool_usage.len(), 1);
    assert_eq!(s.tool_usage[0].tool, "Bash");
    assert_eq!(s.turn_durations.count, 1);
    assert_eq!(s.turn_durations.buckets[1].count, 1);
    assert_eq!(s.hook_performance[0].command, "fmt");
    assert_eq!(s.hook_performance[0].avg_ms, 9);
    assert_eq!(s.error_rate.api_errors, 1);
    assert_eq!(s.error_rate.total_events, 5);
    assert_eq!(s.types.json.files, 1);
    assert_eq!(s.types.text.files, 1);
    assert_eq!(s.recent_events[0].preview, "four");
    assert_eq!(s.recent_events.len(), 4);
    let s1_timeline = s.session_timeline.iter().find(|r| r.session == "s1").unwrap();
    assert_eq!(s1_timeline.hours.len(), 24);
    assert_eq!(s1_timeline.hours[10], 1);
    assert_eq!(s1_timeline.hours[9], 2);
}

#[test]
fn test_summary_laws_types_and_days_split_totals() {
    let files = multi_day_files();
    let s = summarize("/r".to_string(), "t".to_string(), &files);
    assert_eq!(s.types.json.events + s.types.text.events, s.totals.events);
    assert_eq!(s.types.json.bytes + s.types.text.bytes, s.totals.bytes);
    let day_events: u64 = s.days.iter().map(|d| d.events).sum();
    let day_files: u64 = s.days.iter().map(|d| d.files).sum();
    let day_bytes: u64 = s.days.iter().map(|d| d.bytes).sum();
    assert_eq!(day_events, s.totals.events);
    assert_eq!(day_files, s.totals.files);
    assert_eq!(day_bytes, s.totals.bytes);
    assert_eq!(s.days.len() as u64, s.totals.days);
}

#[test]
fn test_summary_law_agents_split_sessions() {
    let files = multi_day_files();
    let s = summarize("/r".to_string(), "t".to_string(), &files);
    let counted: u64 = s.agents.entries.iter().map(|(_, a)| a.sessions).sum();
    assert_eq!(counted, s.totals.sessions);
    assert_eq!(s.agents.get("sonnet").unwrap().sessions, 1);
    assert_eq!(s.agents.get("unknown").unwrap().sessions, 2);
}

#[test]
fn test_summary_law_recent_events_are_newest_of_all_files() {
    let stamp = |h: u32| format!(r#"{{"session":"s","display":"at {h}","timestamp":"2023-11-14T{h:02}:00:00.000Z"}}"#);
    let a: Vec<String> = [3, 9, 1, 12].iter().map(|h| stamp(*h)).collect();
    let b: Vec<String> = [7, 2, 11, 5].iter().map(|h| stamp(*h)).collect();
    let a_refs: Vec<&str> = a.iter().map(|s| s.as_str()).collect();
    let b_refs: Vec<&str> = b.iter().map(|s| s.as_str()).collect();
    let files = vec![
        scanned("2023-11-14", "s", "api", &joined(&a_refs), None),
        scanned("2023-11-14", "s", "text", &joined(&b_refs), None),
    ];
    let s = summarize("/r".to_string(), "t".to_string(), &files);
    let shown: Vec<&str> = s.recent_events.iter().map(|e| e.preview.as_str()).collect();
    assert_eq!(shown, vec!["at 12", "at 11", "at 9", "at 7", "at 5"]);
}

#[test]
fn test_summary_law_determined_by_files() {
    let files = multi_day_files();
    let a = build_summary("/r".to_string(), &files);
    let b = summarize("/r".to_string(), "other".to_string(), &files);
    let days = |s: &peeprs::models::DashboardSummary| -> Vec<(String, u64)> {
        s.days.iter().map(|d| (d.day.clone(), d.events)).collect()
    };
    let sessions = |s: &peeprs::models::DashboardSummary| -> Vec<(String, u64, String)> {
        s.top_sessions.iter().map(|r| (r.session.clone(), r.events, r.last_seen.clone())).collect()
    };
    let recent = |s: &peeprs::models::DashboardSummary| -> Vec<String> {
        s.recent_events.iter().map(|e| e.preview.clone()).collect()
    };
    assert_eq!(days(&a), days(&b));
    assert_eq!(sessions(&a), sessions(&b));
    assert_eq!(recent(&a), recent(&b));
    assert_eq!(a.totals.events, b.totals.events);
    assert_ne!(a.generated_at, b.generated_at);
}

#[test]
fn test_build_summary_generated_at_form() {
    let s = build_summary("/r".to_string(), &Vec::new());
    let t: Vec<char> = s.generated_at.chars().collect();
    let n = t.len();
    assert!(n >= 24);
    assert_eq!(t[n - 1], 'Z');
    assert_eq!(t[n - 5], '.');
    assert_eq!(t[n - 14], 'T');
}

#[test]
fn test_log_line_reads_json_of_its_text() {
    let l = peeprs::scan::log_line("{\"session\":\"s\"}".to_string());
    assert_eq!(l.text, "{\"session\":\"s\"}");
    assert!(l.json.is_some());
    assert!(peeprs::scan::log_line("plain".to_string()).json.is_none());
}

// --- the bound on what a summary adds up ---

#[test]
fn test_build_summary_checked_summarizes_files_within_bound() {
    let files = multi_day_files();
    assert!(within_budget_of(&files));
    let s = build_summary_checked("/r".to_string(), &files).unwrap();
    let plain = summarize("/r".to_string(), "t".to_string(), &files);
    assert_eq!(s.totals.events, plain.totals.events);
    assert_eq!(s.totals.bytes, plain.totals.bytes);
    assert_eq!(s.days.len(), plain.days.len());
    assert_eq!(s.top_sessions[0].session, plain.top_sessions[0].session);
}

#[test]
fn test_build_summary_checked_refuses_huge_sizes() {
    let mut files = multi_day_files();
    files[0].size_bytes = u64::MAX / 2;
    files[1].size_bytes = u64::MAX / 2;
    assert!(!within_budget_of(&files));
    assert!(build_summary_checked("/r".to_string(), &files).is_none());
}

#[test]
fn test_build_summary_checked_refuses_huge_token_counts() {
    let mut files = multi_day_files();
    files[0].stats.token_usage.input_tokens = i64::MAX;
    files[1].stats.token_usage.output_tokens = 1;
    assert!(!within_budget_of(&files));
    // with room left for the other magnitudes, the same files keep to the bound
    files[1].stats.token_usage.output_tokens = 0;
    files[1].stats.token_usage.input_tokens = 0;
    files[0].stats.token_usage.cache_read_input_tokens = 0;
    files[0].stats.token_usage.cache_creation_input_tokens = 0;
    files[0].stats.token_usage.input_tokens = i64::MAX - 100_000;
    assert!(within_budget_of(&files));
}

#[test]
fn test_build_summary_checked_refuses_repeated_names() {
    let mut files = multi_day_files();
    let first = files[0].stats.tool_counts.entries[0].clone();
    files[0].stats.tool_counts.entries.push(first);
    assert!(!files[0].stats.tool_counts.is_wf());
    assert!(build_summary_checked("/r".to_string(), &files).is_none());
}
