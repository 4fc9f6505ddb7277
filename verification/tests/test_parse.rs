use peeprs::json::{parse_json, JsonValue};
use peeprs::models::EventFile;
use peeprs::parse::{
    classify_file_type, compact_preview, epoch_millis_to_iso, extract_event_agent, extract_event_preview,
    extract_event_session, extract_event_timestamp, extract_event_type, extract_hook_infos, extract_is_api_error,
    extract_is_tool_error, extract_model, extract_token_usage, extract_tool_uses, extract_turn_duration,
    looks_like_day, normalize_epoch_millis, now_iso, parse_event_line, parse_timestamp_value,
};

fn json(text: &str) -> JsonValue {
    parse_json(text).unwrap()
}

fn event_file(session: &str) -> EventFile {
    EventFile {
        day: "2025-01-01".to_string(),
        session: session.to_string(),
        channel: "api".to_string(),
        file_type: "json".to_string(),
        path: "/tmp/fake".to_string(),
    }
}

// --- extract_token_usage ---

#[test]
fn test_extract_token_usage_present() {
    let val = json(
        r#"{"message": {"usage": {"input_tokens": 100, "output_tokens": 50,
            "cache_read_input_tokens": 200, "cache_creation_input_tokens": 30}}}"#,
    );
    let tu = extract_token_usage(&val).unwrap();
    assert_eq!(tu.input_tokens, 100);
    assert_eq!(tu.output_tokens, 50);
    assert_eq!(tu.cache_read_input_tokens, 200);
    assert_eq!(tu.cache_creation_input_tokens, 30);
}

#[test]
fn test_extract_token_usage_missing() {
    let val = json(r#"{"message": {"content": "hi"}}"#);
    assert!(extract_token_usage(&val).is_none());
}

#[test]
fn test_extract_token_usage_partial() {
    let val = json(r#"{"message": {"usage": {"input_tokens": 100, "output_tokens": 50}}}"#);
    let tu = extract_token_usage(&val).unwrap();
    assert_eq!(tu.input_tokens, 100);
    assert_eq!(tu.cache_read_input_tokens, 0);
}

// --- extract_model ---

#[test]
fn test_extract_model_present() {
    let val = json(r#"{"message": {"model": "opus-3-20240229"}}"#);
    assert_eq!(extract_model(&val).unwrap(), "opus-3-20240229");
}

#[test]
fn test_extract_model_missing() {
    let val = json(r#"{"message": {"content": "hi"}}"#);
    assert!(extract_model(&val).is_none());
}

#[test]
fn test_extract_model_empty() {
    let val = json(r#"{"message": {"model": ""}}"#);
    assert!(extract_model(&val).is_none());
}

// --- extract_tool_uses ---

#[test]
fn test_extract_tool_uses_present() {
    let val = json(
        r#"{"message": {"content": [
            {"type": "text", "text": "hello"},
            {"type": "tool_use", "name": "Read", "input": {}},
            {"type": "tool_use", "name": "Write", "input": {}}
        ]}}"#,
    );
    let tools = extract_tool_uses(&val);
    assert_eq!(tools, vec!["Read", "Write"]);
}

#[test]
fn test_extract_tool_uses_none() {
    let val = json(r#"{"message": {"content": "text"}}"#);
    assert!(extract_tool_uses(&val).is_empty());
}

// --- extract_turn_duration ---

#[test]
fn test_extract_turn_duration_present() {
    let val = json(r#"{"subtype": "turn_duration", "durationMs": 5000}"#);
    assert_eq!(extract_turn_duration(&val), Some(5000));
}

#[test]
fn test_extract_turn_duration_wrong_subtype() {
    let val = json(r#"{"subtype": "other", "durationMs": 5000}"#);
    assert!(extract_turn_duration(&val).is_none());
}

#[test]
fn test_extract_turn_duration_missing_subtype() {
    let val = json(r#"{"durationMs": 5000}"#);
    assert!(extract_turn_duration(&val).is_none());
}

// --- extract_hook_infos ---

#[test]
fn test_extract_hook_infos_present() {
    let val = json(
        r#"{"subtype": "stop_hook_summary", "hookInfos": [
            {"command": "lint-hook", "durationMs": 120},
            {"command": "audit-hook", "durationMs": 45}
        ]}"#,
    );
    let infos = extract_hook_infos(&val);
    assert_eq!(infos.len(), 2);
    assert_eq!(infos[0].command, "lint-hook");
    assert_eq!(infos[0].duration_ms, 120);
    assert_eq!(infos[1].command, "audit-hook");
}

#[test]
fn test_extract_hook_infos_wrong_subtype() {
    let val = json(r#"{"subtype": "other", "hookInfos": []}"#);
    assert!(extract_hook_infos(&val).is_empty());
}

// --- extract_is_api_error ---

#[test]
fn test_extract_is_api_error_true() {
    let val = json(r#"{"isApiErrorMessage": true}"#);
    assert!(extract_is_api_error(&val));
}

#[test]
fn test_extract_is_api_error_false() {
    let val = json(r#"{"isApiErrorMessage": false}"#);
    assert!(!extract_is_api_error(&val));
}

#[test]
fn test_extract_is_api_error_missing() {
    let val = json(r#"{}"#);
    assert!(!extract_is_api_error(&val));
}

// --- extract_is_tool_error ---

#[test]
fn test_extract_is_tool_error_present() {
    let val = json(r#"{"message": {"content": [{"type": "tool_result", "is_error": true, "content": "failed"}]}}"#);
    assert!(extract_is_tool_error(&val));
}

#[test]
fn test_extract_is_tool_error_no_error() {
    let val = json(r#"{"message": {"content": [{"type": "tool_result", "is_error": false, "content": "ok"}]}}"#);
    assert!(!extract_is_tool_error(&val));
}

#[test]
fn test_extract_is_tool_error_missing() {
    let val = json(r#"{"message": {"content": "text"}}"#);
    assert!(!extract_is_tool_error(&val));
}

// --- looks_like_day ---

#[test]
fn test_looks_like_day_valid() {
    assert!(looks_like_day("2025-01-15"));
    assert!(looks_like_day("2000-12-31"));
    assert!(looks_like_day("9999-99-99"));
}

#[test]
fn test_looks_like_day_too_short() {
    assert!(!looks_like_day("2025-1-15"));
}

#[test]
fn test_looks_like_day_too_long() {
    assert!(!looks_like_day("2025-01-150"));
}

#[test]
fn test_looks_like_day_wrong_separator() {
    assert!(!looks_like_day("2025/01/15"));
}

#[test]
fn test_looks_like_day_letters() {
    assert!(!looks_like_day("abcd-ef-gh"));
}

#[test]
fn test_looks_like_day_empty() {
    assert!(!looks_like_day(""));
}

#[test]
fn test_looks_like_day_multibyte_length() {
    // ten bytes, but not ten ASCII characters
    assert!(!looks_like_day("2025-01-1é"));
    assert!(!looks_like_day("2025-0é-15"));
}

// --- classify_file_type ---

#[test]
fn test_classify_file_type_text() {
    assert_eq!(classify_file_type("text"), "text");
    assert_eq!(classify_file_type("TEXT"), "text");
    assert_eq!(classify_file_type("Text"), "text");
}

#[test]
fn test_classify_file_type_json() {
    assert_eq!(classify_file_type("json"), "json");
    assert_eq!(classify_file_type("api"), "json");
    assert_eq!(classify_file_type("anything"), "json");
}

// --- normalize_epoch_millis ---

#[test]
fn test_normalize_epoch_millis_already_millis() {
    assert_eq!(normalize_epoch_millis(1700000000000), 1700000000000);
}

#[test]
fn test_normalize_epoch_millis_seconds() {
    assert_eq!(normalize_epoch_millis(1700000000), 1700000000000);
}

#[test]
fn test_normalize_epoch_millis_boundary() {
    assert_eq!(normalize_epoch_millis(100_000_000_000), 100_000_000_000_000);
}

#[test]
fn test_normalize_epoch_millis_above_boundary() {
    assert_eq!(normalize_epoch_millis(100_000_000_001), 100_000_000_001);
}

#[test]
fn test_normalize_epoch_millis_saturates() {
    assert_eq!(normalize_epoch_millis(i64::MIN), i64::MIN);
    assert_eq!(normalize_epoch_millis(-10_000_000_000_000_000), i64::MIN);
    assert_eq!(normalize_epoch_millis(-5), -5000);
}

// --- epoch_millis_to_iso ---

#[test]
fn test_epoch_millis_to_iso_valid() {
    let result = epoch_millis_to_iso(1700000000000);
    assert_eq!(result, "2023-11-14T22:13:20.000Z");
}

#[test]
fn test_epoch_millis_to_iso_zero() {
    let result = epoch_millis_to_iso(0);
    assert_eq!(result, "1970-01-01T00:00:00.000Z");
}

#[test]
fn test_epoch_millis_to_iso_out_of_range() {
    assert_eq!(epoch_millis_to_iso(i64::MAX), "n/a");
}

// --- now_iso ---

#[test]
fn test_now_iso_format() {
    let result = now_iso();
    assert!(result.ends_with('Z'));
    assert!(result.contains('T'));
    assert!(result.len() >= 24);
}

// --- parse_timestamp_value ---

#[test]
fn test_parse_timestamp_value_rfc3339() {
    let val = json(r#""2023-11-14T22:13:20.000Z""#);
    let (ms, display) = parse_timestamp_value(&val).unwrap();
    assert_eq!(ms, 1700000000000);
    assert_eq!(display, "2023-11-14T22:13:20.000Z");
}

#[test]
fn test_parse_timestamp_value_rfc3339_offset_rendered_in_utc() {
    let val = json(r#""2023-11-15T00:13:20+02:00""#);
    let (ms, display) = parse_timestamp_value(&val).unwrap();
    assert_eq!(ms, 1700000000000);
    assert_eq!(display, "2023-11-14T22:13:20.000Z");
}

#[test]
fn test_parse_timestamp_value_numeric_string_seconds() {
    let val = json(r#""1700000000""#);
    let (ms, display) = parse_timestamp_value(&val).unwrap();
    assert_eq!(ms, 1700000000000);
    assert_eq!(display, "2023-11-14T22:13:20.000Z");
}

#[test]
fn test_parse_timestamp_value_integer_seconds() {
    let val = json("1700000000");
    let (ms, _display) = parse_timestamp_value(&val).unwrap();
    assert_eq!(ms, 1700000000000);
}

#[test]
fn test_parse_timestamp_value_integer_millis() {
    let val = json("1700000000000");
    let (ms, _display) = parse_timestamp_value(&val).unwrap();
    assert_eq!(ms, 1700000000000);
}

#[test]
fn test_parse_timestamp_value_garbage() {
    let val = json(r#""not-a-timestamp""#);
    assert!(parse_timestamp_value(&val).is_none());
}

#[test]
fn test_parse_timestamp_value_null() {
    let val = json("null");
    assert!(parse_timestamp_value(&val).is_none());
}

// --- extract_event_timestamp ---

#[test]
fn test_extract_event_timestamp_from_timestamp_field() {
    let val = json(r#"{"timestamp": "2023-11-14T22:13:20.000Z"}"#);
    let (ms, _) = extract_event_timestamp(&val).unwrap();
    assert_eq!(ms, 1700000000000);
}

#[test]
fn test_extract_event_timestamp_from_ingest_ts() {
    let val = json(r#"{"ingest_ts": 1700000000}"#);
    let (ms, _) = extract_event_timestamp(&val).unwrap();
    assert_eq!(ms, 1700000000000);
}

#[test]
fn test_extract_event_timestamp_missing() {
    let val = json(r#"{"other": "value"}"#);
    assert!(extract_event_timestamp(&val).is_none());
}

// --- extract_event_session ---

#[test]
fn test_extract_event_session_from_session() {
    let val = json(r#"{"session": "abc-123"}"#);
    assert_eq!(extract_event_session(&val, "fallback"), "abc-123");
}

#[test]
fn test_extract_event_session_from_session_id() {
    let val = json(r#"{"sessionId": "xyz-789"}"#);
    assert_eq!(extract_event_session(&val, "fallback"), "xyz-789");
}

#[test]
fn test_extract_event_session_unknown_uses_fallback() {
    let val = json(r#"{"session": "unknown"}"#);
    assert_eq!(extract_event_session(&val, "fallback"), "fallback");
}

#[test]
fn test_extract_event_session_empty_uses_fallback() {
    let val = json(r#"{"session": ""}"#);
    assert_eq!(extract_event_session(&val, "fallback"), "fallback");
}

#[test]
fn test_extract_event_session_missing_uses_fallback() {
    let val = json(r#"{}"#);
    assert_eq!(extract_event_session(&val, "fb"), "fb");
}

// --- extract_event_type ---

#[test]
fn test_extract_event_type_present() {
    let val = json(r#"{"type": "tool_use"}"#);
    assert_eq!(extract_event_type(&val, "fallback"), "tool_use");
}

#[test]
fn test_extract_event_type_empty_uses_fallback() {
    let val = json(r#"{"type": ""}"#);
    assert_eq!(extract_event_type(&val, "api"), "api");
}

#[test]
fn test_extract_event_type_missing_uses_fallback() {
    let val = json(r#"{}"#);
    assert_eq!(extract_event_type(&val, "api"), "api");
}

// --- extract_event_preview ---

#[test]
fn test_extract_event_preview_display() {
    let val = json(r#"{"display": "Hello world"}"#);
    assert_eq!(extract_event_preview(&val), "Hello world");
}

#[test]
fn test_extract_event_preview_message_string() {
    let val = json(r#"{"message": "A message"}"#);
    assert_eq!(extract_event_preview(&val), "A message");
}

#[test]
fn test_extract_event_preview_message_content_string() {
    let val = json(r#"{"message": {"content": "Nested content"}}"#);
    assert_eq!(extract_event_preview(&val), "Nested content");
}

#[test]
fn test_extract_event_preview_message_content_array() {
    let val = json(r#"{"message": {"content": [{"text": "Array text"}]}}"#);
    assert_eq!(extract_event_preview(&val), "Array text");
}

#[test]
fn test_extract_event_preview_text_field() {
    let val = json(r#"{"text": "Fallback text"}"#);
    assert_eq!(extract_event_preview(&val), "Fallback text");
}

#[test]
fn test_extract_event_preview_none() {
    let val = json(r#"{"other": "data"}"#);
    assert_eq!(extract_event_preview(&val), "(event)");
}

// --- extract_event_agent ---

#[test]
fn test_extract_event_agent_present() {
    let val = json(r#"{"agent": "gemini"}"#);
    assert_eq!(extract_event_agent(&val), "gemini");
}

#[test]
fn test_extract_event_agent_empty_falls_back() {
    let val = json(r#"{"agent": ""}"#);
    assert_eq!(extract_event_agent(&val), "unknown");
}

#[test]
fn test_extract_event_agent_missing_falls_back() {
    let val = json(r#"{"other": "value"}"#);
    assert_eq!(extract_event_agent(&val), "unknown");
}

// --- compact_preview ---

#[test]
fn test_compact_preview_short() {
    assert_eq!(compact_preview("hello world", 50), "hello world");
}

#[test]
fn test_compact_preview_whitespace_collapse() {
    assert_eq!(compact_preview("hello   \n  world", 50), "hello world");
}

#[test]
fn test_compact_preview_empty() {
    assert_eq!(compact_preview("", 50), "(event)");
}

#[test]
fn test_compact_preview_only_whitespace() {
    assert_eq!(compact_preview("   \n\t  ", 50), "(event)");
}

#[test]
fn test_compact_preview_truncation() {
    let long = "a".repeat(200);
    let result = compact_preview(&long, 20);
    assert!(result.ends_with("..."));
    assert_eq!(result.len(), 20);
}

#[test]
fn test_compact_preview_exact_fit_and_tiny_limits() {
    assert_eq!(compact_preview("abcde", 5), "abcde");
    assert_eq!(compact_preview("abcdef", 5), "ab...");
    assert_eq!(compact_preview("abcdef", 2), "...");
    assert_eq!(compact_preview("  a  b  ", 3), "a b");
}

#[test]
fn test_compact_preview_law_single_spaced_and_bounded() {
    for (text, max) in [("  x\t\ty  z ", 4usize), ("one two three four", 9), ("\n\n", 1), ("a", 0)] {
        let p = compact_preview(text, max);
        assert!(!p.starts_with(' ') && !p.ends_with(' '));
        assert!(!p.contains("  "));
        if p != "(event)" {
            assert!(p.chars().count() <= max.max(3));
        }
    }
}

// --- parse_event_line ---

#[test]
fn test_parse_event_line_valid_json() {
    let ef = event_file("fallback-sess");
    let text = r#"{"session":"s1","type":"tool_use","display":"hello","timestamp":"2023-11-14T22:13:20.000Z","agent":"sonnet"}"#;
    let parsed = parse_event_line(text, &ef).unwrap();
    assert_eq!(parsed.session, "s1");
    assert_eq!(parsed.agent, "sonnet");
    assert_eq!(parsed.event_type, "tool_use");
    assert_eq!(parsed.preview, "hello");
    assert_eq!(parsed.timestamp_ms, Some(1700000000000));
}

#[test]
fn test_parse_event_line_invalid_json() {
    let ef = event_file("fallback");
    assert!(parse_event_line("not json", &ef).is_none());
}

#[test]
fn test_parse_event_line_no_timestamp() {
    let ef = event_file("fallback");
    let text = r#"{"session":"s1","type":"tool_use","display":"hello"}"#;
    let parsed = parse_event_line(text, &ef).unwrap();
    assert_eq!(parsed.agent, "unknown");
    assert!(parsed.timestamp_ms.is_none());
    assert!(parsed.timestamp_display.is_none());
}

#[test]
fn test_parse_event_line_falls_back_to_file_session_and_channel() {
    let ef = event_file("file-sess");
    let parsed = parse_event_line(r#"{"display":"x"}"#, &ef).unwrap();
    assert_eq!(parsed.session, "file-sess");
    assert_eq!(parsed.event_type, "api");
}

// --- parse_json ---

#[test]
fn test_parse_json_values() {
    assert!(parse_json("not json").is_none());
    assert!(parse_json("{\"a\": 1} trailing").is_none());
    match parse_json(r#"{"a": [1, 2.5, 18446744073709551615, "x", true, null]}"#).unwrap() {
        JsonValue::Object(members) => {
            assert_eq!(members.len(), 1);
            assert_eq!(members[0].0, "a");
            match &members[0].1 {
                JsonValue::Array(items) => {
                    assert!(matches!(items[0], JsonValue::Int(1)));
                    assert!(matches!(items[1], JsonValue::OtherNumber));
                    assert!(matches!(items[2], JsonValue::OtherNumber));
                    assert!(matches!(&items[3], JsonValue::Str(t) if t == "x"));
                    assert!(matches!(items[4], JsonValue::Bool(true)));
                    assert!(matches!(items[5], JsonValue::Null));
                }
                _ => panic!("not an array"),
            }
        }
        _ => panic!("not an object"),
    }
}

#[test]
fn test_compact_preview_law_idempotent() {
    for (text, max) in [("  hello \u{2003} world\u{3000}", 8usize), ("abcdefghij klm", 9), ("", 7), ("a  b", 50)] {
        let once = compact_preview(text, max);
        assert_eq!(compact_preview(&once, max), once);
    }
    assert_eq!(compact_preview("a\u{a0}\u{85}b", 10), "a b");
    assert_eq!(compact_preview("ab", 10), "ab");
}
