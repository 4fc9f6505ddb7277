use peeprs::models::{
    CacheEfficiency, ErrorRate, ParsedEventLine, TokenUsage, TokenUsageSummary, Totals, TurnDurationSummary,
    TypeBuckets,
};

fn parsed(agent: &str, timestamp_ms: Option<i64>, timestamp_display: Option<&str>) -> ParsedEventLine {
    ParsedEventLine {
        session: "sess-1".to_string(),
        agent: agent.to_string(),
        event_type: "tool_use".to_string(),
        preview: "hello".to_string(),
        timestamp_ms,
        timestamp_display: timestamp_display.map(|s| s.to_string()),
        token_usage: None,
        model: None,
        tool_uses: vec![],
        turn_duration_ms: None,
        hook_infos: vec![],
        is_api_error: false,
        is_tool_error: false,
    }
}

#[test]
fn test_totals_default() {
    let totals = Totals::default();
    assert_eq!(totals.days, 0);
    assert_eq!(totals.sessions, 0);
    assert_eq!(totals.files, 0);
    assert_eq!(totals.events, 0);
    assert_eq!(totals.bytes, 0);
    assert!(totals.newest_file_mtime.is_none());
}

#[test]
fn test_summary_parts_default_empty() {
    let types = TypeBuckets::default();
    assert_eq!(types.json.files + types.text.files, 0);
    let tokens = TokenUsageSummary::default();
    assert!(tokens.daily.is_empty());
    assert_eq!(tokens.total_input, 0);
    let durations = TurnDurationSummary::default();
    assert!(durations.buckets.is_empty());
    assert_eq!(durations.count, 0);
    let cache = CacheEfficiency::default();
    assert_eq!(cache.total_cache_read, 0);
    let errors = ErrorRate::default();
    assert_eq!(errors.total_events, 0);
}

#[test]
fn test_parsed_event_line_to_recent_event_some() {
    let p = parsed("sonnet", Some(1700000000000), Some("2023-11-14T22:13:20.000Z"));
    let result = p.to_recent_event();
    assert!(result.is_some());
    let accum = result.unwrap();
    assert_eq!(accum.sort_key_ms, 1700000000000);
    assert_eq!(accum.event.session, "sess-1");
    assert_eq!(accum.event.agent, "sonnet");
    assert_eq!(accum.event.event_type, "tool_use");
    assert_eq!(accum.event.timestamp, "2023-11-14T22:13:20.000Z");
}

#[test]
fn test_parsed_event_line_to_recent_event_none() {
    let p = parsed("unknown", None, None);
    assert!(p.to_recent_event().is_none());
    let p = parsed("unknown", Some(5), None);
    assert!(p.to_recent_event().is_none());
}

#[test]
fn test_token_usage_add_assign() {
    let mut t = TokenUsage::default();
    t.add_assign(TokenUsage { input_tokens: 1, output_tokens: 2, cache_read_input_tokens: 3, cache_creation_input_tokens: 4 });
    t.add_assign(TokenUsage { input_tokens: 10, output_tokens: 20, cache_read_input_tokens: 30, cache_creation_input_tokens: 40 });
    assert_eq!(t.input_tokens, 11);
    assert_eq!(t.output_tokens, 22);
    assert_eq!(t.cache_read_input_tokens, 33);
    assert_eq!(t.cache_creation_input_tokens, 44);
}
