use peeprs::durations::build_turn_duration_summary;
use peeprs::refresh::{next_summary_step, refresh_interval_ms, summary_is_fresh, summary_ttl_seconds, SummaryStep};

#[test]
fn test_refresh_interval_at_least_a_second() {
    assert_eq!(refresh_interval_ms(10), 10_000);
    assert_eq!(refresh_interval_ms(0), 1_000);
    assert_eq!(refresh_interval_ms(1), 1_000);
}

#[test]
fn test_summary_ttl_at_least_a_second() {
    assert_eq!(summary_ttl_seconds(5), 5);
    assert_eq!(summary_ttl_seconds(0), 1);
}

#[test]
fn test_summary_freshness() {
    assert!(summary_is_fresh(Some(0), 1));
    assert!(summary_is_fresh(Some(4), 5));
    assert!(!summary_is_fresh(Some(5), 5));
    assert!(!summary_is_fresh(None, 5));
}

#[test]
fn test_next_summary_step() {
    assert_eq!(next_summary_step(Some(1), 5, true), SummaryStep::ServeCached);
    assert_eq!(next_summary_step(Some(1), 5, false), SummaryStep::Rebuild);
    assert_eq!(next_summary_step(Some(9), 5, true), SummaryStep::Rebuild);
    assert_eq!(next_summary_step(None, 5, true), SummaryStep::Rebuild);
    // a summary kept right now is served again in the same second, whatever the setting
    assert_eq!(next_summary_step(Some(0), summary_ttl_seconds(0), true), SummaryStep::ServeCached);
}

#[test]
fn test_turn_duration_summary_empty() {
    let s = build_turn_duration_summary(&[]);
    assert!(s.buckets.is_empty());
    assert_eq!((s.min_ms, s.max_ms, s.avg_ms, s.count), (0, 0, 0, 0));
}

#[test]
fn test_turn_duration_summary_buckets() {
    let d = [1_000, 29_999, 30_000, 61_000, 119_999, 120_000, 299_999, 300_000, 9_000_000, -5];
    let s = build_turn_duration_summary(&d);
    let labels: Vec<&str> = s.buckets.iter().map(|b| b.label.as_str()).collect();
    assert_eq!(labels, vec!["0-30s", "30-60s", "1-2m", "2-5m", "5m+"]);
    let counts: Vec<u64> = s.buckets.iter().map(|b| b.count).collect();
    assert_eq!(counts, vec![2, 1, 2, 2, 2]);
    assert_eq!(s.min_ms, -5);
    assert_eq!(s.max_ms, 9_000_000);
    assert_eq!(s.count, 10);
    let sum: i64 = d.iter().sum();
    assert_eq!(s.avg_ms, sum / 10);
    assert!(s.min_ms <= s.avg_ms && s.avg_ms <= s.max_ms);
}

#[test]
fn test_turn_duration_mean_rounds_toward_zero() {
    let s = build_turn_duration_summary(&[-3, -4]);
    assert_eq!(s.avg_ms, -3);
    let s = build_turn_duration_summary(&[3, 4]);
    assert_eq!(s.avg_ms, 3);
}
