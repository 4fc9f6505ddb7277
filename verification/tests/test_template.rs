use peeprs::template::render_html;

#[test]
fn test_render_html_placeholder_replaced() {
    let html = render_html(5000);
    assert!(!html.contains("REFRESH_MS_PLACEHOLDER"));
    assert!(html.contains("const REFRESH_MS = 5000;"));
    assert!(html.contains("Agent Logs Dashboard"));
}

#[test]
fn test_render_html_doctype_present() {
    let html = render_html(10000);
    assert!(html.starts_with("<!doctype html>"));
}

#[test]
fn test_render_html_api_endpoint_referenced() {
    let html = render_html(10000);
    assert!(html.contains("/api/summary"));
}

#[test]
fn test_render_html_numbers() {
    assert!(render_html(0).contains("const REFRESH_MS = 0;"));
    assert!(render_html(u64::MAX).contains("const REFRESH_MS = 18446744073709551615;"));
}

#[test]
fn test_render_html_law_different_intervals_differ() {
    assert_ne!(render_html(1000), render_html(10000));
    assert_ne!(render_html(7), render_html(70));
}
