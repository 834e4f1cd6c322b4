use projecta::scraper::{
    CircuitBreaker, CircuitState, FetchResult, FetchSummary, ResourceManager, RetryConfig, ScraperError,
};
use std::time::Duration;

#[test]
fn test_retryable_errors() {
    assert!(ScraperError::NetworkError("x".to_string()).is_retryable());
    assert!(ScraperError::TimeoutError(5).is_retryable());
    assert!(ScraperError::HttpError { status: 503, url: "u".to_string() }.is_retryable());
    assert!(!ScraperError::HttpError { status: 404, url: "u".to_string() }.is_retryable());
    assert!(!ScraperError::CircuitBreakerOpen.is_retryable());
    assert_eq!(
        ScraperError::HttpError { status: 404, url: "http://x".to_string() }.to_text(),
        "HTTP 404 error for http://x"
    );
    assert_eq!(ScraperError::TimeoutError(250).to_text(), "Request timed out after 250ms");
}

#[test]
fn test_backoff_doubles_and_caps() {
    let c = RetryConfig::default();
    assert_eq!(c.capped_backoff_ms(0), 1000);
    assert_eq!(c.capped_backoff_ms(1), 2000);
    assert_eq!(c.capped_backoff_ms(4), 16000);
    assert_eq!(c.capped_backoff_ms(5), 30000);
    assert_eq!(c.capped_backoff_ms(70), 30000);
}

#[test]
fn test_circuit_breaker_opens_and_recovers() {
    let mut cb = CircuitBreaker::new(2, Duration::from_millis(0));
    assert_eq!(cb.state(), CircuitState::Closed);
    cb.on_failure();
    assert_eq!(cb.state(), CircuitState::Closed);
    cb.on_failure();
    assert!(matches!(cb.state(), CircuitState::Open { .. }));
    assert!(!cb.decide_attempt(false));
    assert!(cb.decide_attempt(true));
    assert_eq!(cb.state(), CircuitState::HalfOpen);
    cb.on_success();
    assert_eq!(cb.state(), CircuitState::Closed);
}

#[test]
fn test_summary_and_resources() {
    let results = vec![
        FetchResult { url: "a".to_string(), result: Ok("body".to_string()), duration_ms: 10, attempt_count: 1 },
        FetchResult {
            url: "b".to_string(),
            result: Err(ScraperError::TimeoutError(5)),
            duration_ms: 21,
            attempt_count: 3,
        },
    ];
    assert_eq!(results[0].content(), Some("body"));
    assert_eq!(results[1].content(), None);
    let s = FetchSummary::from_results(&results);
    assert_eq!((s.total, s.success, s.failed, s.total_duration_ms, s.avg_duration_ms), (2, 1, 1, 31, 15));
    let mut m = ResourceManager::new(100);
    m.start_request();
    m.end_request(60);
    assert!(m.can_proceed());
    m.end_request(60);
    assert!(!m.can_proceed());
}
