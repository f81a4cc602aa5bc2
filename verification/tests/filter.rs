use axon_core::filter::ContentFilter;
use std::collections::HashMap;

#[test]
fn test_content_filter_create() {
    let filter = ContentFilter::new("test", "x > 5", HashMap::new());
    assert!(!filter.is_empty());
    assert_eq!(filter.name, "test");
    assert_eq!(filter.expression, "x > 5");
}

#[test]
fn test_content_filter_with_params() {
    let mut params = HashMap::new();
    params.insert("threshold".to_string(), "10".to_string());
    let filter = ContentFilter::new("param_test", "x > :threshold", params);
    assert_eq!(filter.parameters.get("threshold"), Some(&"10".to_string()));
}

#[test]
fn test_content_filter_empty() {
    let filter = ContentFilter::new("empty", "", HashMap::new());
    assert!(filter.is_empty());
}
