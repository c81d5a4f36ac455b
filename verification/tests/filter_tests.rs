use rust_tree::filter::{exclusion_verdict, FilterConfig};

#[test]
fn test_filter_config_default() {
    let config = FilterConfig::default();
    assert!(!config.exclude_hidden);
    assert!(config.exclude_patterns.is_empty());
    assert!(config.include_pattern.is_none());
}

#[test]
fn test_add_exclude_pattern() {
    let mut config = FilterConfig::new();
    assert!(config.add_exclude("*.log").is_ok());
    assert_eq!(config.exclude_patterns.len(), 1);
}

#[test]
fn test_set_include_pattern() {
    let mut config = FilterConfig::new();
    assert!(config.set_include("*.rs").is_ok());
    assert!(config.include_pattern.is_some());
}

#[test]
fn test_should_exclude_hidden() {
    let config = FilterConfig {
        exclude_hidden: true,
        ..Default::default()
    };
    assert!(config.should_exclude(".git"));
    assert!(config.should_exclude(".hidden"));
    assert!(!config.should_exclude("visible"));
}

#[test]
fn test_should_exclude_pattern() {
    let mut config = FilterConfig::new();
    config.add_exclude("*.log").unwrap();
    assert!(config.should_exclude("test.log"));
    assert!(!config.should_exclude("test.txt"));
}

#[test]
fn test_include_only_pattern() {
    let mut config = FilterConfig::new();
    config.set_include("*.rs").unwrap();
    assert!(!config.should_exclude("main.rs"));
    assert!(config.should_exclude("main.py"));
}

#[test]
fn test_invalid_pattern_is_refused() {
    let mut config = FilterConfig::new();
    let refused = config.add_exclude("[");
    assert!(refused.is_err());
    assert!(refused.unwrap_err().contains("Pattern syntax error"));
    assert!(config.exclude_patterns.is_empty());
    assert!(config.set_include("a**b").is_err());
    assert!(config.include_pattern.is_none());
    assert!(!config.should_exclude("anything"));
}

#[test]
fn test_exclude_matches_path_or_base_name() {
    let mut config = FilterConfig::new();
    config.add_exclude("target").unwrap();
    assert!(config.should_exclude("target"));
    assert!(config.should_exclude("project/target"));
    assert!(!config.should_exclude("project/targets"));
    let mut by_path = FilterConfig::new();
    by_path.add_exclude("project/*").unwrap();
    assert!(by_path.should_exclude("project/main.rs"));
    assert!(!by_path.should_exclude("other/main.rs"));
}

#[test]
fn test_include_matches_path_or_base_name() {
    let mut config = FilterConfig::new();
    config.set_include("src/*").unwrap();
    assert!(!config.should_exclude("src/main.rs"));
    assert!(config.should_exclude("docs/main.rs"));
    let mut by_name = FilterConfig::new();
    by_name.set_include("*.rs").unwrap();
    assert!(!by_name.should_exclude("deep/down/main.rs"));
    assert!(by_name.should_exclude("deep/down/main.py"));
}

#[test]
fn test_hidden_rule_uses_base_name() {
    let config = FilterConfig {
        exclude_hidden: true,
        ..Default::default()
    };
    assert!(config.should_exclude("project/.git"));
    assert!(!config.should_exclude(".config/visible"));
    let shown = FilterConfig::new();
    assert!(!shown.should_exclude(".git"));
}

#[test]
fn test_rules_are_tried_in_order() {
    let mut config = FilterConfig::new();
    config.exclude_hidden = true;
    config.add_exclude("*.log").unwrap();
    config.set_include("*.rs").unwrap();
    assert!(config.should_exclude(".hidden.rs"));
    assert!(config.should_exclude("build.log"));
    assert!(config.should_exclude("notes.txt"));
    assert!(!config.should_exclude("main.rs"));
}

#[test]
fn test_pattern_texts() {
    let mut config = FilterConfig::new();
    assert!(config.exclude_texts().is_empty());
    assert_eq!(config.include_text(), None);
    config.add_exclude("*.log").unwrap();
    config.add_exclude("target").unwrap();
    config.set_include("src/**").unwrap();
    assert_eq!(config.exclude_texts(), vec!["*.log", "target"]);
    assert_eq!(config.include_text(), Some("src/**".to_string()));
}

#[test]
fn test_exclusion_verdict() {
    assert!(exclusion_verdict(true, false, None));
    assert!(exclusion_verdict(false, true, Some(true)));
    assert!(exclusion_verdict(false, false, Some(false)));
    assert!(!exclusion_verdict(false, false, Some(true)));
    assert!(!exclusion_verdict(false, false, None));
}
