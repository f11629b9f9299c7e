use coursemap::config::Config;

#[test]
fn test_default_config() {
    let config = Config::default();
    assert_eq!(config.root_key, "course-map");
    assert!(config.phase.contains_key("Pre"));
    assert!(config.phase.contains_key("InClass"));
    assert!(config.phase.contains_key("Post"));
    assert!(config.phase.contains_key("Unknown"));
}

#[test]
fn test_phase_color() {
    let config = Config::default();
    assert_eq!(config.get_phase_color("Pre"), "lightblue");
    assert_eq!(config.get_phase_color("NonExistent"), "lightgray");
}

#[test]
fn test_should_ignore() {
    let config = Config::default();
    assert!(config.should_ignore("some/path/index.qmd"));
    assert!(!config.should_ignore("some/path/intro.qmd"));
}

#[test]
fn test_anchored_rule_matches_any_suffix() {
    let config = Config::new(
        "m".to_string(),
        Vec::new(),
        vec!["/index.qmd".to_string()],
    );
    assert!(config.should_ignore("index.qmd"));
    assert!(config.should_ignore("deep/nested/dir/index.qmd"));
    assert!(!config.should_ignore("deep/nested/dir/notes.qmd"));
}

#[test]
fn test_substring_rule_matches_anywhere() {
    let config = Config::new("m".to_string(), Vec::new(), vec!["draft".to_string()]);
    assert!(config.should_ignore("courses/draft-intro.qmd"));
    assert!(config.should_ignore("drafts/a.qmd"));
    assert!(config.should_ignore("a/b/mydraft.md"));
    assert!(!config.should_ignore("courses/final.qmd"));
}

#[test]
fn test_new_config_lookup_and_order() {
    let config = Config::new(
        "test-map".to_string(),
        vec![
            ("Test".to_string(), "red".to_string()),
            ("Other".to_string(), "blue".to_string()),
        ],
        vec!["test.qmd".to_string()],
    );
    assert_eq!(config.root_key, "test-map");
    assert_eq!(config.get_phase_color("Test"), "red");
    assert_eq!(config.get_phase_color("Other"), "blue");
    // no "Unknown" entry in this table: the hardcoded fallback applies
    assert_eq!(config.get_phase_color("Missing"), "lightgray");
    assert!(config.should_ignore("test.qmd"));
    assert_eq!(config.get_phases(), vec!["Test".to_string(), "Other".to_string()]);
}

#[test]
fn test_duplicate_phase_updates_in_place() {
    let config = Config::new(
        "m".to_string(),
        vec![
            ("A".to_string(), "red".to_string()),
            ("B".to_string(), "green".to_string()),
            ("A".to_string(), "yellow".to_string()),
        ],
        Vec::new(),
    );
    assert_eq!(config.get_phase_color("A"), "yellow");
    assert_eq!(config.get_phases(), vec!["A".to_string(), "B".to_string()]);
}
