use anonymask::{AnonymizerConfig, PlaceholderFormat};

#[test]
fn test_default_config() {
    let config = AnonymizerConfig::default();
    assert!(config.case_sensitive);
    assert!(!config.word_boundary_check);
    assert_eq!(config.placeholder_format, PlaceholderFormat::Standard);
    assert_eq!(config.max_entities, 0);
}

#[test]
fn test_builder_pattern() {
    let config = AnonymizerConfig::builder()
        .with_case_sensitivity(false)
        .with_word_boundary_check(true)
        .with_placeholder_format(PlaceholderFormat::Short)
        .with_max_entities(100)
        .build();

    assert!(!config.case_sensitive);
    assert!(config.word_boundary_check);
    assert_eq!(config.placeholder_format, PlaceholderFormat::Short);
    assert_eq!(config.max_entities, 100);
}

#[test]
fn test_builder_partial() {
    let config = AnonymizerConfig::builder()
        .with_case_sensitivity(false)
        .build();

    assert!(!config.case_sensitive);
    assert!(!config.word_boundary_check);
    assert_eq!(config.placeholder_format, PlaceholderFormat::Standard);
}

#[test]
fn test_custom_placeholder_format() {
    let format = PlaceholderFormat::Custom("[{type}:{counter}]".to_string());
    let config = AnonymizerConfig::builder()
        .with_placeholder_format(format.clone())
        .build();

    assert_eq!(config.placeholder_format, format);
}
