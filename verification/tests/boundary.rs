use anonymask::boundary;
use anonymask::{AnonymaskError, Anonymizer, AnonymizerConfig, Entity, EntityType, PlaceholderFormat};

#[test]
fn errors_are_put_in_words() {
    let invalid = AnonymaskError::InvalidEntityType {
        entity_type: "Custom(\"x\")".to_string(),
        reason: "no pattern".to_string(),
    };
    assert_eq!(invalid.message(), "Invalid entity type 'Custom(\"x\")': no pattern");
    let missing = AnonymaskError::MappingNotFound {
        placeholder: "EMAIL_1".to_string(),
        position: 42,
    };
    assert_eq!(
        missing.message(),
        "Mapping not found for placeholder 'EMAIL_1' at position 42"
    );
    let source = regex::Regex::new("a(").unwrap_err();
    let said = source.to_string();
    let pattern = AnonymaskError::RegexError { pattern: "a(".to_string(), source };
    assert_eq!(pattern.message(), format!("Regex error for pattern 'a(': {}", said));
    assert_ne!(said, "");
    assert_eq!(
        AnonymaskError::StorageError("disk".to_string()).message(),
        "Storage error: disk"
    );
    assert_eq!(
        AnonymaskError::AnonymizationError("why".to_string()).message(),
        "Anonymization failed: why"
    );
}

#[test]
fn a_refused_kind_is_put_in_words() {
    let error = match Anonymizer::new(vec![EntityType::Custom("name".to_string())]) {
        Err(error) => error,
        Ok(_) => panic!("a custom kind was taken"),
    };
    assert_eq!(
        error.message(),
        "Invalid entity type 'Custom(\"name\")': Custom entity types don't use regex patterns"
    );
}

#[test]
fn a_host_names_the_format() {
    let mut record = boundary::AnonymizerConfig::default();
    assert!(record.case_sensitive);
    assert!(!record.word_boundary_check);
    assert_eq!(record.placeholder_format, "standard");
    assert_eq!(record.max_entities, 0);
    assert_eq!(record.to_core().placeholder_format, PlaceholderFormat::Standard);

    record.placeholder_format = "short".to_string();
    record.case_sensitive = false;
    record.word_boundary_check = true;
    record.max_entities = 9;
    let config: AnonymizerConfig = record.to_core();
    assert_eq!(config.placeholder_format, PlaceholderFormat::Short);
    assert!(!config.case_sensitive);
    assert!(config.word_boundary_check);
    assert_eq!(config.max_entities, 9);

    record.placeholder_format = "Short".to_string();
    assert_eq!(
        record.to_core().placeholder_format,
        PlaceholderFormat::Custom("Short".to_string())
    );
    record.placeholder_format = "<{type}>".to_string();
    assert_eq!(
        record.to_core().placeholder_format,
        PlaceholderFormat::Custom("<{type}>".to_string())
    );
}

#[test]
fn a_host_sees_kinds_by_name_and_offsets_in_32_bits() {
    assert_eq!(boundary::kind_name(&EntityType::Email), "email");
    assert_eq!(boundary::kind_name(&EntityType::Phone), "phone");
    assert_eq!(boundary::kind_name(&EntityType::Ssn), "ssn");
    assert_eq!(boundary::kind_name(&EntityType::CreditCard), "creditcard");
    assert_eq!(boundary::kind_name(&EntityType::IpAddress), "ipaddress");
    assert_eq!(boundary::kind_name(&EntityType::Url), "url");
    assert_eq!(boundary::kind_name(&EntityType::Custom("Name".to_string())), "Name");

    let entity = Entity {
        entity_type: EntityType::CreditCard,
        value: "1234".to_string(),
        start: 7,
        end: 11,
    };
    let record = boundary::Entity::from_core(&entity);
    assert_eq!(record.entity_type, "creditcard");
    assert_eq!(record.value, "1234");
    assert_eq!((record.start, record.end), (7, 11));
}

#[test]
fn an_outcome_crosses_with_its_entities_in_place() {
    let config = AnonymizerConfig::builder()
        .with_placeholder_format(PlaceholderFormat::Short)
        .build();
    let mut anonymizer = Anonymizer::with_config(vec![EntityType::Email], config).unwrap();
    let custom = vec![(EntityType::Custom("city".to_string()), vec!["Oslo".to_string()])];
    let outcome = anonymizer
        .anonymize_with_custom("a@b.org in Oslo", Some(&custom))
        .unwrap();
    let record = boundary::AnonymizationResult::from_core(outcome);
    assert_eq!(record.anonymized_text, "EMAIL_1 in CITY_2");
    assert_eq!(record.mapping.len(), 2);
    assert_eq!(record.entities.len(), 2);
    assert_eq!(record.entities[0].entity_type, "email");
    assert_eq!(record.entities[1].entity_type, "city");
    assert_eq!((record.entities[1].start, record.entities[1].end), (11, 15));
}

#[test]
fn a_format_is_named_in_small_letters_or_is_a_template() {
    assert_eq!(boundary::format_named("standard"), PlaceholderFormat::Standard);
    assert_eq!(boundary::format_named("short"), PlaceholderFormat::Short);
    assert_eq!(
        boundary::format_named("STANDARD"),
        PlaceholderFormat::Custom("STANDARD".to_string())
    );
    assert_eq!(boundary::format_named(""), PlaceholderFormat::Custom(String::new()));
}
