use anonymask::anonymizer::{build_mapping, sort_longest_first, substitute};
use anonymask::detection::EntityDetector;
use anonymask::error::describe_kind;
use anonymask::placeholder::{format_placeholder, kind_label};
use anonymask::resolver::resolve;
use anonymask::text::{
    bytes_contain, bytes_match_at, chars_match_at, chars_of, decimal_string,
    equals_ignoring_ascii_case, replace_all, same_text, string_of,
};
use anonymask::{
    AnonymaskError, Anonymizer, AnonymizerConfig, Entity, EntityType, PlaceholderFormat,
};

fn short() -> AnonymizerConfig {
    AnonymizerConfig::builder()
        .with_placeholder_format(PlaceholderFormat::Short)
        .build()
}

fn template(text: &str) -> AnonymizerConfig {
    AnonymizerConfig::builder()
        .with_placeholder_format(PlaceholderFormat::Custom(text.to_string()))
        .build()
}

fn pair(a: &str, b: &str) -> (String, String) {
    (a.to_string(), b.to_string())
}

fn replace(text: &str, from: &str, to: &str) -> String {
    string_of(&replace_all(&chars_of(text), &chars_of(from), &chars_of(to)))
}

fn entity(kind: EntityType, value: &str, start: usize, end: usize) -> Entity {
    Entity { entity_type: kind, value: value.to_string(), start, end }
}

fn is_token(text: &str) -> bool {
    text.len() == 32 && text.chars().all(|c| c.is_ascii_digit() || ('a'..='f').contains(&c))
}

#[test]
fn empty_text_gives_an_empty_outcome() {
    let mut anonymizer =
        Anonymizer::new(vec![EntityType::Email, EntityType::Phone, EntityType::Url]).unwrap();
    let result = anonymizer.anonymize("").unwrap();
    assert_eq!(result.anonymized_text, "");
    assert!(result.mapping.is_empty());
    assert!(result.entities.is_empty());
}

#[test]
fn one_email_is_found_at_its_offsets() {
    let mut anonymizer = Anonymizer::new(vec![EntityType::Email]).unwrap();
    let result = anonymizer.anonymize("Contact john@x.com").unwrap();
    assert_eq!(result.entities.len(), 1);
    assert_eq!(result.entities[0].entity_type, EntityType::Email);
    assert_eq!(result.entities[0].value, "john@x.com");
    assert_eq!(result.entities[0].start, 8);
    assert_eq!(result.entities[0].end, 18);
    assert!(result.anonymized_text.starts_with("Contact EMAIL_"));
    assert!(is_token(&result.anonymized_text["Contact EMAIL_".len()..]));
    assert_eq!(result.mapping.len(), 1);
    assert_eq!(result.mapping[0].1, "john@x.com");
    assert_eq!(result.anonymized_text, format!("Contact {}", result.mapping[0].0));
}

#[test]
fn an_octet_above_255_is_no_address() {
    let mut anonymizer = Anonymizer::new(vec![EntityType::IpAddress]).unwrap();
    let result = anonymizer.anonymize("Invalid IP: 999.1.1.1").unwrap();
    assert_eq!(result.entities.len(), 0);
    assert_eq!(result.anonymized_text, "Invalid IP: 999.1.1.1");
    let found = anonymizer.anonymize("Server IP is 192.168.1.1").unwrap();
    assert_eq!(found.entities.len(), 1);
    assert_eq!(found.entities[0].value, "192.168.1.1");
}

#[test]
fn of_two_finds_with_one_start_the_first_put_forward_stays() {
    let mut anonymizer = Anonymizer::new(vec![EntityType::Email]).unwrap();
    let custom = vec![(EntityType::Custom("name".to_string()), vec!["john".to_string()])];
    let result = anonymizer
        .anonymize_with_custom("john@x.com wrote", Some(&custom))
        .unwrap();
    assert_eq!(result.entities.len(), 1);
    assert_eq!(result.entities[0].entity_type, EntityType::Email);
    assert_eq!(result.entities[0].start, 0);
    assert_eq!(result.entities[0].end, 10);
}

#[test]
fn the_earlier_start_wins_over_the_longer_find() {
    let detector = EntityDetector::new(&[]).unwrap();
    let custom = vec![(
        EntityType::Custom("word".to_string()),
        vec!["bcdefgh".to_string(), "abc".to_string()],
    )];
    let found = detector.detect("abcdefgh", Some(&custom));
    assert_eq!(found.len(), 1);
    assert_eq!(found[0].value, "abc");
    assert_eq!((found[0].start, found[0].end), (0, 3));
}

#[test]
fn resolve_sorts_by_start_and_drops_what_overlaps() {
    let kind = EntityType::Custom("k".to_string());
    let candidates = vec![
        entity(kind.clone(), "c", 10, 12),
        entity(kind.clone(), "a", 0, 5),
        entity(kind.clone(), "b", 4, 8),
        entity(kind.clone(), "d", 5, 10),
        entity(kind.clone(), "e", 0, 2),
    ];
    let accepted = resolve(candidates);
    let values: Vec<&str> = accepted.iter().map(|e| e.value.as_str()).collect();
    assert_eq!(values, vec!["a", "d", "c"]);
    for i in 1..accepted.len() {
        assert!(accepted[i - 1].end <= accepted[i].start);
    }
}

#[test]
fn a_repeated_literal_is_found_at_every_offset() {
    let detector = EntityDetector::new(&[]).unwrap();
    let custom = vec![(EntityType::Custom("w".to_string()), vec!["aa".to_string()])];
    let found = detector.detect("aaaa", Some(&custom));
    let spans: Vec<(usize, usize)> = found.iter().map(|e| (e.start, e.end)).collect();
    assert_eq!(spans, vec![(0, 2), (2, 4)]);
}

#[test]
fn a_literal_of_several_bytes_is_found_by_byte_offset() {
    let detector = EntityDetector::new(&[]).unwrap();
    let custom = vec![(EntityType::Custom("w".to_string()), vec!["é".to_string()])];
    let found = detector.detect("xéé", Some(&custom));
    let spans: Vec<(usize, usize)> = found.iter().map(|e| (e.start, e.end)).collect();
    assert_eq!(spans, vec![(1, 3), (3, 5)]);
    assert_eq!(found[0].value, "é");
}

#[test]
fn the_empty_literal_is_found_nowhere() {
    let detector = EntityDetector::new(&[]).unwrap();
    let custom = vec![(EntityType::Custom("w".to_string()), vec![String::new()])];
    assert!(detector.detect("abc", Some(&custom)).is_empty());
}

#[test]
fn a_literal_is_found_inside_a_word_and_only_in_its_own_case() {
    let config = AnonymizerConfig::builder()
        .with_case_sensitivity(false)
        .with_word_boundary_check(true)
        .build();
    let mut anonymizer = Anonymizer::with_config(vec![], config).unwrap();
    let custom = vec![(EntityType::Custom("name".to_string()), vec!["John".to_string()])];
    let result = anonymizer
        .anonymize_with_custom("Johnson met john", Some(&custom))
        .unwrap();
    assert_eq!(result.entities.len(), 1);
    assert_eq!((result.entities[0].start, result.entities[0].end), (0, 4));
}

#[test]
fn entities_lie_in_the_text_and_apart() {
    let text = "Mail a@b.org, b@c.net or https://c.net/x?y=1, call (555) 123-4567 – déjà";
    let mut anonymizer =
        Anonymizer::new(vec![EntityType::Email, EntityType::Phone, EntityType::Url]).unwrap();
    let result = anonymizer.anonymize(text).unwrap();
    assert_eq!(result.entities.len(), 4);
    let mut last_end = 0;
    for e in &result.entities {
        assert!(e.start < e.end);
        assert!(e.end <= text.len());
        assert_eq!(&text[e.start..e.end], e.value);
        assert!(last_end <= e.start);
        last_end = e.end;
    }
}

#[test]
fn a_repeated_value_gets_one_placeholder() {
    let mut anonymizer = Anonymizer::with_config(vec![EntityType::Email], short()).unwrap();
    let result = anonymizer
        .anonymize("a@b.org, c@d.org and a@b.org")
        .unwrap();
    assert_eq!(result.entities.len(), 3);
    assert_eq!(
        result.mapping,
        vec![pair("EMAIL_1", "a@b.org"), pair("EMAIL_2", "c@d.org")]
    );
    assert_eq!(result.anonymized_text, "EMAIL_1, EMAIL_2 and EMAIL_1");
    assert_eq!(result.anonymized_text.matches("EMAIL_1").count(), 2);
}

#[test]
fn no_value_of_the_mapping_stands_twice_and_none_is_left_in_the_text() {
    let text = "a@b.org 555-123-4567 c@d.org a@b.org 555-123-4567";
    let mut anonymizer = Anonymizer::new(vec![EntityType::Email, EntityType::Phone]).unwrap();
    let result = anonymizer.anonymize(text).unwrap();
    assert_eq!(result.mapping.len(), 3);
    for i in 0..result.mapping.len() {
        for j in 0..i {
            assert_ne!(result.mapping[i].0, result.mapping[j].0);
            assert_ne!(result.mapping[i].1, result.mapping[j].1);
        }
        assert!(!result.anonymized_text.contains(&result.mapping[i].1));
    }
    assert_eq!(anonymizer.deanonymize(&result.anonymized_text, &result.mapping), text);
}

#[test]
fn the_counter_runs_on_from_call_to_call() {
    let mut anonymizer = Anonymizer::with_config(vec![EntityType::Email], short()).unwrap();
    let first = anonymizer.anonymize("a@b.org").unwrap();
    let second = anonymizer.anonymize("a@b.org and c@d.org").unwrap();
    assert_eq!(first.anonymized_text, "EMAIL_1");
    assert_eq!(second.anonymized_text, "EMAIL_2 and EMAIL_3");
}

#[test]
fn the_standard_format_takes_no_number() {
    let mut anonymizer = Anonymizer::new(vec![EntityType::Email]).unwrap();
    let first = anonymizer.anonymize("a@b.org").unwrap();
    let second = anonymizer.anonymize("a@b.org").unwrap();
    assert!(first.mapping[0].0.starts_with("EMAIL_"));
    assert!(is_token(&first.mapping[0].0["EMAIL_".len()..]));
    assert_ne!(first.mapping[0].0, second.mapping[0].0);
}

#[test]
fn a_template_has_its_three_names_replaced() {
    let config = template("[{type}:{counter}]");
    let mut anonymizer = Anonymizer::with_config(vec![EntityType::Email], config).unwrap();
    let result = anonymizer.anonymize("to a@b.org and c@d.org").unwrap();
    assert_eq!(result.anonymized_text, "to [EMAIL:1] and [EMAIL:2]");
    assert_eq!(
        format_placeholder(
            &PlaceholderFormat::Custom("<{uuid}|{type}|{counter}|{type}>".to_string()),
            &EntityType::CreditCard,
            "0123",
            12
        ),
        "<0123|CREDIT_CARD|12|CREDIT_CARD>"
    );
}

#[test]
fn a_template_without_names_gives_one_entry() {
    let mut anonymizer =
        Anonymizer::with_config(vec![EntityType::Email], template("X")).unwrap();
    let result = anonymizer.anonymize("a@b.org c@d.org").unwrap();
    assert_eq!(result.anonymized_text, "X X");
    assert_eq!(result.mapping, vec![pair("X", "c@d.org")]);
}

#[test]
fn placeholders_are_written_by_format() {
    assert_eq!(
        format_placeholder(&PlaceholderFormat::Standard, &EntityType::Ssn, "abc", 7),
        "SSN_abc"
    );
    assert_eq!(
        format_placeholder(&PlaceholderFormat::Short, &EntityType::IpAddress, "abc", 7),
        "IP_ADDRESS_7"
    );
    assert_eq!(
        format_placeholder(
            &PlaceholderFormat::Short,
            &EntityType::Custom("straße".to_string()),
            "",
            10
        ),
        "STRASSE_10"
    );
    assert_eq!(kind_label(&EntityType::Url), "URL");
    assert_eq!(kind_label(&EntityType::Phone), "PHONE");
    assert_eq!(kind_label(&EntityType::Custom("name".to_string())), "NAME");
}

#[test]
fn numerals_are_decimal() {
    assert_eq!(decimal_string(0), "0");
    assert_eq!(decimal_string(7), "7");
    assert_eq!(decimal_string(10), "10");
    assert_eq!(decimal_string(12345), "12345");
    assert_eq!(decimal_string(usize::MAX), usize::MAX.to_string());
}

#[test]
fn replacing_takes_occurrences_from_the_left() {
    assert_eq!(replace("aaa", "aa", "b"), "ba");
    assert_eq!(replace("abcabc", "bc", "-"), "a-a-");
    assert_eq!(replace("abc", "abcd", "x"), "abc");
    assert_eq!(replace("abc", "", "-"), "-a-b-c-");
    assert_eq!(replace("", "", "-"), "-");
    assert_eq!(replace("", "a", "-"), "");
    assert_eq!(replace("héllo", "é", "e"), "hello");
    assert_eq!(replace("aaa", "aa", "b"), "aaa".replace("aa", "b"));
    assert_eq!(replace("héé", "", "·"), "héé".replace("", "·"));
}

#[test]
fn replacements_run_one_after_the_other() {
    let steps = vec![pair("a", "b"), pair("b", "c")];
    assert_eq!(substitute("aab", &steps), "ccc");
    assert_eq!(substitute("xyz", &Vec::new()), "xyz");
}

#[test]
fn matching_at_an_offset() {
    assert!(chars_match_at(&chars_of("hello"), &chars_of("ll"), 2));
    assert!(!chars_match_at(&chars_of("hello"), &chars_of("ll"), 3));
    assert!(!chars_match_at(&chars_of("hello"), &chars_of("lo"), 4));
    assert!(chars_match_at(&chars_of("hello"), &chars_of(""), 5));
    assert!(!chars_match_at(&chars_of("hello"), &chars_of(""), 6));
    assert!(bytes_match_at(b"hello", b"lo", 3));
    assert!(!bytes_match_at(b"hello", b"lo", 2));
    assert!(bytes_contain(b"hello", b"ell"));
    assert!(bytes_contain(b"hello", b""));
    assert!(!bytes_contain(b"hello", b"elo"));
    assert!(!bytes_contain(b"el", b"ell"));
    assert!(same_text("abc", "abc"));
    assert!(!same_text("abc", "abd"));
    assert!(!same_text("abc", "ab"));
}

#[test]
fn a_masked_text_is_rewritten_back_longest_placeholder_first() {
    let anonymizer = Anonymizer::new(vec![]).unwrap();
    let mapping = vec![pair("X_1", "one"), pair("X_10", "ten"), pair("Y_1", "why")];
    assert_eq!(
        anonymizer.deanonymize("X_10, X_1 and Y_1", &mapping),
        "ten, one and why"
    );
    assert_eq!(
        sort_longest_first(&mapping),
        vec![pair("X_10", "ten"), pair("X_1", "one"), pair("Y_1", "why")]
    );
    let by_bytes = vec![pair("aaa", "1"), pair("éé", "2")];
    assert_eq!(
        sort_longest_first(&by_bytes),
        vec![pair("éé", "2"), pair("aaa", "1")]
    );
}

#[test]
fn what_is_not_in_the_mapping_stays() {
    let anonymizer = Anonymizer::new(vec![]).unwrap();
    let mapping = vec![pair("EMAIL_1", "a@b.org")];
    assert_eq!(
        anonymizer.deanonymize("EMAIL_1 and EMAIL_2", &mapping),
        "a@b.org and EMAIL_2"
    );
    assert_eq!(anonymizer.deanonymize("EMAIL_1", &Vec::new()), "EMAIL_1");
}

#[test]
fn a_mapping_holds_each_placeholder_once() {
    let steps = vec![pair("v1", "P"), pair("v2", "Q"), pair("v3", "P")];
    assert_eq!(build_mapping(&steps), vec![pair("P", "v3"), pair("Q", "v2")]);
}

#[test]
fn masking_and_rewriting_back_gives_the_text() {
    let text = "Contact john@x.com or jane@y.org, call 555-123-4567, see https://x.com/a";
    let mut anonymizer =
        Anonymizer::new(vec![EntityType::Email, EntityType::Phone, EntityType::Url]).unwrap();
    let result = anonymizer.anonymize(text).unwrap();
    assert_ne!(result.anonymized_text, text);
    assert_eq!(anonymizer.deanonymize(&result.anonymized_text, &result.mapping), text);
}

#[test]
fn names_of_kinds_are_read_in_any_case() {
    assert_eq!(EntityType::from_str("email").unwrap(), EntityType::Email);
    assert_eq!(EntityType::from_str("EMAIL").unwrap(), EntityType::Email);
    assert_eq!(EntityType::from_str("Phone").unwrap(), EntityType::Phone);
    assert_eq!(EntityType::from_str("sSn").unwrap(), EntityType::Ssn);
    assert_eq!(EntityType::from_str("Credit_Card").unwrap(), EntityType::CreditCard);
    assert_eq!(EntityType::from_str("IP_ADDRESS").unwrap(), EntityType::IpAddress);
    assert_eq!(EntityType::from_str("url").unwrap(), EntityType::Url);
    assert_eq!(
        EntityType::from_str("Company").unwrap(),
        EntityType::Custom("Company".to_string())
    );
    assert_eq!(
        EntityType::from_str("emaił").unwrap(),
        EntityType::Custom("emaił".to_string())
    );
    assert_eq!(EntityType::from_str("").unwrap(), EntityType::Custom(String::new()));
    assert!(equals_ignoring_ascii_case("UrL", "url"));
    assert!(!equals_ignoring_ascii_case("url", "URL"));
}

#[test]
fn a_custom_kind_has_no_pattern() {
    let made = Anonymizer::new(vec![EntityType::Email, EntityType::Custom("x\"y".to_string())]);
    match made {
        Err(AnonymaskError::InvalidEntityType { entity_type, reason }) => {
            assert_eq!(entity_type, "Custom(\"x\\\"y\")");
            assert_eq!(reason, "Custom entity types don't use regex patterns");
        }
        _ => panic!("a custom kind was taken"),
    }
    assert!(EntityDetector::new(&[EntityType::Custom("x".to_string())]).is_err());
    assert_eq!(describe_kind(&EntityType::CreditCard), "CreditCard");
    assert_eq!(
        describe_kind(&EntityType::Custom("a b".to_string())),
        format!("{:?}", EntityType::Custom("a b".to_string()))
    );
}

#[test]
fn every_built_in_kind_has_a_pattern_and_a_kind_counts_once() {
    let kinds = vec![
        EntityType::Email,
        EntityType::Phone,
        EntityType::Ssn,
        EntityType::CreditCard,
        EntityType::IpAddress,
        EntityType::Url,
        EntityType::Email,
    ];
    let detector = EntityDetector::new(&kinds).unwrap();
    let found = detector.detect("ssn 123-45-6789, card 1234-5678-9012-3456, a@b.org", None);
    let values: Vec<&str> = found.iter().map(|e| e.value.as_str()).collect();
    assert_eq!(values, vec!["123-45-6789", "1234-5678-9012-3456", "a@b.org"]);
    assert_eq!(found[0].entity_type, EntityType::Ssn);
    assert_eq!(found[1].entity_type, EntityType::CreditCard);
    assert_eq!(found[2].entity_type, EntityType::Email);
}

#[test]
fn a_misspelt_kind_gets_a_suggestion() {
    assert_eq!(AnonymaskError::suggest_entity_type("mail"), "email");
    assert_eq!(AnonymaskError::suggest_entity_type("E-Mail"), "email");
    assert_eq!(AnonymaskError::suggest_entity_type("Telephone"), "phone");
    assert_eq!(AnonymaskError::suggest_entity_type("tel"), "phone");
    assert_eq!(AnonymaskError::suggest_entity_type("mobile"), "phone");
    assert_eq!(AnonymaskError::suggest_entity_type("social_security"), "ssn");
    assert_eq!(AnonymaskError::suggest_entity_type("CC"), "credit_card");
    assert_eq!(AnonymaskError::suggest_entity_type("card"), "credit_card");
    assert_eq!(AnonymaskError::suggest_entity_type("ipaddress"), "ip_address");
    assert_eq!(AnonymaskError::suggest_entity_type("ip"), "ip_address");
    assert_eq!(AnonymaskError::suggest_entity_type("LINK"), "url");
    assert_eq!(AnonymaskError::suggest_entity_type("uri"), "url");
    assert_eq!(AnonymaskError::suggest_entity_type("my_url_field"), "url");
    assert_eq!(AnonymaskError::suggest_entity_type("xyz"), "email");
    assert_eq!(AnonymaskError::suggest_entity_type(""), "email");
    assert_eq!(AnonymaskError::suggest_for("LINK"), "email");
}

#[test]
fn many_numbered_placeholders_are_rewritten_back() {
    let mut anonymizer = Anonymizer::with_config(vec![EntityType::Email], short()).unwrap();
    let mut text = String::new();
    for i in 0..12 {
        text.push_str(&format!("user{}@site.org, ", i));
    }
    let result = anonymizer.anonymize(&text).unwrap();
    assert_eq!(result.mapping.len(), 12);
    assert_eq!(result.mapping[11], pair("EMAIL_12", "user11@site.org"));
    assert!(result.anonymized_text.starts_with("EMAIL_1, EMAIL_2, "));
    assert!(result.anonymized_text.ends_with("EMAIL_11, EMAIL_12, "));
    assert_eq!(anonymizer.deanonymize(&result.anonymized_text, &result.mapping), text);
    let in_turn = substitute(&result.anonymized_text, &result.mapping);
    assert_ne!(in_turn, text);
}

#[test]
fn an_outcome_can_be_copied() {
    let mut anonymizer = Anonymizer::with_config(vec![EntityType::Email], short()).unwrap();
    let result = anonymizer.anonymize("a@b.org and c@d.org").unwrap();
    let copy = result.clone();
    assert_eq!(copy.anonymized_text, result.anonymized_text);
    assert_eq!(copy.mapping, result.mapping);
    assert_eq!(copy.entities.len(), 2);
    assert_eq!(copy.entities[1].value, "c@d.org");
    assert_eq!((copy.entities[1].start, copy.entities[1].end), (12, 19));
    assert_eq!(copy.entities[1].entity_type, EntityType::Email);
}

#[test]
fn a_text_without_values_takes_no_number() {
    let mut anonymizer = Anonymizer::with_config(vec![EntityType::Email], short()).unwrap();
    let first = anonymizer.anonymize("a@b.org").unwrap();
    assert_eq!(first.mapping[0].0, "EMAIL_1");
    let none = anonymizer.anonymize("no address here").unwrap();
    assert!(none.mapping.is_empty());
    assert_eq!(none.anonymized_text, "no address here");
    let next = anonymizer.anonymize("c@d.org").unwrap();
    assert_eq!(next.mapping[0].0, "EMAIL_2");
}

#[test]
fn a_value_is_replaced_wherever_it_stands() {
    let mut anonymizer = Anonymizer::with_config(vec![EntityType::Email], short()).unwrap();
    let custom = vec![(EntityType::Custom("w".to_string()), vec!["b".to_string()])];
    let result = anonymizer
        .anonymize_with_custom("b b a@b.org", Some(&custom))
        .unwrap();
    let values: Vec<&str> = result.entities.iter().map(|e| e.value.as_str()).collect();
    assert_eq!(values, vec!["b", "b", "a@b.org"]);
    assert_eq!(result.mapping, vec![pair("W_1", "b"), pair("EMAIL_2", "a@b.org")]);
    assert_eq!(result.anonymized_text, "W_1 W_1 a@W_1.org");
    assert_eq!(
        anonymizer.deanonymize(&result.anonymized_text, &result.mapping),
        "b b a@b.org"
    );
}

#[test]
fn a_placeholder_that_ends_a_value_lets_the_value_stand_again() {
    let mut anonymizer = Anonymizer::with_config(vec![], template("b")).unwrap();
    let custom = vec![(EntityType::Custom("w".to_string()), vec!["ab".to_string()])];
    let result = anonymizer.anonymize_with_custom("aab", Some(&custom)).unwrap();
    assert_eq!(result.anonymized_text, "ab");
    assert_eq!(result.mapping, vec![pair("b", "ab")]);
    assert_eq!(anonymizer.deanonymize(&result.anonymized_text, &result.mapping), "aab");
}

#[test]
fn a_value_that_stands_in_a_placeholder_breaks_the_way_back() {
    let mut anonymizer = Anonymizer::with_config(vec![EntityType::Phone], short()).unwrap();
    let custom = vec![(EntityType::Custom("num".to_string()), vec!["1".to_string()])];
    let text = "call 555-234-5678 or 1";
    let result = anonymizer.anonymize_with_custom(text, Some(&custom)).unwrap();
    assert_eq!(result.mapping, vec![pair("PHONE_1", "555-234-5678"), pair("NUM_2", "1")]);
    assert_eq!(result.anonymized_text, "call PHONE_NUM_2 or NUM_2");
    assert_eq!(
        anonymizer.deanonymize(&result.anonymized_text, &result.mapping),
        "call PHONE_1 or 1"
    );
}

#[test]
fn names_of_kinds_are_read_as_if_put_in_small_letters() {
    let names = ["email", "phone", "ssn", "credit_card", "ip_address", "url"];
    let kinds = [
        EntityType::Email,
        EntityType::Phone,
        EntityType::Ssn,
        EntityType::CreditCard,
        EntityType::IpAddress,
        EntityType::Url,
    ];
    let mut inputs: Vec<String> = Vec::new();
    for name in names {
        inputs.push(name.to_string());
        inputs.push(name.to_uppercase());
        inputs.push(format!("{} ", name));
        inputs.push(name.replace('i', "İ"));
        inputs.push(name.replace('i', "ı"));
        inputs.push(name.replace('s', "ſ"));
        inputs.push(name.replace('e', "é"));
        inputs.push(name.replace('l', "\u{212A}"));
        let mixed: String = name
            .chars()
            .enumerate()
            .map(|(i, c)| if i % 2 == 0 { c.to_ascii_uppercase() } else { c })
            .collect();
        inputs.push(mixed);
    }
    for input in inputs {
        let lowered = input.to_lowercase();
        let expected = match names.iter().position(|name| *name == lowered) {
            Some(at) => kinds[at].clone(),
            None => EntityType::Custom(input.clone()),
        };
        assert_eq!(EntityType::from_str(&input).unwrap(), expected);
    }
}
