use anonymask::anonymizer::sort_longest_first;
use anonymask::resolver::resolve;
use anonymask::text::{bytes_contain, chars_of, replace_all, same_text, string_of};
use anonymask::{Anonymizer, Entity, EntityDetector, EntityType};

struct Numbers(u64);

impl Numbers {
    fn next(&mut self) -> u64 {
        self.0 = self.0.wrapping_mul(6364136223846793005).wrapping_add(1442695040888963407);
        self.0 >> 33
    }

    fn below(&mut self, n: u64) -> u64 {
        self.next() % n
    }

    fn word(&mut self, min: u64, max: u64) -> String {
        let len = min + self.below(max - min + 1);
        (0..len).map(|_| (b'a' + self.below(26) as u8) as char).collect()
    }

    fn text(&mut self, pieces: u64) -> String {
        let mut text = String::new();
        for _ in 0..pieces {
            match self.below(8) {
                0 => text.push_str(&format!("{}@{}.org", self.word(1, 6), self.word(2, 6))),
                1 => text.push_str(&format!(
                    "{}-{}-{}",
                    200 + self.below(800),
                    200 + self.below(800),
                    1000 + self.below(9000)
                )),
                2 => text.push_str(&format!("https://{}.net/{}", self.word(2, 6), self.word(0, 4))),
                3 => text.push_str("déjà vu – ça"),
                4 => text.push_str(", "),
                5 => text.push('\n'),
                _ => text.push_str(&self.word(1, 9)),
            }
            text.push(' ');
        }
        text
    }
}

#[test]
fn prop_anonymize_deanonymize_is_identity() {
    let mut numbers = Numbers(1);
    let mut anonymizer =
        Anonymizer::new(vec![EntityType::Email, EntityType::Phone, EntityType::Url]).unwrap();
    for _ in 0..200 {
        let pieces = numbers.below(12);
        let text = numbers.text(pieces);
        let result = anonymizer.anonymize(&text).unwrap();
        let restored = anonymizer.deanonymize(&result.anonymized_text, &result.mapping);
        assert_eq!(text, restored);
    }
}

#[test]
fn prop_no_email_leakage() {
    let mut numbers = Numbers(2);
    let tlds = ["com", "org", "net", "io", "dev"];
    for _ in 0..200 {
        let email = format!(
            "{}@{}.{}",
            numbers.word(5, 15),
            numbers.word(5, 15),
            tlds[numbers.below(5) as usize]
        );
        let text = format!("Contact me at {}", email);
        let mut anonymizer = Anonymizer::new(vec![EntityType::Email]).unwrap();
        let result = anonymizer.anonymize(&text).unwrap();
        assert!(!result.anonymized_text.contains(&email));
        assert!(result.mapping.iter().any(|(_, value)| value == &email));
    }
}

#[test]
fn prop_empty_input_empty_output() {
    let kinds = [EntityType::Email, EntityType::Phone, EntityType::Ssn];
    let mut numbers = Numbers(3);
    for _ in 0..50 {
        let chosen: Vec<EntityType> = (0..numbers.below(5))
            .map(|_| kinds[numbers.below(3) as usize].clone())
            .collect();
        let mut anonymizer = Anonymizer::new(chosen).unwrap();
        let result = anonymizer.anonymize("").unwrap();
        assert_eq!(result.anonymized_text, "");
        assert!(result.entities.is_empty());
        assert!(result.mapping.is_empty());
    }
}

#[test]
fn prop_no_pii_no_change() {
    let mut numbers = Numbers(4);
    let mut anonymizer = Anonymizer::new(vec![EntityType::Email, EntityType::Phone]).unwrap();
    for _ in 0..200 {
        let mut safe_text = String::new();
        for _ in 0..(2 + numbers.below(12)) {
            safe_text.push_str(&numbers.word(1, 9));
            safe_text.push(if numbers.below(4) == 0 { '\t' } else { ' ' });
        }
        let result = anonymizer.anonymize(&safe_text).unwrap();
        assert!(result.entities.is_empty());
        assert_eq!(result.anonymized_text, safe_text);
    }
}

#[test]
fn prop_duplicate_values_same_placeholder() {
    let mut numbers = Numbers(5);
    for _ in 0..200 {
        let email = format!("{}@{}.com", numbers.word(5, 5), numbers.word(5, 5));
        let text = format!("Email {} and {}", email, email);
        let mut anonymizer = Anonymizer::new(vec![EntityType::Email]).unwrap();
        let result = anonymizer.anonymize(&text).unwrap();
        assert_eq!(result.mapping.len(), 1);
        assert_eq!(result.entities.len(), 2);
        assert_eq!(result.anonymized_text.matches(&result.mapping[0].0).count(), 2);
    }
}

#[test]
fn prop_entity_positions_valid() {
    let mut numbers = Numbers(6);
    let mut anonymizer =
        Anonymizer::new(vec![EntityType::Email, EntityType::Phone, EntityType::Url]).unwrap();
    for _ in 0..200 {
        let pieces = 1 + numbers.below(12);
        let text = numbers.text(pieces);
        let result = anonymizer.anonymize(&text).unwrap();
        let mut last_end = 0;
        for entity in result.entities {
            assert!(entity.start < entity.end);
            assert!(entity.end <= text.len());
            assert_eq!(&text[entity.start..entity.end], entity.value);
            assert!(last_end <= entity.start);
            last_end = entity.end;
        }
    }
}

#[test]
fn prop_mapping_bijective() {
    let mut numbers = Numbers(7);
    let mut anonymizer = Anonymizer::new(vec![EntityType::Email, EntityType::Phone]).unwrap();
    for _ in 0..200 {
        let pieces = 1 + numbers.below(12);
        let text = numbers.text(pieces);
        let result = anonymizer.anonymize(&text).unwrap();
        let keys: std::collections::HashSet<&String> =
            result.mapping.iter().map(|(key, _)| key).collect();
        let values: std::collections::HashSet<&String> =
            result.mapping.iter().map(|(_, value)| value).collect();
        assert_eq!(result.mapping.len(), keys.len());
        assert_eq!(result.mapping.len(), values.len());
    }
}

#[test]
fn prop_valid_ipv4_detected() {
    let mut numbers = Numbers(8);
    let mut anonymizer = Anonymizer::new(vec![EntityType::IpAddress]).unwrap();
    for round in 0..300 {
        let octet = |numbers: &mut Numbers| match round % 3 {
            0 => numbers.below(256),
            1 => [0, 1, 9, 10, 99, 100, 199, 200, 249, 250, 255][numbers.below(11) as usize],
            _ => 200 + numbers.below(56),
        };
        let ip = format!(
            "{}.{}.{}.{}",
            octet(&mut numbers),
            octet(&mut numbers),
            octet(&mut numbers),
            octet(&mut numbers)
        );
        let text = format!("Server IP is {}", ip);
        let result = anonymizer.anonymize(&text).unwrap();
        assert_eq!(result.entities.len(), 1);
        assert_eq!(&result.entities[0].value, &ip);
    }
}

#[test]
fn prop_invalid_ipv4_not_detected() {
    let mut anonymizer = Anonymizer::new(vec![EntityType::IpAddress]).unwrap();
    for invalid_octet in 256u32..=999 {
        let text = format!("Invalid IP: {}.1.1.1", invalid_octet);
        let result = anonymizer.anonymize(&text).unwrap();
        assert_eq!(result.entities.len(), 0);
    }
}

#[test]
fn prop_phone_with_parens_detected() {
    let mut numbers = Numbers(9);
    let mut anonymizer = Anonymizer::new(vec![EntityType::Phone]).unwrap();
    for _ in 0..300 {
        let phone = format!(
            "({}) {}-{}",
            200 + numbers.below(800),
            200 + numbers.below(800),
            1000 + numbers.below(9000)
        );
        let text = format!("Call {}", phone);
        let result = anonymizer.anonymize(&text).unwrap();
        assert!(!result.entities.is_empty());
        assert!(result.entities.iter().any(|e| e.entity_type == EntityType::Phone));
    }
}

fn small_text(numbers: &mut Numbers, max: u64) -> String {
    let letters = ['a', 'b', 'c', 'é', '_', '1'];
    (0..numbers.below(max + 1)).map(|_| letters[numbers.below(6) as usize]).collect()
}

#[test]
fn replacing_agrees_with_the_standard_library() {
    let mut numbers = Numbers(10);
    for _ in 0..3000 {
        let text = small_text(&mut numbers, 12);
        let from = small_text(&mut numbers, 3);
        let to = small_text(&mut numbers, 3);
        let ours = string_of(&replace_all(&chars_of(&text), &chars_of(&from), &chars_of(&to)));
        assert_eq!(ours, text.replace(&from, &to));
    }
}

#[test]
fn searching_agrees_with_the_standard_library() {
    let mut numbers = Numbers(11);
    for _ in 0..3000 {
        let hay = small_text(&mut numbers, 10);
        let needle = small_text(&mut numbers, 3);
        assert_eq!(bytes_contain(hay.as_bytes(), needle.as_bytes()), hay.contains(&needle));
        assert_eq!(same_text(&hay, &needle), hay == needle);
    }
}

#[test]
fn the_order_of_rewriting_back_agrees_with_a_stable_sort() {
    let mut numbers = Numbers(12);
    for _ in 0..500 {
        let mapping: Vec<(String, String)> = (0..numbers.below(9))
            .map(|i| (small_text(&mut numbers, 5), i.to_string()))
            .collect();
        let mut expected = mapping.clone();
        expected.sort_by_key(|pair| std::cmp::Reverse(pair.0.len()));
        assert_eq!(sort_longest_first(&mapping), expected);
    }
}

#[test]
fn resolving_agrees_with_sorting_and_thinning_out() {
    let mut numbers = Numbers(13);
    for _ in 0..500 {
        let candidates: Vec<Entity> = (0..numbers.below(10))
            .map(|i| {
                let start = numbers.below(20) as usize;
                Entity {
                    entity_type: EntityType::Custom(i.to_string()),
                    value: i.to_string(),
                    start,
                    end: start + 1 + numbers.below(6) as usize,
                }
            })
            .collect();
        let mut sorted: Vec<Entity> = candidates.clone();
        sorted.sort_by_key(|entity| entity.start);
        let mut expected: Vec<Entity> = Vec::new();
        for entity in sorted {
            if expected.is_empty() || expected.last().unwrap().end <= entity.start {
                expected.push(entity);
            }
        }
        let accepted = resolve(candidates);
        let names = |list: &Vec<Entity>| -> Vec<String> {
            list.iter().map(|entity| entity.value.clone()).collect()
        };
        assert_eq!(names(&accepted), names(&expected));
    }
}

#[test]
fn literal_search_agrees_with_searching_on_from_each_find() {
    let mut numbers = Numbers(14);
    let detector = EntityDetector::new(&[]).unwrap();
    for _ in 0..1000 {
        let text = small_text(&mut numbers, 14);
        let value = small_text(&mut numbers, 3);
        let custom = vec![(EntityType::Custom("w".to_string()), vec![value.clone()])];
        let found = detector.detect(&text, Some(&custom));
        let mut expected: Vec<(usize, usize)> = Vec::new();
        if !value.is_empty() {
            let mut last_end = 0;
            for start in 0..text.len() {
                if text.as_bytes()[start..].starts_with(value.as_bytes()) && last_end <= start {
                    expected.push((start, start + value.len()));
                    last_end = start + value.len();
                }
            }
        }
        let spans: Vec<(usize, usize)> = found.iter().map(|e| (e.start, e.end)).collect();
        assert_eq!(spans, expected);
        for entity in &found {
            assert_eq!(entity.value, value);
            assert_eq!(&text[entity.start..entity.end], value);
        }
    }
}
