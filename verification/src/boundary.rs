//! The records that cross to a host runtime: the policy and the outcome in
//! plain strings and 32-bit numbers, and how they turn into and come from
//! the library's own values.

use crate::config::{Format, PlaceholderFormat, Policy};
use crate::entity::{EntityType, Kind};
use crate::text::same_text;
use vstd::prelude::*;

verus! {

/// The name of a kind as a host sees it: the name of a custom kind, and for
/// a built-in kind its name in small letters without separators.
pub open spec fn host_kind(kind: Kind) -> Seq<char> {
    match kind {
        Kind::Email => "email"@,
        Kind::Phone => "phone"@,
        Kind::Ssn => "ssn"@,
        Kind::CreditCard => "creditcard"@,
        Kind::IpAddress => "ipaddress"@,
        Kind::Url => "url"@,
        Kind::Custom(name) => name,
    }
}

/// The format that a host names: `standard`, `short`, or else a template.
pub open spec fn host_format(name: Seq<char>) -> Format {
    if name == "standard"@ {
        Format::Standard
    } else if name == "short"@ {
        Format::Short
    } else {
        Format::Custom(name)
    }
}

/// The format that a host names: `standard`, `short`, or else a template.
pub fn format_named(name: &str) -> (format: PlaceholderFormat)
    ensures
        format@ == host_format(name@),
{
    if same_text(name, "standard") {
        PlaceholderFormat::Standard
    } else if same_text(name, "short") {
        PlaceholderFormat::Short
    } else {
        PlaceholderFormat::Custom(name.to_owned())
    }
}

/// The name of a kind as a host sees it.
pub fn kind_name(kind: &EntityType) -> (name: String)
    ensures
        name@ == host_kind(kind@),
{
    match kind {
        EntityType::Email => "email".to_owned(),
        EntityType::Phone => "phone".to_owned(),
        EntityType::Ssn => "ssn".to_owned(),
        EntityType::CreditCard => "creditcard".to_owned(),
        EntityType::IpAddress => "ipaddress".to_owned(),
        EntityType::Url => "url".to_owned(),
        EntityType::Custom(name) => name.clone(),
    }
}

/// A found value as a host sees it. Offsets are cut to 32 bits.
pub struct Entity {
    pub entity_type: String,
    pub value: String,
    pub start: u32,
    pub end: u32,
}

impl Entity {
    /// The record of an entity of the library.
    pub fn from_core(entity: &crate::entity::Entity) -> (record: Self)
        ensures
            record.entity_type@ == host_kind(entity.entity_type@),
            record.value@ == entity.value@,
            record.start == entity.start as u32,
            record.end == entity.end as u32,
    {
        Entity {
            entity_type: kind_name(&entity.entity_type),
            value: entity.value.clone(),
            start: #[verifier::truncate]
            (entity.start as u32),
            end: #[verifier::truncate]
            (entity.end as u32),
        }
    }
}

impl Clone for Entity {
    fn clone(&self) -> (copy: Self)
        ensures
            copy == *self,
    {
        Entity {
            entity_type: self.entity_type.clone(),
            value: self.value.clone(),
            start: self.start,
            end: self.end,
        }
    }
}

/// The outcome of masking as a host sees it.
pub struct AnonymizationResult {
    pub anonymized_text: String,
    pub mapping: Vec<(String, String)>,
    pub entities: Vec<Entity>,
}

impl AnonymizationResult {
    /// The record of an outcome of the library: the same text and mapping,
    /// and the record of each entity in place.
    pub fn from_core(outcome: crate::entity::AnonymizationResult) -> (record: Self)
        ensures
            record.anonymized_text == outcome.anonymized_text,
            record.mapping == outcome.mapping,
            record.entities@.len() == outcome.entities@.len(),
            forall|i: int|
                0 <= i < outcome.entities@.len() ==> {
                    &&& (#[trigger] record.entities@[i]).entity_type@ == host_kind(
                        outcome.entities@[i].entity_type@,
                    )
                    &&& record.entities@[i].value@ == outcome.entities@[i].value@
                    &&& record.entities@[i].start == outcome.entities@[i].start as u32
                    &&& record.entities@[i].end == outcome.entities@[i].end as u32
                },
    {
        let mut entities: Vec<Entity> = Vec::new();
        let mut i: usize = 0;
        while i < outcome.entities.len()
            invariant
                i <= outcome.entities@.len(),
                entities@.len() == i,
                forall|k: int|
                    0 <= k < i ==> {
                        &&& (#[trigger] entities@[k]).entity_type@ == host_kind(
                            outcome.entities@[k].entity_type@,
                        )
                        &&& entities@[k].value@ == outcome.entities@[k].value@
                        &&& entities@[k].start == outcome.entities@[k].start as u32
                        &&& entities@[k].end == outcome.entities@[k].end as u32
                    },
            decreases outcome.entities@.len() - i,
        {
            entities.push(Entity::from_core(&outcome.entities[i]));
            i = i + 1;
        }
        AnonymizationResult {
            anonymized_text: outcome.anonymized_text,
            mapping: outcome.mapping,
            entities,
        }
    }
}

/// The policy as a host gives it: the format by name, the limit in 32 bits.
pub struct AnonymizerConfig {
    pub case_sensitive: bool,
    pub word_boundary_check: bool,
    pub placeholder_format: String,
    pub max_entities: u32,
}

impl Clone for AnonymizerConfig {
    fn clone(&self) -> (copy: Self)
        ensures
            copy == *self,
    {
        AnonymizerConfig {
            case_sensitive: self.case_sensitive,
            word_boundary_check: self.word_boundary_check,
            placeholder_format: self.placeholder_format.clone(),
            max_entities: self.max_entities,
        }
    }
}

impl Default for AnonymizerConfig {
    fn default() -> (config: Self)
        ensures
            config.case_sensitive,
            !config.word_boundary_check,
            config.placeholder_format@ == "standard"@,
            config.max_entities == 0,
    {
        AnonymizerConfig {
            case_sensitive: true,
            word_boundary_check: false,
            placeholder_format: "standard".to_owned(),
            max_entities: 0,
        }
    }
}

impl AnonymizerConfig {
    /// The policy of the library that the record stands for.
    pub fn to_core(&self) -> (config: crate::config::AnonymizerConfig)
        ensures
            config@ == (Policy {
                case_sensitive: self.case_sensitive,
                word_boundary_check: self.word_boundary_check,
                format: host_format(self.placeholder_format@),
                max_entities: self.max_entities as nat,
            }),
    {
        crate::config::AnonymizerConfig {
            case_sensitive: self.case_sensitive,
            word_boundary_check: self.word_boundary_check,
            placeholder_format: format_named(self.placeholder_format.as_str()),
            max_entities: self.max_entities as usize,
        }
    }
}

} // verus!
