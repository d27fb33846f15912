//! The kinds of sensitive values, a value found in a text, and the outcome of
//! masking a text.

use crate::error::AnonymaskError;
use crate::text::{ascii_lowered, equals_ignoring_ascii_case};
use vstd::prelude::*;
use vstd::std_specs::cmp::PartialEqSpecImpl;
use vstd::utf8::encode_utf8;

verus! {

/// The category of a sensitive value: one of the built-in kinds, or a kind
/// that the caller names.
#[derive(Debug, Hash)]
pub enum EntityType {
    /// Email addresses.
    Email,
    /// Phone numbers.
    Phone,
    /// Social security numbers.
    Ssn,
    /// Credit card numbers.
    CreditCard,
    /// IPv4 addresses.
    IpAddress,
    /// Web addresses.
    Url,
    /// A kind named by the caller, found by literal search only.
    Custom(String),
}

/// The mathematical value of an [`EntityType`].
pub enum Kind {
    Email,
    Phone,
    Ssn,
    CreditCard,
    IpAddress,
    Url,
    Custom(Seq<char>),
}

impl Kind {
    /// Whether the kind is one of the built-in ones.
    pub open spec fn is_builtin(self) -> bool {
        !(self is Custom)
    }
}

impl View for EntityType {
    type V = Kind;

    open spec fn view(&self) -> Kind {
        match self {
            EntityType::Email => Kind::Email,
            EntityType::Phone => Kind::Phone,
            EntityType::Ssn => Kind::Ssn,
            EntityType::CreditCard => Kind::CreditCard,
            EntityType::IpAddress => Kind::IpAddress,
            EntityType::Url => Kind::Url,
            EntityType::Custom(name) => Kind::Custom(name@),
        }
    }
}

impl PartialEq for EntityType {
    fn eq(&self, other: &Self) -> (equal: bool) {
        match self {
            EntityType::Email => matches!(other, EntityType::Email),
            EntityType::Phone => matches!(other, EntityType::Phone),
            EntityType::Ssn => matches!(other, EntityType::Ssn),
            EntityType::CreditCard => matches!(other, EntityType::CreditCard),
            EntityType::IpAddress => matches!(other, EntityType::IpAddress),
            EntityType::Url => matches!(other, EntityType::Url),
            EntityType::Custom(a) => match other {
                EntityType::Custom(b) => *a == *b,
                _ => false,
            },
        }
    }
}

impl PartialEqSpecImpl for EntityType {
    open spec fn obeys_eq_spec() -> bool {
        true
    }

    open spec fn eq_spec(&self, other: &Self) -> bool {
        self@ == other@
    }
}

impl Eq for EntityType {

}

impl Clone for EntityType {
    fn clone(&self) -> (copy: Self)
        ensures
            copy == *self,
    {
        match self {
            EntityType::Email => EntityType::Email,
            EntityType::Phone => EntityType::Phone,
            EntityType::Ssn => EntityType::Ssn,
            EntityType::CreditCard => EntityType::CreditCard,
            EntityType::IpAddress => EntityType::IpAddress,
            EntityType::Url => EntityType::Url,
            EntityType::Custom(name) => EntityType::Custom(name.clone()),
        }
    }
}

/// `name` spells `word` when ASCII capitals and small letters count as equal.
pub open spec fn spells(name: Seq<char>, word: Seq<char>) -> bool {
    ascii_lowered(encode_utf8(name)) == encode_utf8(word)
}

/// The kind that a name stands for: a built-in kind under its name in any
/// mix of capitals and small letters, else the custom kind of that name.
pub open spec fn kind_named(name: Seq<char>) -> Kind {
    if spells(name, "email"@) {
        Kind::Email
    } else if spells(name, "phone"@) {
        Kind::Phone
    } else if spells(name, "ssn"@) {
        Kind::Ssn
    } else if spells(name, "credit_card"@) {
        Kind::CreditCard
    } else if spells(name, "ip_address"@) {
        Kind::IpAddress
    } else if spells(name, "url"@) {
        Kind::Url
    } else {
        Kind::Custom(name)
    }
}

impl EntityType {
    /// The kind that `s` names. Every string names a kind, so the result is
    /// always `Ok`.
    pub fn from_str(s: &str) -> (parsed: Result<Self, AnonymaskError>)
        ensures
            parsed is Ok,
            parsed->Ok_0@ == kind_named(s@),
    {
        if equals_ignoring_ascii_case(s, "email") {
            Ok(EntityType::Email)
        } else if equals_ignoring_ascii_case(s, "phone") {
            Ok(EntityType::Phone)
        } else if equals_ignoring_ascii_case(s, "ssn") {
            Ok(EntityType::Ssn)
        } else if equals_ignoring_ascii_case(s, "credit_card") {
            Ok(EntityType::CreditCard)
        } else if equals_ignoring_ascii_case(s, "ip_address") {
            Ok(EntityType::IpAddress)
        } else if equals_ignoring_ascii_case(s, "url") {
            Ok(EntityType::Url)
        } else {
            Ok(EntityType::Custom(s.to_owned()))
        }
    }
}

/// A sensitive value found in a text, with the byte offsets of the place.
#[derive(Debug)]
pub struct Entity {
    /// The kind of the value.
    pub entity_type: EntityType,
    /// The value as it stands in the text.
    pub value: String,
    /// The byte offset at which the value starts.
    pub start: usize,
    /// The byte offset just behind the value.
    pub end: usize,
}

/// The mathematical value of an [`Entity`].
pub struct Found {
    pub kind: Kind,
    pub value: Seq<char>,
    pub start: int,
    pub end: int,
}

impl Found {
    /// The find is a non-empty stretch of `text` that reads `value`.
    pub open spec fn lies_in(self, text: Seq<char>) -> bool {
        &&& 0 <= self.start < self.end <= encode_utf8(text).len()
        &&& encode_utf8(text).subrange(self.start, self.end) == encode_utf8(self.value)
    }
}

impl View for Entity {
    type V = Found;

    open spec fn view(&self) -> Found {
        Found {
            kind: self.entity_type@,
            value: self.value@,
            start: self.start as int,
            end: self.end as int,
        }
    }
}

impl Clone for Entity {
    fn clone(&self) -> (copy: Self)
        ensures
            copy == *self,
    {
        Entity {
            entity_type: self.entity_type.clone(),
            value: self.value.clone(),
            start: self.start,
            end: self.end,
        }
    }
}

/// The mathematical values of a list of entities.
pub open spec fn finds(entities: Seq<Entity>) -> Seq<Found> {
    Seq::new(entities.len(), |i: int| entities[i]@)
}

/// The mathematical value of a list of (first, second) string pairs.
pub open spec fn pairs(list: Seq<(String, String)>) -> Seq<(Seq<char>, Seq<char>)> {
    Seq::new(list.len(), |i: int| (list[i].0@, list[i].1@))
}

/// The outcome of masking a text.
#[derive(Debug)]
pub struct AnonymizationResult {
    /// The text with each sensitive value replaced by its placeholder.
    pub anonymized_text: String,
    /// The pairs (placeholder, value it stands for), in the order in which the
    /// placeholders were given out. No placeholder occurs twice.
    pub mapping: Vec<(String, String)>,
    /// The values found, by rising start offset, none overlapping another.
    pub entities: Vec<Entity>,
}

impl Clone for AnonymizationResult {
    fn clone(&self) -> (copy: Self)
        ensures
            copy.anonymized_text@ == self.anonymized_text@,
            pairs(copy.mapping@) == pairs(self.mapping@),
            finds(copy.entities@) == finds(self.entities@),
    {
        let mut mapping: Vec<(String, String)> = Vec::new();
        let mut i: usize = 0;
        while i < self.mapping.len()
            invariant
                i <= self.mapping@.len(),
                pairs(mapping@) == pairs(self.mapping@.take(i as int)),
            decreases self.mapping@.len() - i,
        {
            let ghost before = pairs(mapping@);
            let entry = (self.mapping[i].0.clone(), self.mapping[i].1.clone());
            mapping.push(entry);
            i = i + 1;
            proof {
                let next = (self.mapping@[i - 1].0@, self.mapping@[i - 1].1@);
                assert(pairs(mapping@) =~= before.push(next));
                assert(pairs(self.mapping@.take(i as int)) =~= pairs(
                    self.mapping@.take(i - 1),
                ).push(next));
            }
        }
        assert(self.mapping@.take(i as int) == self.mapping@);
        let mut entities: Vec<Entity> = Vec::new();
        let mut k: usize = 0;
        while k < self.entities.len()
            invariant
                k <= self.entities@.len(),
                finds(entities@) == finds(self.entities@.take(k as int)),
            decreases self.entities@.len() - k,
        {
            let ghost before = finds(entities@);
            let entity = self.entities[k].clone();
            entities.push(entity);
            k = k + 1;
            proof {
                let next = self.entities@[k - 1]@;
                assert(finds(entities@) =~= before.push(next));
                assert(finds(self.entities@.take(k as int)) =~= finds(
                    self.entities@.take(k - 1),
                ).push(next));
            }
        }
        assert(self.entities@.take(k as int) == self.entities@);
        AnonymizationResult { anonymized_text: self.anonymized_text.clone(), mapping, entities }
    }
}

} // verus!
