//! What can go wrong, and a guess at the kind that a misspelt name meant.

use crate::entity::{EntityType, Kind};
use crate::pattern::{describe_regex_error, regex_error_text};
use crate::text::{
    bytes_contain, debug_quoted, decimal, decimal_string, lowercase, occurs_in, quoted,
    same_text, to_lowercase,
};
use vstd::utf8::encode_utf8;
use vstd::prelude::*;
use vstd::string::StringExecFns;

verus! {

/// The name of a kind as a program text writes it: the variant's name, and
/// for a custom kind its name in quotes between brackets behind it.
pub open spec fn kind_text(kind: Kind) -> Seq<char> {
    match kind {
        Kind::Email => "Email"@,
        Kind::Phone => "Phone"@,
        Kind::Ssn => "Ssn"@,
        Kind::CreditCard => "CreditCard"@,
        Kind::IpAddress => "IpAddress"@,
        Kind::Url => "Url"@,
        Kind::Custom(name) => "Custom("@ + debug_quoted(name) + ")"@,
    }
}

/// Why a custom kind is refused where a pattern is needed.
pub open spec fn no_pattern_reason() -> Seq<char> {
    "Custom entity types don't use regex patterns"@
}

/// The name of a kind as a program text writes it.
pub fn describe_kind(kind: &EntityType) -> (text: String)
    ensures
        text@ == kind_text(kind@),
{
    match kind {
        EntityType::Email => "Email".to_owned(),
        EntityType::Phone => "Phone".to_owned(),
        EntityType::Ssn => "Ssn".to_owned(),
        EntityType::CreditCard => "CreditCard".to_owned(),
        EntityType::IpAddress => "IpAddress".to_owned(),
        EntityType::Url => "Url".to_owned(),
        EntityType::Custom(name) => {
            let inner = quoted(name.as_str());
            "Custom(".to_owned().concat(inner.as_str()).concat(")")
        },
    }
}

/// The errors of this library.
#[derive(Debug)]
pub enum AnonymaskError {
    /// A kind was given where it cannot be used.
    InvalidEntityType {
        /// The kind, as text.
        entity_type: String,
        /// Why it cannot be used.
        reason: String,
    },
    /// A placeholder has no entry in a mapping.
    MappingNotFound {
        /// The placeholder.
        placeholder: String,
        /// Its byte offset in the text.
        position: usize,
    },
    /// A pattern did not compile.
    RegexError {
        /// The pattern text.
        pattern: String,
        /// What the pattern compiler reported.
        source: regex::Error,
    },
    /// A store of mappings failed.
    StorageError(String),
    /// Masking could not be carried out.
    AnonymizationError(String),
}

/// One of two texts stands within the other.
pub open spec fn related(word: Seq<char>, text: Seq<char>) -> bool {
    occurs_in(encode_utf8(text), encode_utf8(word)) || occurs_in(
        encode_utf8(word),
        encode_utf8(text),
    )
}

/// The name of the built-in kind that a text in small letters most likely
/// meant: the first of the names, in the order email, phone, ssn,
/// credit_card, ip_address, url, that stands within the text or holds it;
/// else the name that a known other word for it stands for; else email.
pub open spec fn suggestion(lowered: Seq<char>) -> Seq<char> {
    if related("email"@, lowered) {
        "email"@
    } else if related("phone"@, lowered) {
        "phone"@
    } else if related("ssn"@, lowered) {
        "ssn"@
    } else if related("credit_card"@, lowered) {
        "credit_card"@
    } else if related("ip_address"@, lowered) {
        "ip_address"@
    } else if related("url"@, lowered) {
        "url"@
    } else if lowered == "mail"@ || lowered == "e-mail"@ {
        "email"@
    } else if lowered == "telephone"@ || lowered == "tel"@ || lowered == "mobile"@ {
        "phone"@
    } else if lowered == "social_security"@ || lowered == "social_security_number"@ {
        "ssn"@
    } else if lowered == "cc"@ || lowered == "card"@ || lowered == "credit"@ {
        "credit_card"@
    } else if lowered == "ip"@ || lowered == "ipaddress"@ || lowered == "ip_addr"@ {
        "ip_address"@
    } else if lowered == "link"@ || lowered == "uri"@ {
        "url"@
    } else {
        "email"@
    }
}

/// Whether one of two texts stands within the other.
fn is_related(word: &str, text: &str) -> (yes: bool)
    ensures
        yes == related(word@, text@),
{
    bytes_contain(word.as_bytes(), text.as_bytes()) || bytes_contain(
        text.as_bytes(),
        word.as_bytes(),
    )
}

impl AnonymaskError {
    /// The name of the built-in kind that `invalid` most likely meant. The
    /// text is first put in small letters.
    pub fn suggest_entity_type(invalid: &str) -> (name: &'static str)
        ensures
            name@ == suggestion(lowercase(invalid@)),
    {
        let lowered = to_lowercase(invalid);
        Self::suggest_for(lowered.as_str())
    }

    /// The name of the built-in kind that a text in small letters most
    /// likely meant.
    pub fn suggest_for(lowered: &str) -> (name: &'static str)
        ensures
            name@ == suggestion(lowered@),
    {
        if is_related("email", lowered) {
            "email"
        } else if is_related("phone", lowered) {
            "phone"
        } else if is_related("ssn", lowered) {
            "ssn"
        } else if is_related("credit_card", lowered) {
            "credit_card"
        } else if is_related("ip_address", lowered) {
            "ip_address"
        } else if is_related("url", lowered) {
            "url"
        } else if same_text(lowered, "mail") || same_text(lowered, "e-mail") {
            "email"
        } else if same_text(lowered, "telephone") || same_text(lowered, "tel") || same_text(
            lowered,
            "mobile",
        ) {
            "phone"
        } else if same_text(lowered, "social_security") || same_text(
            lowered,
            "social_security_number",
        ) {
            "ssn"
        } else if same_text(lowered, "cc") || same_text(lowered, "card") || same_text(
            lowered,
            "credit",
        ) {
            "credit_card"
        } else if same_text(lowered, "ip") || same_text(lowered, "ipaddress") || same_text(
            lowered,
            "ip_addr",
        ) {
            "ip_address"
        } else if same_text(lowered, "link") || same_text(lowered, "uri") {
            "url"
        } else {
            "email"
        }
    }

    /// The error in words.
    pub open spec fn message_text(&self) -> Seq<char> {
        match self {
            AnonymaskError::InvalidEntityType { entity_type, reason } => "Invalid entity type '"@
                + entity_type@ + "': "@ + reason@,
            AnonymaskError::MappingNotFound { placeholder, position } =>
                "Mapping not found for placeholder '"@ + placeholder@ + "' at position "@
                    + decimal(*position as nat),
            AnonymaskError::RegexError { pattern, source } => "Regex error for pattern '"@
                + pattern@ + "': "@ + regex_error_text(*source),
            AnonymaskError::StorageError(reason) => "Storage error: "@ + reason@,
            AnonymaskError::AnonymizationError(reason) => "Anonymization failed: "@ + reason@,
        }
    }

    /// The error in words.
    pub fn message(&self) -> (text: String)
        ensures
            text@ == self.message_text(),
    {
        match self {
            AnonymaskError::InvalidEntityType { entity_type, reason } => {
                "Invalid entity type '".to_owned().concat(entity_type.as_str()).concat(
                    "': ",
                ).concat(reason.as_str())
            },
            AnonymaskError::MappingNotFound { placeholder, position } => {
                let number = decimal_string(*position);
                "Mapping not found for placeholder '".to_owned().concat(
                    placeholder.as_str(),
                ).concat("' at position ").concat(number.as_str())
            },
            AnonymaskError::RegexError { pattern, source } => {
                let said = describe_regex_error(source);
                "Regex error for pattern '".to_owned().concat(pattern.as_str()).concat(
                    "': ",
                ).concat(said.as_str())
            },
            AnonymaskError::StorageError(reason) => {
                "Storage error: ".to_owned().concat(reason.as_str())
            },
            AnonymaskError::AnonymizationError(reason) => {
                "Anonymization failed: ".to_owned().concat(reason.as_str())
            },
        }
    }

    /// The error that refuses the custom kind `kind` where a pattern is
    /// needed.
    pub open spec fn refuses_kind(&self, kind: Kind) -> bool {
        &&& self matches AnonymaskError::InvalidEntityType { entity_type, reason }
        &&& entity_type@ == kind_text(kind)
        &&& reason@ == no_pattern_reason()
    }

    /// The error that reports that `text` did not compile as a pattern.
    pub open spec fn refuses_pattern(&self, text: Seq<char>) -> bool {
        &&& self matches AnonymaskError::RegexError { pattern, source }
        &&& pattern@ == text
    }
}

} // verus!
