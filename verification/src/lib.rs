//! Reversible masking of personal data in text.
//!
//! Sensitive values are found by pattern and by literal search, overlapping
//! finds are resolved in favour of the earliest, each distinct value gets one
//! placeholder, and the text is rewritten. The mapping from placeholders to
//! values rewrites it back.
//!
//! The modules `anonymizer`, `detection`, `resolver`, `placeholder`,
//! `config`, `entity`, `error` and `boundary` hold the engine and its
//! records; `text` and `order` hold what they need of texts and sorting;
//! `pattern` holds the patterns and the calls into the pattern engine;
//! `laws` states what holds of masking and rewriting back, with `overlap` and
//! `mixed` behind it.

pub mod anonymizer;
pub mod boundary;
pub mod config;
pub mod detection;
pub mod entity;
pub mod error;
pub mod laws;
pub mod mixed;
pub mod order;
pub mod overlap;
pub mod pattern;
pub mod placeholder;
pub mod resolver;
pub mod text;

pub use anonymizer::Anonymizer;
pub use config::{AnonymizerConfig, AnonymizerConfigBuilder, PlaceholderFormat};
pub use detection::EntityDetector;
pub use entity::{AnonymizationResult, Entity, EntityType};
pub use error::AnonymaskError;
