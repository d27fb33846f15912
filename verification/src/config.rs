//! The policy of an anonymizer, and the builder that fills in its defaults.

use vstd::prelude::*;
use vstd::std_specs::cmp::PartialEqSpecImpl;

verus! {

/// How placeholders are written.
#[derive(Debug)]
pub enum PlaceholderFormat {
    /// The kind in capitals, an underscore and a random token.
    Standard,
    /// The kind in capitals, an underscore and a running number.
    Short,
    /// A template in which `{type}`, `{uuid}` and `{counter}` stand for the
    /// kind in capitals, a random token and the running number.
    Custom(String),
}

/// The mathematical value of a [`PlaceholderFormat`].
pub enum Format {
    Standard,
    Short,
    Custom(Seq<char>),
}

impl View for PlaceholderFormat {
    type V = Format;

    open spec fn view(&self) -> Format {
        match self {
            PlaceholderFormat::Standard => Format::Standard,
            PlaceholderFormat::Short => Format::Short,
            PlaceholderFormat::Custom(template) => Format::Custom(template@),
        }
    }
}

impl PartialEq for PlaceholderFormat {
    fn eq(&self, other: &Self) -> (equal: bool) {
        match self {
            PlaceholderFormat::Standard => matches!(other, PlaceholderFormat::Standard),
            PlaceholderFormat::Short => matches!(other, PlaceholderFormat::Short),
            PlaceholderFormat::Custom(a) => match other {
                PlaceholderFormat::Custom(b) => *a == *b,
                _ => false,
            },
        }
    }
}

impl PartialEqSpecImpl for PlaceholderFormat {
    open spec fn obeys_eq_spec() -> bool {
        true
    }

    open spec fn eq_spec(&self, other: &Self) -> bool {
        self@ == other@
    }
}

impl Clone for PlaceholderFormat {
    fn clone(&self) -> (copy: Self)
        ensures
            copy == *self,
    {
        match self {
            PlaceholderFormat::Standard => PlaceholderFormat::Standard,
            PlaceholderFormat::Short => PlaceholderFormat::Short,
            PlaceholderFormat::Custom(template) => PlaceholderFormat::Custom(template.clone()),
        }
    }
}

/// The policy of an anonymizer. It is fixed when the anonymizer is made.
///
/// Only the placeholder format bears on what the anonymizer does. The other
/// three settings are kept with the policy and handed on as they are:
/// literal search always tells capitals from small letters, never asks for
/// word boundaries, and finds without limit.
#[derive(Debug)]
pub struct AnonymizerConfig {
    /// Whether literal search is meant to tell capitals from small letters.
    pub case_sensitive: bool,
    /// Whether a literal value is meant to stand between word boundaries.
    pub word_boundary_check: bool,
    /// How placeholders are written.
    pub placeholder_format: PlaceholderFormat,
    /// The most entities that are meant to be found; 0 sets no limit.
    pub max_entities: usize,
}

/// The mathematical value of an [`AnonymizerConfig`].
pub struct Policy {
    pub case_sensitive: bool,
    pub word_boundary_check: bool,
    pub format: Format,
    pub max_entities: nat,
}

impl Policy {
    /// The policy in which nothing was chosen: case-sensitive, no word
    /// boundaries, standard placeholders, no limit.
    pub open spec fn standard() -> Policy {
        Policy {
            case_sensitive: true,
            word_boundary_check: false,
            format: Format::Standard,
            max_entities: 0,
        }
    }
}

impl View for AnonymizerConfig {
    type V = Policy;

    open spec fn view(&self) -> Policy {
        Policy {
            case_sensitive: self.case_sensitive,
            word_boundary_check: self.word_boundary_check,
            format: self.placeholder_format@,
            max_entities: self.max_entities as nat,
        }
    }
}

impl Clone for AnonymizerConfig {
    fn clone(&self) -> (copy: Self)
        ensures
            copy == *self,
    {
        AnonymizerConfig {
            case_sensitive: self.case_sensitive,
            word_boundary_check: self.word_boundary_check,
            placeholder_format: self.placeholder_format.clone(),
            max_entities: self.max_entities,
        }
    }
}

impl Default for AnonymizerConfig {
    fn default() -> (config: Self)
        ensures
            config@ == Policy::standard(),
    {
        AnonymizerConfig {
            case_sensitive: true,
            word_boundary_check: false,
            placeholder_format: PlaceholderFormat::Standard,
            max_entities: 0,
        }
    }
}

impl AnonymizerConfig {
    /// A builder in which nothing is chosen yet.
    pub fn builder() -> (builder: AnonymizerConfigBuilder)
        ensures
            builder@ == Choices::none(),
    {
        AnonymizerConfigBuilder::default()
    }
}

/// Collects the choices for an [`AnonymizerConfig`].
pub struct AnonymizerConfigBuilder {
    case_sensitive: Option<bool>,
    word_boundary_check: Option<bool>,
    placeholder_format: Option<PlaceholderFormat>,
    max_entities: Option<usize>,
}

/// The mathematical value of an [`AnonymizerConfigBuilder`]: what was chosen
/// so far.
pub struct Choices {
    pub case_sensitive: Option<bool>,
    pub word_boundary_check: Option<bool>,
    pub format: Option<Format>,
    pub max_entities: Option<nat>,
}

impl Choices {
    /// Nothing chosen.
    pub open spec fn none() -> Choices {
        Choices {
            case_sensitive: None,
            word_boundary_check: None,
            format: None,
            max_entities: None,
        }
    }

    /// The policy that the choices give: each choice where one was made, else
    /// the standard policy's value.
    pub open spec fn policy(self) -> Policy {
        Policy {
            case_sensitive: match self.case_sensitive {
                Some(chosen) => chosen,
                None => Policy::standard().case_sensitive,
            },
            word_boundary_check: match self.word_boundary_check {
                Some(chosen) => chosen,
                None => Policy::standard().word_boundary_check,
            },
            format: match self.format {
                Some(chosen) => chosen,
                None => Policy::standard().format,
            },
            max_entities: match self.max_entities {
                Some(chosen) => chosen,
                None => Policy::standard().max_entities,
            },
        }
    }
}

impl View for AnonymizerConfigBuilder {
    type V = Choices;

    closed spec fn view(&self) -> Choices {
        Choices {
            case_sensitive: self.case_sensitive,
            word_boundary_check: self.word_boundary_check,
            format: match self.placeholder_format {
                Some(format) => Some(format@),
                None => None,
            },
            max_entities: match self.max_entities {
                Some(max) => Some(max as nat),
                None => None,
            },
        }
    }
}

impl Default for AnonymizerConfigBuilder {
    fn default() -> (builder: Self)
        ensures
            builder@ == Choices::none(),
    {
        AnonymizerConfigBuilder {
            case_sensitive: None,
            word_boundary_check: None,
            placeholder_format: None,
            max_entities: None,
        }
    }
}

impl AnonymizerConfigBuilder {
    /// Chooses whether literal search is meant to tell capitals from small
    /// letters.
    pub fn with_case_sensitivity(self, case_sensitive: bool) -> (builder: Self)
        ensures
            builder@ == (Choices { case_sensitive: Some(case_sensitive), ..self@ }),
    {
        let mut builder = self;
        builder.case_sensitive = Some(case_sensitive);
        builder
    }

    /// Chooses whether a literal value is meant to stand between word
    /// boundaries.
    pub fn with_word_boundary_check(self, check: bool) -> (builder: Self)
        ensures
            builder@ == (Choices { word_boundary_check: Some(check), ..self@ }),
    {
        let mut builder = self;
        builder.word_boundary_check = Some(check);
        builder
    }

    /// Chooses how placeholders are written.
    pub fn with_placeholder_format(self, format: PlaceholderFormat) -> (builder: Self)
        ensures
            builder@ == (Choices { format: Some(format@), ..self@ }),
    {
        let mut builder = self;
        builder.placeholder_format = Some(format);
        builder
    }

    /// Chooses the most entities that are meant to be found; 0 sets no
    /// limit.
    pub fn with_max_entities(self, max: usize) -> (builder: Self)
        ensures
            builder@ == (Choices { max_entities: Some(max as nat), ..self@ }),
    {
        let mut builder = self;
        builder.max_entities = Some(max);
        builder
    }

    /// The policy that the choices give.
    pub fn build(self) -> (config: AnonymizerConfig)
        ensures
            config@ == self@.policy(),
    {
        AnonymizerConfig {
            case_sensitive: match self.case_sensitive {
                Some(chosen) => chosen,
                None => true,
            },
            word_boundary_check: match self.word_boundary_check {
                Some(chosen) => chosen,
                None => false,
            },
            placeholder_format: match self.placeholder_format {
                Some(chosen) => chosen,
                None => PlaceholderFormat::Standard,
            },
            max_entities: match self.max_entities {
                Some(chosen) => chosen,
                None => 0,
            },
        }
    }
}

} // verus!
