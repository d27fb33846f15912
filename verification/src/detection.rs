//! Finding sensitive values in a text: by the patterns of the built-in
//! kinds, and by literal search for the values that the caller names.

use crate::entity::{finds, Entity, EntityType, Found, Kind};
use crate::error::{describe_kind, AnonymaskError};
use crate::pattern::{
    builtin_pattern, compile, compiled_pattern, find_spans, pattern_compiles, pattern_spans,
};
use crate::laws::law_detected_positions;
use crate::resolver::{apart, resolve, resolved};
use crate::text::{bytes_match_at, matches_at};
use vstd::prelude::*;
use vstd::string::StringSliceAdditionalSpecFns;
use vstd::utf8::{
    decode_utf8, encode_utf8, encode_utf8_decode_utf8, encode_utf8_valid_utf8, is_char_boundary,
    is_char_boundary_iff_not_is_continuation_byte, is_char_boundary_start_end_of_seq,
    valid_utf8_split,
};

verus! {

/// The values that the caller names, kind by kind.
pub open spec fn customs(list: Seq<(EntityType, Vec<String>)>) -> Seq<(Kind, Seq<Seq<char>>)> {
    Seq::new(list.len(), |i: int| (list[i].0@, texts(list[i].1@)))
}

/// The mathematical values of a list of strings.
pub open spec fn texts(list: Seq<String>) -> Seq<Seq<char>> {
    Seq::new(list.len(), |i: int| list[i]@)
}

/// The values that the caller names, where there are any.
pub open spec fn customs_of(custom: Option<&Vec<(EntityType, Vec<String>)>>) -> Seq<
    (Kind, Seq<Seq<char>>),
> {
    match custom {
        Some(list) => customs(list@),
        None => Seq::empty(),
    }
}

/// The kinds of a list of entity types.
pub open spec fn kinds_of(list: Seq<EntityType>) -> Seq<Kind> {
    Seq::new(list.len(), |i: int| list[i]@)
}

/// The kinds of a list without repetitions, each at its first place.
pub open spec fn distinct_kinds(kinds: Seq<Kind>) -> Seq<Kind>
    decreases kinds.len(),
{
    if kinds.len() == 0 {
        kinds
    } else {
        let before = distinct_kinds(kinds.drop_last());
        if before.contains(kinds.last()) {
            before
        } else {
            before.push(kinds.last())
        }
    }
}

/// A kind can be detected by pattern: it is built in and its pattern
/// compiles.
pub open spec fn has_pattern(kind: Kind) -> bool {
    kind.is_builtin() && pattern_compiles(builtin_pattern(kind))
}

/// Every find is a non-empty stretch of the text that reads its value.
pub open spec fn all_lie_in(entities: Seq<Found>, text: Seq<char>) -> bool {
    forall|i: int| 0 <= i < entities.len() ==> (#[trigger] entities[i]).lies_in(text)
}

/// A span that a pattern matched can be taken from the text: it is not
/// empty, ends within the text and cuts no character in two.
pub open spec fn span_fits(text: Seq<char>, span: (usize, usize)) -> bool {
    &&& span.0 < span.1 <= encode_utf8(text).len()
    &&& is_char_boundary(encode_utf8(text), span.0 as int)
    &&& is_char_boundary(encode_utf8(text), span.1 as int)
}

/// The find that a span stands for.
pub open spec fn span_find(kind: Kind, text: Seq<char>, span: (usize, usize)) -> Found {
    Found {
        kind,
        value: decode_utf8(encode_utf8(text).subrange(span.0 as int, span.1 as int)),
        start: span.0 as int,
        end: span.1 as int,
    }
}

/// The finds of one kind for the spans that its pattern matched, in the
/// order of the spans. A span that cannot be taken from the text gives none.
pub open spec fn span_finds(kind: Kind, text: Seq<char>, spans: Seq<(usize, usize)>) -> Seq<Found>
    decreases spans.len(),
{
    if spans.len() == 0 {
        Seq::empty()
    } else {
        let before = span_finds(kind, text, spans.drop_last());
        if span_fits(text, spans.last()) {
            before.push(span_find(kind, text, spans.last()))
        } else {
            before
        }
    }
}

/// The finds of the patterns of `kinds`, kind after kind.
pub open spec fn pattern_finds(kinds: Seq<Kind>, text: Seq<char>) -> Seq<Found>
    decreases kinds.len(),
{
    if kinds.len() == 0 {
        Seq::empty()
    } else {
        pattern_finds(kinds.drop_last(), text) + span_finds(
            kinds.last(),
            text,
            pattern_spans(builtin_pattern(kinds.last()), text),
        )
    }
}

/// The find of the literal `value` at byte offset `at`.
pub open spec fn literal_find(kind: Kind, value: Seq<char>, at: int) -> Found {
    Found { kind, value, start: at, end: at + encode_utf8(value).len() }
}

/// The finds of the literal `value` at the byte offsets below `upto`, by
/// rising offset: one for every offset at which the bytes of the value
/// stand in the text, whether or not two of them overlap.
pub open spec fn literal_finds(kind: Kind, value: Seq<char>, text: Seq<char>, upto: int) -> Seq<
    Found,
>
    decreases upto,
{
    if upto <= 0 {
        Seq::empty()
    } else {
        let before = literal_finds(kind, value, text, upto - 1);
        if matches_at(encode_utf8(text), encode_utf8(value), upto - 1) {
            before.push(literal_find(kind, value, upto - 1))
        } else {
            before
        }
    }
}

/// The finds of one literal value in the whole text. The empty value is
/// found nowhere.
pub open spec fn value_finds(kind: Kind, value: Seq<char>, text: Seq<char>) -> Seq<Found> {
    if value.len() == 0 {
        Seq::empty()
    } else {
        literal_finds(kind, value, text, encode_utf8(text).len() as int)
    }
}

/// The finds of the literal values of one kind, value after value.
pub open spec fn values_finds(kind: Kind, values: Seq<Seq<char>>, text: Seq<char>) -> Seq<Found>
    decreases values.len(),
{
    if values.len() == 0 {
        Seq::empty()
    } else {
        values_finds(kind, values.drop_last(), text) + value_finds(kind, values.last(), text)
    }
}

/// The finds of all the values that the caller names, kind after kind.
pub open spec fn custom_finds(custom: Seq<(Kind, Seq<Seq<char>>)>, text: Seq<char>) -> Seq<Found>
    decreases custom.len(),
{
    if custom.len() == 0 {
        Seq::empty()
    } else {
        custom_finds(custom.drop_last(), text) + values_finds(
            custom.last().0,
            custom.last().1,
            text,
        )
    }
}

/// Everything that could be accepted: the finds of the patterns, then those
/// of the named values.
pub open spec fn candidates(
    kinds: Seq<Kind>,
    text: Seq<char>,
    custom: Seq<(Kind, Seq<Seq<char>>)>,
) -> Seq<Found> {
    pattern_finds(kinds, text) + custom_finds(custom, text)
}

/// What is detected in a text: the candidates, with overlaps resolved.
pub open spec fn detected(
    kinds: Seq<Kind>,
    text: Seq<char>,
    custom: Seq<(Kind, Seq<Seq<char>>)>,
) -> Seq<Found> {
    resolved(candidates(kinds, text, custom))
}

/// The values of a list of entities with one more are those of the list and
/// the value of the one.
proof fn lemma_finds_push(entities: Seq<Entity>, entity: Entity)
    ensures
        finds(entities.push(entity)) == finds(entities).push(entity@),
{
    assert(finds(entities.push(entity)) =~= finds(entities).push(entity@));
}

/// The stretch of `text` between two byte offsets that cut no character in
/// two.
fn stretch(text: &str, start: usize, end: usize) -> (value: String)
    requires
        start <= end <= text.spec_bytes().len(),
        is_char_boundary(text.spec_bytes(), start as int),
        is_char_boundary(text.spec_bytes(), end as int),
    ensures
        value@ == decode_utf8(text.spec_bytes().subrange(start as int, end as int)),
{
    let ghost bytes = text.spec_bytes();
    proof {
        encode_utf8_valid_utf8(text@);
        valid_utf8_split(bytes, end as int);
    }
    let (head, _) = text.split_at(end);
    proof {
        let front = bytes.subrange(0, end as int);
        assert(head.spec_bytes() == front);
        if start < end {
            is_char_boundary_iff_not_is_continuation_byte(bytes, start as int);
            is_char_boundary_iff_not_is_continuation_byte(front, start as int);
        } else {
            is_char_boundary_start_end_of_seq(front);
        }
        valid_utf8_split(front, start as int);
        assert(front.subrange(start as int, front.len() as int) =~= bytes.subrange(
            start as int,
            end as int,
        ));
    }
    let (_, middle) = head.split_at(start);
    let value = middle.to_owned();
    proof {
        encode_utf8_decode_utf8(value@);
    }
    value
}

/// Appends the finds of one kind for the spans that its pattern matched.
fn push_span_finds(
    out: &mut Vec<Entity>,
    kind: &EntityType,
    text: &str,
    spans: &Vec<(usize, usize)>,
)
    ensures
        finds(final(out)@) == finds(old(out)@) + span_finds(kind@, text@, spans@),
{
    let mut i: usize = 0;
    assert(finds(out@) =~= finds(old(out)@) + span_finds(kind@, text@, spans@.take(0)));
    while i < spans.len()
        invariant
            i <= spans.len(),
            finds(out@) == finds(old(out)@) + span_finds(kind@, text@, spans@.take(i as int)),
        decreases spans.len() - i,
    {
        let (start, end) = spans[i];
        proof {
            assert(spans@.take(i + 1).drop_last() == spans@.take(i as int));
            assert(spans@.take(i + 1).last() == spans@[i as int]);
        }
        if start < end && text.is_char_boundary(start) && text.is_char_boundary(end) {
            proof {
                encode_utf8_valid_utf8(text@);
                assert(end <= text.spec_bytes().len());
            }
            let value = stretch(text, start, end);
            let entity = Entity { entity_type: kind.clone(), value, start, end };
            proof {
                lemma_finds_push(out@, entity);
                assert(entity@ == span_find(kind@, text@, spans@[i as int]));
                assert(finds(out@).push(entity@) =~= finds(old(out)@) + span_finds(
                    kind@,
                    text@,
                    spans@.take(i + 1),
                ));
            }
            out.push(entity);
        }
        i = i + 1;
    }
    assert(spans@.take(spans.len() as int) == spans@);
}

/// Appends the finds of one literal value.
fn push_value_finds(out: &mut Vec<Entity>, kind: &EntityType, value: &String, text: &str)
    ensures
        finds(final(out)@) == finds(old(out)@) + value_finds(kind@, value@, text@),
{
    let needle = value.as_str().as_bytes();
    let hay = text.as_bytes();
    if needle.len() == 0 {
        proof {
            if value@.len() > 0 {
                lemma_encoding_not_empty(value@);
            }
            assert(finds(out@) =~= finds(old(out)@) + value_finds(kind@, value@, text@));
        }
        return ;
    }
    proof {
        assert(encode_utf8(value@).len() > 0);
        assert(value@.len() > 0);
    }
    let mut at: usize = 0;
    assert(finds(out@) =~= finds(old(out)@) + literal_finds(kind@, value@, text@, 0));
    while at < hay.len()
        invariant
            at <= hay.len(),
            hay@ == encode_utf8(text@),
            needle@ == encode_utf8(value@),
            needle@.len() > 0,
            finds(out@) == finds(old(out)@) + literal_finds(kind@, value@, text@, at as int),
        decreases hay.len() - at,
    {
        if bytes_match_at(hay, needle, at) {
            let entity = Entity {
                entity_type: kind.clone(),
                value: value.clone(),
                start: at,
                end: at + needle.len(),
            };
            proof {
                lemma_finds_push(out@, entity);
                assert(entity@ == literal_find(kind@, value@, at as int));
                assert(finds(out@).push(entity@) =~= finds(old(out)@) + literal_finds(
                    kind@,
                    value@,
                    text@,
                    at + 1,
                ));
            }
            out.push(entity);
        }
        at = at + 1;
    }
}

/// A text with a character in it has a byte in its encoding.
proof fn lemma_encoding_not_empty(chars: Seq<char>)
    requires
        chars.len() > 0,
    ensures
        encode_utf8(chars).len() > 0,
{
    assert(vstd::utf8::encode_scalar(chars[0] as u32).len() > 0);
}

/// Appends the finds of the literal values of one kind.
fn push_values_finds(out: &mut Vec<Entity>, kind: &EntityType, values: &Vec<String>, text: &str)
    ensures
        finds(final(out)@) == finds(old(out)@) + values_finds(kind@, texts(values@), text@),
{
    let mut i: usize = 0;
    assert(texts(values@).take(0) =~= Seq::empty());
    assert(finds(out@) =~= finds(old(out)@) + values_finds(
        kind@,
        texts(values@).take(0),
        text@,
    ));
    while i < values.len()
        invariant
            i <= values.len(),
            finds(out@) == finds(old(out)@) + values_finds(
                kind@,
                texts(values@).take(i as int),
                text@,
            ),
        decreases values.len() - i,
    {
        let ghost before = finds(out@);
        push_value_finds(out, kind, &values[i], text);
        proof {
            let upto = texts(values@).take(i + 1);
            assert(upto.drop_last() == texts(values@).take(i as int));
            assert(upto.last() == values@[i as int]@);
            assert(finds(out@) =~= finds(old(out)@) + values_finds(kind@, upto, text@));
        }
        i = i + 1;
    }
    assert(texts(values@).take(values.len() as int) == texts(values@));
}

/// A compiled pattern and the kind it finds.
struct Compiled {
    kind: EntityType,
    regex: regex::Regex,
}

/// Finds sensitive values: by the patterns of the kinds it was made for,
/// and by literal search for the values named with each call.
pub struct EntityDetector {
    patterns: Vec<Compiled>,
}

impl EntityDetector {
    #[verifier::type_invariant]
    spec fn well_formed(&self) -> bool {
        forall|i: int|
            0 <= i < self.patterns@.len() ==> compiled_pattern(
                builtin_pattern((#[trigger] self.patterns@[i]).kind@),
            ) == Some(self.patterns@[i].regex)
    }

    /// The kinds that are detected by pattern, in the order in which their
    /// finds are put forward.
    pub closed spec fn kinds(&self) -> Seq<Kind> {
        Seq::new(self.patterns@.len(), |i: int| self.patterns@[i].kind@)
    }

    /// A detector for the given kinds. Each kind is taken once, at its first
    /// place in the list.
    ///
    /// The kinds must be built in and their patterns must compile. The error
    /// speaks of the first kind in the list that is not so.
    pub fn new(entity_types: &[EntityType]) -> (made: Result<Self, AnonymaskError>)
        ensures
            made is Ok <==> forall|i: int|
                0 <= i < entity_types@.len() ==> has_pattern(#[trigger] entity_types@[i]@),
            made is Ok ==> made->Ok_0.kinds() == distinct_kinds(kinds_of(entity_types@)),
            made is Err ==> exists|i: int|
                0 <= i < entity_types@.len() && refused(
                    #[trigger] entity_types@[i]@,
                    made->Err_0,
                ) && forall|j: int| 0 <= j < i ==> has_pattern(#[trigger] entity_types@[j]@),
    {
        let mut patterns: Vec<Compiled> = Vec::new();
        let mut i: usize = 0;
        assert(kinds_of(entity_types@).take(0) =~= Seq::empty());
        while i < entity_types.len()
            invariant
                i <= entity_types.len(),
                forall|j: int| 0 <= j < i ==> has_pattern(#[trigger] entity_types@[j]@),
                forall|j: int|
                    0 <= j < patterns@.len() ==> compiled_pattern(
                        builtin_pattern((#[trigger] patterns@[j]).kind@),
                    ) == Some(patterns@[j].regex),
                Seq::new(patterns@.len(), |j: int| patterns@[j].kind@) == distinct_kinds(
                    kinds_of(entity_types@).take(i as int),
                ),
            decreases entity_types.len() - i,
        {
            let kind = &entity_types[i];
            let ghost before = Seq::new(patterns@.len(), |j: int| patterns@[j].kind@);
            proof {
                let upto = kinds_of(entity_types@).take(i + 1);
                assert(upto.drop_last() == kinds_of(entity_types@).take(i as int));
                assert(upto.last() == kind@);
            }
            let known = Self::holds(&patterns, kind);
            match Self::get_pattern(kind) {
                Ok(regex) => {
                    if !known {
                        patterns.push(Compiled { kind: kind.clone(), regex });
                        assert(Seq::new(patterns@.len(), |j: int| patterns@[j].kind@)
                            =~= before.push(kind@));
                    }
                },
                Err(error) => {
                    return Err(error);
                },
            }
            i = i + 1;
        }
        assert(kinds_of(entity_types@).take(entity_types@.len() as int) == kinds_of(
            entity_types@,
        ));
        Ok(EntityDetector { patterns })
    }

    /// Whether a pattern of `kind` is among `patterns`.
    fn holds(patterns: &Vec<Compiled>, kind: &EntityType) -> (known: bool)
        ensures
            known == Seq::new(patterns@.len(), |j: int| patterns@[j].kind@).contains(kind@),
    {
        let ghost kinds = Seq::new(patterns@.len(), |j: int| patterns@[j].kind@);
        let mut j: usize = 0;
        while j < patterns.len()
            invariant
                j <= patterns.len(),
                kinds == Seq::new(patterns@.len(), |j: int| patterns@[j].kind@),
                forall|k: int| 0 <= k < j ==> kinds[k] != kind@,
            decreases patterns.len() - j,
        {
            if patterns[j].kind == *kind {
                assert(kinds[j as int] == kind@);
                return true;
            }
            j = j + 1;
        }
        false
    }

    /// The compiled pattern of a kind.
    ///
    /// A custom kind has no pattern and is refused. A built-in kind is
    /// refused only if the pattern engine does not take its pattern.
    fn get_pattern(entity_type: &EntityType) -> (compiled: Result<regex::Regex, AnonymaskError>)
        ensures
            compiled is Ok <==> has_pattern(entity_type@),
            compiled is Ok ==> compiled_pattern(builtin_pattern(entity_type@)) == Some(
                compiled->Ok_0,
            ),
            compiled is Err ==> refused(entity_type@, compiled->Err_0),
    {
        let pattern_str = match entity_type {
            EntityType::Email => r"\b[A-Za-z0-9._%+-]+@[A-Za-z0-9.-]+\.[A-Z|a-z]{2,}\b",
            EntityType::Phone => r"\b(?:\+?1[-.\s]?)?\(?([0-9]{3})\)?[-.\s]?([0-9]{3})(?:[-.\s]?([0-9]{4}))?\b",
            EntityType::Ssn => r"\b\d{3}[-]?\d{2}[-]?\d{4}\b",
            EntityType::CreditCard => r"\b\d{4}[- ]?\d{4}[- ]?\d{4}[- ]?\d{4}\b",
            EntityType::IpAddress => r"\b(?:(?:25[0-5]|2[0-4][0-9]|[01]?[0-9][0-9]?)\.){3}(?:25[0-5]|2[0-4][0-9]|[01]?[0-9][0-9]?)\b",
            EntityType::Url => r"\bhttps?://(?:[a-zA-Z0-9-._~:/?#\[\]@!$&'()*+,;=]|%[0-9A-Fa-f]{2})+",
            EntityType::Custom(_) => {
                return Err(
                    AnonymaskError::InvalidEntityType {
                        entity_type: describe_kind(entity_type),
                        reason: "Custom entity types don't use regex patterns".to_owned(),
                    },
                );
            },
        };
        match compile(pattern_str) {
            Ok(regex) => Ok(regex),
            Err(source) => Err(
                AnonymaskError::RegexError { pattern: pattern_str.to_owned(), source },
            ),
        }
    }

    /// Finds the sensitive values in `text`.
    ///
    /// A named value is found wherever its bytes stand in the text, in its
    /// own spelling only and also inside a word. The empty value is found
    /// nowhere.
    ///
    /// The candidates are the matches of each pattern, pattern after
    /// pattern, and then every place at which one of the values in
    /// `custom_entities` stands, kind after kind and value after value.
    /// Of candidates that overlap, the one that starts first is accepted, and
    /// of two with one start the one that came first. The result is by
    /// rising start offset.
    pub fn detect(
        &self,
        text: &str,
        custom_entities: Option<&Vec<(EntityType, Vec<String>)>>,
    ) -> (entities: Vec<Entity>)
        ensures
            finds(entities@) == detected(self.kinds(), text@, customs_of(custom_entities)),
            all_lie_in(finds(entities@), text@),
            apart(finds(entities@)),
    {
        proof {
            use_type_invariant(self);
        }
        let mut found: Vec<Entity> = Vec::new();
        let mut i: usize = 0;
        assert(self.kinds().take(0) =~= Seq::empty());
        assert(finds(found@) =~= pattern_finds(self.kinds().take(0), text@));
        while i < self.patterns.len()
            invariant
                i <= self.patterns.len(),
                self.well_formed(),
                finds(found@) == pattern_finds(self.kinds().take(i as int), text@),
            decreases self.patterns.len() - i,
        {
            let spans = find_spans(&self.patterns[i].regex, text);
            let ghost before = finds(found@);
            push_span_finds(&mut found, &self.patterns[i].kind, text, &spans);
            proof {
                let upto = self.kinds().take(i + 1);
                assert(upto.drop_last() == self.kinds().take(i as int));
                assert(upto.last() == self.patterns@[i as int].kind@);
            }
            i = i + 1;
        }
        assert(self.kinds().take(self.patterns.len() as int) == self.kinds());
        let ghost custom = customs_of(custom_entities);
        match custom_entities {
            Some(list) => {
                let mut k: usize = 0;
                assert(custom.take(0) =~= Seq::empty());
                assert(finds(found@) =~= pattern_finds(self.kinds(), text@) + custom_finds(
                    custom.take(0),
                    text@,
                ));
                while k < list.len()
                    invariant
                        k <= list.len(),
                        custom == customs(list@),
                        finds(found@) == pattern_finds(self.kinds(), text@) + custom_finds(
                            custom.take(k as int),
                            text@,
                        ),
                            decreases list.len() - k,
                {
                    push_values_finds(&mut found, &list[k].0, &list[k].1, text);
                    proof {
                        let upto = custom.take(k + 1);
                        assert(upto.drop_last() == custom.take(k as int));
                        assert(upto.last() == custom[k as int]);
                        assert(finds(found@) =~= pattern_finds(self.kinds(), text@) + custom_finds(
                            upto,
                            text@,
                        ));
                    }
                    k = k + 1;
                }
                assert(custom.take(list.len() as int) == custom);
            },
            None => {
                assert(finds(found@) =~= pattern_finds(self.kinds(), text@) + custom_finds(
                    custom,
                    text@,
                ));
            },
        }
        let entities = resolve(found);
        proof {
            law_detected_positions(self.kinds(), text@, custom);
        }
        entities
    }
}

/// `error` is what refuses `kind` where a pattern is needed: a custom kind
/// has none, and the pattern of a built-in kind did not compile.
pub open spec fn refused(kind: Kind, error: AnonymaskError) -> bool {
    if kind.is_builtin() {
        !pattern_compiles(builtin_pattern(kind)) && error.refuses_pattern(builtin_pattern(kind))
    } else {
        error.refuses_kind(kind)
    }
}

} // verus!
