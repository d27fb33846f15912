//! The anonymizer: masks the sensitive values of a text and rewrites a
//! masked text back.

use crate::config::{AnonymizerConfig, Format, PlaceholderFormat, Policy};
use crate::detection::{
    all_lie_in, customs_of, detected, distinct_kinds, has_pattern, kinds_of, refused,
    EntityDetector,
};
use crate::entity::{finds, pairs, AnonymizationResult, Entity, EntityType, Found, Kind};
use crate::error::AnonymaskError;
use crate::order::{lemma_insert_ranked_at, stable_sort};
use crate::placeholder::{
    assigned, first_finds, format_placeholder, has_value, is_token, key_index, keys_distinct,
    lemma_first_finds_distinct, lemma_first_finds_grow, lemma_mapping_distinct, mapping_of,
    placeholder, random_token, uses_counter, uses_token, values_distinct,
};
use crate::resolver::apart;
use crate::text::{chars_of, replace_all, string_of, substituted};
use vstd::prelude::*;
use vstd::utf8::encode_utf8;

verus! {

/// The rank by which a mapping is put in order before a text is rewritten
/// back: the longer the placeholder is in bytes, the earlier it comes.
pub open spec fn longest_first() -> spec_fn((Seq<char>, Seq<char>)) -> int {
    |pair: (Seq<char>, Seq<char>)| -(encode_utf8(pair.0).len() as int)
}

/// The tokens that were drawn for `n` placeholders of a format: one for
/// each, and each a random token where the format takes one.
pub open spec fn drawn(format: Format, n: nat, tokens: Seq<Seq<char>>) -> bool {
    &&& tokens.len() == n
    &&& uses_token(format) ==> forall|i: int|
        0 <= i < tokens.len() ==> is_token(#[trigger] tokens[i])
}

/// How many numbers of the counter the placeholders for the first finds
/// take in a format.
pub open spec fn numbers_taken(format: Format, firsts: Seq<Found>) -> nat {
    if uses_counter(format) {
        firsts.len()
    } else {
        0
    }
}

/// Why masking fails: the counter has no number left.
pub open spec fn exhausted_reason() -> Seq<char> {
    "placeholder counter exhausted"@
}

/// The pairs of the first `n + 1` entries are those of the first `n` and
/// the pair of the next.
proof fn lemma_pairs_take(list: Seq<(String, String)>, n: int)
    requires
        0 <= n < list.len(),
    ensures
        pairs(list.take(n + 1)) == pairs(list.take(n)).push((list[n].0@, list[n].1@)),
        pairs(list.take(n + 1)).drop_last() == pairs(list.take(n)),
        pairs(list.take(n + 1)).last() == (list[n].0@, list[n].1@),
        pairs(list).take(n + 1) == pairs(list.take(n + 1)),
        pairs(list).take(n) == pairs(list.take(n)),
{
    assert(pairs(list.take(n + 1)) =~= pairs(list.take(n)).push((list[n].0@, list[n].1@)));
    assert(pairs(list.take(n + 1)).drop_last() =~= pairs(list.take(n)));
    assert(pairs(list).take(n + 1) =~= pairs(list.take(n + 1)));
    assert(pairs(list).take(n) =~= pairs(list.take(n)));
}

/// Applies the replacements `steps`, each a pair (from, to), one after the
/// other to the whole text.
pub fn substitute(text: &str, steps: &Vec<(String, String)>) -> (out: String)
    ensures
        out@ == substituted(text@, pairs(steps@)),
{
    let mut current = chars_of(text);
    let mut i: usize = 0;
    assert(pairs(steps@.take(0)) =~= Seq::empty());
    while i < steps.len()
        invariant
            i <= steps.len(),
            current@ == substituted(text@, pairs(steps@.take(i as int))),
        decreases steps.len() - i,
    {
        let from = chars_of(steps[i].0.as_str());
        let to = chars_of(steps[i].1.as_str());
        proof {
            lemma_pairs_take(steps@, i as int);
        }
        current = replace_all(&current, &from, &to);
        i = i + 1;
    }
    assert(steps@.take(steps.len() as int) == steps@);
    string_of(&current)
}

/// The mapping in the order in which a text is rewritten back: placeholders
/// that are longer in bytes first, those of one length in the order in
/// which they stand.
pub fn sort_longest_first(mapping: &Vec<(String, String)>) -> (sorted: Vec<(String, String)>)
    ensures
        pairs(sorted@) == stable_sort(pairs(mapping@), longest_first()),
{
    let mut sorted: Vec<(String, String)> = Vec::new();
    let mut i: usize = 0;
    assert(pairs(sorted@) =~= stable_sort(pairs(mapping@.take(0)), longest_first()));
    while i < mapping.len()
        invariant
            i <= mapping.len(),
            pairs(sorted@) == stable_sort(pairs(mapping@.take(i as int)), longest_first()),
        decreases mapping.len() - i,
    {
        let length = mapping[i].0.as_str().as_bytes().len();
        let mut at: usize = sorted.len();
        while at > 0 && sorted[at - 1].0.as_str().as_bytes().len() < length
            invariant
                at <= sorted.len(),
                length == encode_utf8(mapping@[i as int].0@).len(),
                forall|k: int|
                    at <= k < sorted.len() ==> encode_utf8(sorted@[k].0@).len() < length,
            decreases at,
        {
            at = at - 1;
        }
        let entry = (mapping[i].0.clone(), mapping[i].1.clone());
        proof {
            lemma_pairs_take(mapping@, i as int);
            let item = (mapping@[i as int].0@, mapping@[i as int].1@);
            lemma_insert_ranked_at(pairs(sorted@), item, longest_first(), at as int);
            assert(pairs(sorted@.insert(at as int, entry)) =~= pairs(sorted@).insert(
                at as int,
                item,
            ));
        }
        sorted.insert(at, entry);
        i = i + 1;
    }
    assert(mapping@.take(mapping.len() as int) == mapping@);
    sorted
}

/// The place of the first pair with the key, or the length of the list.
fn find_key(list: &Vec<(String, String)>, key: &String) -> (at: usize)
    ensures
        at == key_index(pairs(list@), key@),
        at <= list.len(),
{
    let mut at: usize = 0;
    assert(pairs(list@).skip(0) == pairs(list@));
    while at < list.len()
        invariant
            at <= list.len(),
            key_index(pairs(list@), key@) == at + key_index(pairs(list@).skip(at as int), key@),
        decreases list.len() - at,
    {
        proof {
            let rest = pairs(list@).skip(at as int);
            assert(rest[0] == pairs(list@)[at as int]);
            assert(rest.skip(1) == pairs(list@).skip(at + 1));
        }
        if list[at].0 == *key {
            return at;
        }
        at = at + 1;
    }
    at
}

/// The mapping (placeholder, value) that the replacements (value,
/// placeholder) leave.
pub fn build_mapping(steps: &Vec<(String, String)>) -> (mapping: Vec<(String, String)>)
    ensures
        pairs(mapping@) == mapping_of(pairs(steps@)),
{
    let mut mapping: Vec<(String, String)> = Vec::new();
    let mut i: usize = 0;
    assert(pairs(steps@.take(0)) =~= Seq::empty());
    assert(pairs(mapping@) =~= mapping_of(pairs(steps@.take(0))));
    while i < steps.len()
        invariant
            i <= steps.len(),
            pairs(mapping@) == mapping_of(pairs(steps@.take(i as int))),
        decreases steps.len() - i,
    {
        let at = find_key(&mapping, &steps[i].1);
        let entry = (steps[i].1.clone(), steps[i].0.clone());
        proof {
            lemma_pairs_take(steps@, i as int);
            let item = (steps@[i as int].1@, steps@[i as int].0@);
            if at < mapping.len() {
                assert(pairs(mapping@.update(at as int, entry)) =~= pairs(mapping@).update(
                    at as int,
                    item,
                ));
            } else {
                assert(pairs(mapping@.push(entry)) =~= pairs(mapping@).push(item));
            }
        }
        if at < mapping.len() {
            mapping.set(at, entry);
        } else {
            mapping.push(entry);
        }
        i = i + 1;
    }
    assert(steps@.take(steps.len() as int) == steps@);
    mapping
}

/// Masks the sensitive values of a text, each distinct value by one
/// placeholder, and rewrites a masked text back.
pub struct Anonymizer {
    detector: EntityDetector,
    config: AnonymizerConfig,
    counter: usize,
}

impl Anonymizer {
    /// The kinds that are detected by pattern.
    pub closed spec fn kinds(&self) -> Seq<Kind> {
        self.detector.kinds()
    }

    /// The policy that the anonymizer was made with.
    pub closed spec fn policy(&self) -> Policy {
        self.config@
    }

    /// The number that the last counted placeholder took; 0 before the
    /// first.
    pub closed spec fn count(&self) -> nat {
        self.counter as nat
    }

    /// An anonymizer for the given kinds with the standard policy.
    ///
    /// The kinds must be built in and their patterns must compile. The error
    /// speaks of the first kind in the list that is not so.
    pub fn new(entity_types: Vec<EntityType>) -> (made: Result<Self, AnonymaskError>)
        ensures
            made is Ok <==> forall|i: int|
                0 <= i < entity_types@.len() ==> has_pattern(#[trigger] entity_types@[i]@),
            made is Ok ==> {
                &&& made->Ok_0.kinds() == distinct_kinds(kinds_of(entity_types@))
                &&& made->Ok_0.policy() == Policy::standard()
                &&& made->Ok_0.count() == 0
            },
            made is Err ==> exists|i: int|
                0 <= i < entity_types@.len() && refused(
                    #[trigger] entity_types@[i]@,
                    made->Err_0,
                ) && forall|j: int| 0 <= j < i ==> has_pattern(#[trigger] entity_types@[j]@),
    {
        Self::with_config(entity_types, AnonymizerConfig::default())
    }

    /// An anonymizer for the given kinds with the given policy.
    ///
    /// The kinds must be built in and their patterns must compile. The error
    /// speaks of the first kind in the list that is not so.
    pub fn with_config(entity_types: Vec<EntityType>, config: AnonymizerConfig) -> (made: Result<
        Self,
        AnonymaskError,
    >)
        ensures
            made is Ok <==> forall|i: int|
                0 <= i < entity_types@.len() ==> has_pattern(#[trigger] entity_types@[i]@),
            made is Ok ==> {
                &&& made->Ok_0.kinds() == distinct_kinds(kinds_of(entity_types@))
                &&& made->Ok_0.policy() == config@
                &&& made->Ok_0.count() == 0
            },
            made is Err ==> exists|i: int|
                0 <= i < entity_types@.len() && refused(
                    #[trigger] entity_types@[i]@,
                    made->Err_0,
                ) && forall|j: int| 0 <= j < i ==> has_pattern(#[trigger] entity_types@[j]@),
    {
        match EntityDetector::new(entity_types.as_slice()) {
            Ok(detector) => Ok(Anonymizer { detector, config, counter: 0 }),
            Err(error) => Err(error),
        }
    }

    /// Masks the sensitive values that the patterns find in `text`.
    ///
    /// This is [`Anonymizer::anonymize_with_custom`] with no named values.
    pub fn anonymize(&mut self, text: &str) -> (outcome: Result<
        AnonymizationResult,
        AnonymaskError,
    >)
        ensures
            masked(*old(self), *final(self), text@, Seq::empty(), outcome),
    {
        self.anonymize_with_custom(text, None)
    }

    /// Masks the sensitive values in `text`: those that the patterns find
    /// and those named in `custom_entities`.
    ///
    /// Each distinct value among the entities gets one placeholder, in the
    /// order in which the values first occur, and every occurrence of the
    /// value in the text is replaced by it, value after value. Formats that
    /// count take the next numbers of the counter, which fails only when the
    /// counter has none left; the anonymizer is then left as it was.
    pub fn anonymize_with_custom(
        &mut self,
        text: &str,
        custom_entities: Option<&Vec<(EntityType, Vec<String>)>>,
    ) -> (outcome: Result<AnonymizationResult, AnonymaskError>)
        ensures
            masked(*old(self), *final(self), text@, customs_of(custom_entities), outcome),
    {
        let entities = self.detector.detect(text, custom_entities);
        match self.assign(&entities) {
            None => Err(
                AnonymaskError::AnonymizationError("placeholder counter exhausted".to_owned()),
            ),
            Some((steps, count)) => {
                let mapping = build_mapping(&steps);
                let anonymized_text = substitute(text, &steps);
                proof {
                    lemma_first_finds_distinct(finds(entities@));
                    lemma_mapping_distinct(pairs(steps@));
                }
                self.counter = count;
                Ok(AnonymizationResult { anonymized_text, mapping, entities })
            },
        }
    }

    /// The replacements (value, placeholder) for the distinct values among
    /// the entities, in the order in which the values first occur, and the
    /// counter after them; nothing where the counter has too few numbers
    /// left.
    fn assign(&self, entities: &Vec<Entity>) -> (made: Option<(Vec<(String, String)>, usize)>)
        ensures
            made is Some <==> self.count() + numbers_taken(
                self.policy().format,
                first_finds(finds(entities@)),
            ) <= usize::MAX,
            made is Some ==> {
                &&& made->Some_0.1 == self.count() + numbers_taken(
                    self.policy().format,
                    first_finds(finds(entities@)),
                )
                &&& exists|tokens: Seq<Seq<char>>|
                    {
                        &&& drawn(
                            self.policy().format,
                            first_finds(finds(entities@)).len(),
                            tokens,
                        )
                        &&& pairs(made->Some_0.0@) == #[trigger] assigned(
                            self.policy().format,
                            self.count(),
                            first_finds(finds(entities@)),
                            tokens,
                        )
                    }
            },
    {
        let counted = !matches!(self.config.placeholder_format, PlaceholderFormat::Standard);
        let ghost format = self.config.placeholder_format@;
        let ghost start = self.counter as nat;
        let ghost found = finds(entities@);
        let mut count: usize = self.counter;
        let mut steps: Vec<(String, String)> = Vec::new();
        let ghost mut tokens: Seq<Seq<char>> = Seq::empty();
        let mut i: usize = 0;
        assert(found.take(0) =~= Seq::empty());
        assert(pairs(steps@) =~= assigned(format, start, first_finds(found.take(0)), tokens));
        while i < entities.len()
            invariant
                i <= entities.len(),
                found == finds(entities@),
                format == self.config.placeholder_format@,
                counted == uses_counter(format),
                start == self.counter,
                drawn(format, first_finds(found.take(i as int)).len(), tokens),
                pairs(steps@) == assigned(format, start, first_finds(found.take(i as int)), tokens),
                steps@.len() == first_finds(found.take(i as int)).len(),
                count == start + numbers_taken(format, first_finds(found.take(i as int))),
            decreases entities.len() - i,
        {
            let ghost firsts = first_finds(found.take(i as int));
            let ghost entity = entities@[i as int]@;
            proof {
                assert(found.take(i + 1).drop_last() == found.take(i as int));
                assert(found.take(i + 1).last() == entity);
            }
            let known = has_step(&steps, &entities[i].value);
            proof {
                if known {
                    let k = choose|k: int|
                        0 <= k < steps@.len() && (#[trigger] steps@[k]).0@ == entity.value;
                    assert(pairs(steps@)[k].0 == firsts[k].value);
                } else {
                    assert forall|k: int| 0 <= k < firsts.len() implies (
                    #[trigger] firsts[k]).value != entity.value by {
                        assert(pairs(steps@)[k].0 == firsts[k].value);
                    }
                }
                assert(known == has_value(firsts, entity.value));
            }
            if !known {
                if counted {
                    if count == usize::MAX {
                        proof {
                            lemma_first_finds_grow(found, i + 1);
                        }
                        return None;
                    }
                    count = count + 1;
                }
                let written = self.generate_placeholder(&entities[i].entity_type, count);
                let ghost token = choose|token: Seq<char>|
                    (uses_token(format) ==> is_token(token)) && written@ == #[trigger] placeholder(
                        format,
                        entity.kind,
                        token,
                        count as nat,
                    );
                let step = (entities[i].value.clone(), written);
                proof {
                    let grown = tokens.push(token);
                    let wanted = assigned(format, start, firsts.push(entity), grown);
                    assert forall|k: int| 0 <= k < wanted.len() implies pairs(steps@.push(step))[k]
                        == wanted[k] by {
                        if k < steps@.len() {
                            assert(pairs(steps@)[k] == assigned(format, start, firsts, tokens)[k]);
                        }
                    }
                    assert(pairs(steps@.push(step)) =~= wanted);
                    tokens = grown;
                }
                steps.push(step);
            }
            i = i + 1;
        }
        proof {
            assert(found.take(entities@.len() as int) == found);
            assert(self.policy().format == format);
            assert(drawn(format, first_finds(found).len(), tokens));
            assert(pairs(steps@) == assigned(format, self.count(), first_finds(found), tokens));
        }
        Some((steps, count))
    }

    /// Rewrites a masked text back: every occurrence of each placeholder of
    /// the mapping is replaced by its value, entry after entry, entries with
    /// longer placeholders first. What is in the text and not in the mapping
    /// stays.
    pub fn deanonymize(&self, text: &str, mapping: &Vec<(String, String)>) -> (restored: String)
        ensures
            restored@ == substituted(text@, stable_sort(pairs(mapping@), longest_first())),
    {
        let ordered = sort_longest_first(mapping);
        substitute(text, &ordered)
    }

    /// A placeholder for a value of the given kind, in the format of the
    /// policy, with a fresh token where the format takes one and with the
    /// number `count`.
    fn generate_placeholder(&self, entity_type: &EntityType, count: usize) -> (text: String)
        ensures
            exists|token: Seq<char>|
                (uses_token(self.policy().format) ==> is_token(token)) && text@
                    == #[trigger] placeholder(
                    self.policy().format,
                    entity_type@,
                    token,
                    count as nat,
                ),
    {
        match self.config.placeholder_format {
            PlaceholderFormat::Short => {
                let format = &self.config.placeholder_format;
                let text = format_placeholder(format, entity_type, "", count);
                assert(text@ == placeholder(format@, entity_type@, ""@, count as nat));
                text
            },
            _ => {
                let format = &self.config.placeholder_format;
                let token = random_token();
                let text = format_placeholder(format, entity_type, token.as_str(), count);
                assert(text@ == placeholder(format@, entity_type@, token@, count as nat));
                text
            },
        }
    }
}

/// Whether one of the replacements is for the value.
fn has_step(steps: &Vec<(String, String)>, value: &String) -> (known: bool)
    ensures
        known == exists|k: int| 0 <= k < steps@.len() && (#[trigger] steps@[k]).0@ == value@,
{
    let mut k: usize = 0;
    while k < steps.len()
        invariant
            k <= steps.len(),
            forall|j: int| 0 <= j < k ==> (#[trigger] steps@[j]).0@ != value@,
        decreases steps.len() - k,
    {
        if steps[k].0 == *value {
            return true;
        }
        k = k + 1;
    }
    false
}

/// What a call of [`Anonymizer::anonymize_with_custom`] on `text` with the
/// named values `custom` does: `before` and `after` are the anonymizer
/// before and after the call, `outcome` is what the call returns.
pub open spec fn masked(
    before: Anonymizer,
    after: Anonymizer,
    text: Seq<char>,
    custom: Seq<(Kind, Seq<Seq<char>>)>,
    outcome: Result<AnonymizationResult, AnonymaskError>,
) -> bool {
    let found = detected(before.kinds(), text, custom);
    let firsts = first_finds(found);
    let format = before.policy().format;
    let needed = numbers_taken(format, firsts);
    &&& after.kinds() == before.kinds()
    &&& after.policy() == before.policy()
    &&& outcome is Ok <==> before.count() + needed <= usize::MAX
    &&& outcome is Err ==> {
        &&& after.count() == before.count()
        &&& outcome->Err_0 matches AnonymaskError::AnonymizationError(reason)
        &&& reason@ == exhausted_reason()
    }
    &&& outcome is Ok ==> {
        &&& after.count() == before.count() + needed
        &&& finds(outcome->Ok_0.entities@) == found
        &&& all_lie_in(found, text)
        &&& apart(found)
        &&& keys_distinct(pairs(outcome->Ok_0.mapping@))
        &&& values_distinct(pairs(outcome->Ok_0.mapping@))
        &&& exists|tokens: Seq<Seq<char>>|
            {
                &&& drawn(format, firsts.len(), tokens)
                &&& outcome->Ok_0.anonymized_text@ == substituted(
                    text,
                    #[trigger] assigned(format, before.count(), firsts, tokens),
                )
                &&& pairs(outcome->Ok_0.mapping@) == mapping_of(
                    assigned(format, before.count(), firsts, tokens),
                )
            }
    }
}

} // verus!
