//! Placeholders: how one is written, and which value gets which.

use crate::config::{Format, PlaceholderFormat};
use crate::entity::{EntityType, Found, Kind};
use crate::text::{
    chars_of, decimal, decimal_string, replace_all, replaced, string_of, to_uppercase, uppercase,
};
use vstd::prelude::*;
use vstd::string::StringExecFns;

verus! {

/// A digit or one of the small letters a to f.
pub open spec fn is_lower_hex(c: char) -> bool {
    ('0' <= c && c <= '9') || ('a' <= c && c <= 'f')
}

/// A random token: 32 characters, each a digit or a small letter a to f.
pub open spec fn is_token(token: Seq<char>) -> bool {
    &&& token.len() == 32
    &&& forall|i: int| 0 <= i < token.len() ==> is_lower_hex(#[trigger] token[i])
}

/// A fresh random token: a version-4 UUID from `uuid::Uuid::new_v4`, written
/// by its `simple` form as 32 hexadecimal digits in small letters without
/// hyphens. Which token comes is left open.
#[verifier::external_body]
pub(crate) fn random_token() -> (token: String)
    ensures
        is_token(token@),
{
    uuid::Uuid::new_v4().simple().to_string()
}

/// The name of a kind as placeholders carry it: in capitals.
pub open spec fn label(kind: Kind) -> Seq<char> {
    match kind {
        Kind::Email => "EMAIL"@,
        Kind::Phone => "PHONE"@,
        Kind::Ssn => "SSN"@,
        Kind::CreditCard => "CREDIT_CARD"@,
        Kind::IpAddress => "IP_ADDRESS"@,
        Kind::Url => "URL"@,
        Kind::Custom(name) => uppercase(name),
    }
}

/// The placeholder of a kind in a format, with the token and the number that
/// are at hand. The standard format uses the token, the short format the
/// number; a template has `{type}`, then `{uuid}`, then `{counter}`
/// replaced throughout.
pub open spec fn placeholder(format: Format, kind: Kind, token: Seq<char>, count: nat) -> Seq<
    char,
> {
    match format {
        Format::Standard => label(kind) + "_"@ + token,
        Format::Short => label(kind) + "_"@ + decimal(count),
        Format::Custom(template) => replaced(
            replaced(replaced(template, "{type}"@, label(kind)), "{uuid}"@, token),
            "{counter}"@,
            decimal(count),
        ),
    }
}

/// Whether placeholders of a format take a number from the counter.
pub open spec fn uses_counter(format: Format) -> bool {
    !(format is Standard)
}

/// Whether placeholders of a format take a random token.
pub open spec fn uses_token(format: Format) -> bool {
    !(format is Short)
}

/// The name of a kind as placeholders carry it.
pub fn kind_label(kind: &EntityType) -> (text: String)
    ensures
        text@ == label(kind@),
{
    match kind {
        EntityType::Email => "EMAIL".to_owned(),
        EntityType::Phone => "PHONE".to_owned(),
        EntityType::Ssn => "SSN".to_owned(),
        EntityType::CreditCard => "CREDIT_CARD".to_owned(),
        EntityType::IpAddress => "IP_ADDRESS".to_owned(),
        EntityType::Url => "URL".to_owned(),
        EntityType::Custom(name) => to_uppercase(name.as_str()),
    }
}

/// Writes the placeholder of a kind in a format, with the token and the
/// number that are at hand.
pub fn format_placeholder(
    format: &PlaceholderFormat,
    kind: &EntityType,
    token: &str,
    count: usize,
) -> (text: String)
    ensures
        text@ == placeholder(format@, kind@, token@, count as nat),
{
    let name = kind_label(kind);
    match format {
        PlaceholderFormat::Standard => name.concat("_").concat(token),
        PlaceholderFormat::Short => {
            let number = decimal_string(count);
            name.concat("_").concat(number.as_str())
        },
        PlaceholderFormat::Custom(template) => {
            let number = decimal_string(count);
            let with_type = replace_all(
                &chars_of(template.as_str()),
                &chars_of("{type}"),
                &chars_of(name.as_str()),
            );
            let with_token = replace_all(&with_type, &chars_of("{uuid}"), &chars_of(token));
            let with_count = replace_all(
                &with_token,
                &chars_of("{counter}"),
                &chars_of(number.as_str()),
            );
            string_of(&with_count)
        },
    }
}

/// Whether one of the finds has the value.
pub open spec fn has_value(list: Seq<Found>, value: Seq<char>) -> bool {
    exists|i: int| 0 <= i < list.len() && (#[trigger] list[i]).value == value
}

/// For each distinct value among the finds, the first find that has it, in
/// the order of the finds.
pub open spec fn first_finds(entities: Seq<Found>) -> Seq<Found>
    decreases entities.len(),
{
    if entities.len() == 0 {
        entities
    } else {
        let before = first_finds(entities.drop_last());
        if has_value(before, entities.last().value) {
            before
        } else {
            before.push(entities.last())
        }
    }
}

/// The replacements (value, placeholder) for the distinct values: the value
/// at place `i` gets the placeholder of its kind with the token at place `i`
/// and the number `start + i + 1`.
pub open spec fn assigned(
    format: Format,
    start: nat,
    firsts: Seq<Found>,
    tokens: Seq<Seq<char>>,
) -> Seq<(Seq<char>, Seq<char>)> {
    Seq::new(
        firsts.len(),
        |i: int|
            (
                firsts[i].value,
                placeholder(format, firsts[i].kind, tokens[i], (start + i + 1) as nat),
            ),
    )
}

/// The place of the first pair with the key, or the length of the list.
pub open spec fn key_index(list: Seq<(Seq<char>, Seq<char>)>, key: Seq<char>) -> int
    decreases list.len(),
{
    if list.len() == 0 {
        0
    } else if list[0].0 == key {
        0
    } else {
        1 + key_index(list.skip(1), key)
    }
}

/// The list of pairs (key, value) with the value of `key` set: in place
/// where the key is in the list, else at the end.
pub open spec fn with_entry(
    list: Seq<(Seq<char>, Seq<char>)>,
    key: Seq<char>,
    value: Seq<char>,
) -> Seq<(Seq<char>, Seq<char>)> {
    if key_index(list, key) < list.len() {
        list.update(key_index(list, key), (key, value))
    } else {
        list.push((key, value))
    }
}

/// The mapping (placeholder, value) that replacements (value, placeholder)
/// leave: one entry for each placeholder, in the order in which the
/// placeholders were first given out. Where one placeholder was given to
/// several values, its entry has the last of them.
pub open spec fn mapping_of(steps: Seq<(Seq<char>, Seq<char>)>) -> Seq<(Seq<char>, Seq<char>)>
    decreases steps.len(),
{
    if steps.len() == 0 {
        Seq::empty()
    } else {
        with_entry(mapping_of(steps.drop_last()), steps.last().1, steps.last().0)
    }
}

/// No key stands twice in the list.
pub open spec fn keys_distinct(list: Seq<(Seq<char>, Seq<char>)>) -> bool {
    forall|i: int, j: int| 0 <= i < j < list.len() ==> list[i].0 != list[j].0
}

/// No value stands twice in the list.
pub open spec fn values_distinct(list: Seq<(Seq<char>, Seq<char>)>) -> bool {
    forall|i: int, j: int| 0 <= i < j < list.len() ==> list[i].1 != list[j].1
}

/// No value stands twice among the first finds.
pub proof fn lemma_first_finds_distinct(entities: Seq<Found>)
    ensures
        forall|i: int, j: int|
            0 <= i < j < first_finds(entities).len() ==> first_finds(entities)[i].value
                != first_finds(entities)[j].value,
    decreases entities.len(),
{
    if entities.len() > 0 {
        lemma_first_finds_distinct(entities.drop_last());
    }
}

/// Every first find is one of the finds.
pub proof fn lemma_first_finds_members(entities: Seq<Found>)
    ensures
        forall|i: int|
            0 <= i < first_finds(entities).len() ==> entities.contains(
                #[trigger] first_finds(entities)[i],
            ),
    decreases entities.len(),
{
    if entities.len() > 0 {
        let before = first_finds(entities.drop_last());
        lemma_first_finds_members(entities.drop_last());
        assert forall|i: int| 0 <= i < first_finds(entities).len() implies entities.contains(
            #[trigger] first_finds(entities)[i],
        ) by {
            if i < before.len() {
                assert(entities.drop_last().contains(before[i]));
                let k = choose|k: int|
                    0 <= k < entities.drop_last().len() && entities.drop_last()[k] == before[i];
                assert(entities[k] == before[i]);
            } else {
                assert(entities[entities.len() - 1] == first_finds(entities)[i]);
            }
        }
    }
}

/// The first finds of a sequence start with the first finds of each of its
/// beginnings.
pub proof fn lemma_first_finds_grow(entities: Seq<Found>, n: int)
    requires
        0 <= n <= entities.len(),
    ensures
        first_finds(entities.take(n)).len() <= first_finds(entities).len(),
    decreases entities.len() - n,
{
    if n < entities.len() {
        lemma_first_finds_grow(entities, n + 1);
        assert(entities.take(n + 1).drop_last() == entities.take(n));
    } else {
        assert(entities.take(n) == entities);
    }
}

/// Where the key index is: at the first pair with the key, or at the end
/// where no pair has it.
pub proof fn lemma_key_index(list: Seq<(Seq<char>, Seq<char>)>, key: Seq<char>)
    ensures
        0 <= key_index(list, key) <= list.len(),
        key_index(list, key) < list.len() ==> list[key_index(list, key)].0 == key,
        forall|i: int| 0 <= i < key_index(list, key) ==> list[i].0 != key,
    decreases list.len(),
{
    if list.len() > 0 && list[0].0 != key {
        lemma_key_index(list.skip(1), key);
        assert forall|i: int| 0 <= i < key_index(list, key) implies list[i].0 != key by {
            if i > 0 {
                assert(list.skip(1)[i - 1] == list[i]);
            }
        }
    }
}

/// A mapping holds no placeholder twice. Where no value is replaced twice,
/// it holds no value twice either, and each of its values is one of those
/// replaced.
pub proof fn lemma_mapping_distinct(steps: Seq<(Seq<char>, Seq<char>)>)
    ensures
        keys_distinct(mapping_of(steps)),
        mapping_of(steps).len() <= steps.len(),
        forall|i: int|
            0 <= i < mapping_of(steps).len() ==> exists|k: int|
                0 <= k < steps.len() && steps[k].0 == (#[trigger] mapping_of(steps)[i]).1,
        (forall|i: int, j: int| 0 <= i < j < steps.len() ==> steps[i].0 != steps[j].0)
            ==> values_distinct(mapping_of(steps)),
    decreases steps.len(),
{
    if steps.len() > 0 {
        let before = mapping_of(steps.drop_last());
        let key = steps.last().1;
        let value = steps.last().0;
        let after = mapping_of(steps);
        lemma_mapping_distinct(steps.drop_last());
        lemma_key_index(before, key);
        let at = key_index(before, key);
        assert forall|i: int| 0 <= i < after.len() implies exists|k: int|
            0 <= k < steps.len() && steps[k].0 == (#[trigger] after[i]).1 by {
            if i == at {
                assert(steps[steps.len() - 1].0 == after[i].1);
            } else {
                assert(after[i] == before[i]);
                let k = choose|k: int|
                    0 <= k < steps.drop_last().len() && steps.drop_last()[k].0 == before[i].1;
                assert(steps[k].0 == after[i].1);
            }
        }
        if forall|i: int, j: int| 0 <= i < j < steps.len() ==> steps[i].0 != steps[j].0 {
            assert forall|i: int, j: int| 0 <= i < j < after.len() implies after[i].1
                != after[j].1 by {
                if i != at && j != at {
                    assert(after[i] == before[i]);
                    assert(after[j] == before[j]);
                } else {
                    let other = if i == at {
                        j
                    } else {
                        i
                    };
                    assert(after[other] == before[other]);
                    let k = choose|k: int|
                        0 <= k < steps.drop_last().len() && steps.drop_last()[k].0
                            == before[other].1;
                    assert(steps[k].0 != steps[steps.len() - 1].0);
                }
            }
        }
    }
}

} // verus!
