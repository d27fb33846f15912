//! What holds of masking and rewriting back, for every text.

use crate::anonymizer::longest_first;
use crate::detection::{
    all_lie_in, candidates, custom_finds, detected, literal_finds, pattern_finds, span_find,
    span_finds, span_fits, value_finds, values_finds,
};
use crate::entity::{Found, Kind};
use crate::pattern::{builtin_pattern, pattern_spans};
use crate::resolver::{apart, lemma_resolved};
use crate::mixed::{
    held_text, is_plain, lemma_all_plain, lemma_hits_are_pieces, lemma_only_shown,
    lemma_parsed_filled, lemma_plain_pieces, lemma_shows_none, mask_pieces, parsed, plain_pieces,
    shown_text, shows, unmask_pieces, Piece,
};
use crate::order::{
    lemma_stable_sort_distinct, lemma_stable_sort_members, lemma_stable_sort_ordered,
    lemma_stable_sort_permutes, stable_sort,
};
use crate::overlap::{
    clash, crosses, crosses_itself, crossing, lemma_crossing_clashes, lemma_crossing_skip,
    lemma_matches_skip, lemma_occurs_in_parts, lemma_replaced_absent, lemma_replaced_skip,
    overlaps_at, unbordered,
};
use crate::config::Format;
use crate::placeholder::{
    assigned, first_finds, key_index, lemma_first_finds_distinct, lemma_first_finds_members,
    lemma_key_index, mapping_of,
};
use crate::text::{hits, matches_at, occurs_in, replaced, substituted};
use vstd::prelude::*;
use vstd::utf8::{
    decode_utf8_encode_utf8, encode_utf8, encode_utf8_valid_utf8,
    is_char_boundary_iff_not_is_continuation_byte, valid_utf8_split,
};

verus! {

/// The find of a span that can be taken from the text lies in the text.
pub proof fn lemma_span_find_lies_in(kind: Kind, text: Seq<char>, span: (usize, usize))
    requires
        span_fits(text, span),
    ensures
        span_find(kind, text, span).lies_in(text),
{
    let bytes = encode_utf8(text);
    let start = span.0 as int;
    let end = span.1 as int;
    let front = bytes.subrange(0, end);
    encode_utf8_valid_utf8(text);
    valid_utf8_split(bytes, end);
    is_char_boundary_iff_not_is_continuation_byte(bytes, start);
    is_char_boundary_iff_not_is_continuation_byte(front, start);
    valid_utf8_split(front, start);
    assert(front.subrange(start, front.len() as int) =~= bytes.subrange(start, end));
    decode_utf8_encode_utf8(bytes.subrange(start, end));
}

proof fn lemma_span_finds_lie_in(kind: Kind, text: Seq<char>, spans: Seq<(usize, usize)>)
    ensures
        all_lie_in(span_finds(kind, text, spans), text),
    decreases spans.len(),
{
    if spans.len() > 0 {
        lemma_span_finds_lie_in(kind, text, spans.drop_last());
        if span_fits(text, spans.last()) {
            lemma_span_find_lies_in(kind, text, spans.last());
        }
    }
}

proof fn lemma_joined_lie_in(a: Seq<Found>, b: Seq<Found>, text: Seq<char>)
    requires
        all_lie_in(a, text),
        all_lie_in(b, text),
    ensures
        all_lie_in(a + b, text),
{
    assert forall|i: int| 0 <= i < (a + b).len() implies (#[trigger] (a + b)[i]).lies_in(text) by {
        if i < a.len() {
            assert((a + b)[i] == a[i]);
        } else {
            assert((a + b)[i] == b[i - a.len()]);
        }
    }
}

proof fn lemma_pattern_finds_lie_in(kinds: Seq<Kind>, text: Seq<char>)
    ensures
        all_lie_in(pattern_finds(kinds, text), text),
    decreases kinds.len(),
{
    if kinds.len() > 0 {
        lemma_pattern_finds_lie_in(kinds.drop_last(), text);
        let spans = pattern_spans(builtin_pattern(kinds.last()), text);
        lemma_span_finds_lie_in(kinds.last(), text, spans);
        lemma_joined_lie_in(
            pattern_finds(kinds.drop_last(), text),
            span_finds(kinds.last(), text, spans),
            text,
        );
    }
}

proof fn lemma_literal_finds_lie_in(kind: Kind, value: Seq<char>, text: Seq<char>, upto: int)
    requires
        value.len() > 0,
    ensures
        all_lie_in(literal_finds(kind, value, text, upto), text),
    decreases upto,
{
    if upto > 0 {
        lemma_literal_finds_lie_in(kind, value, text, upto - 1);
        assert(vstd::utf8::encode_scalar(value[0] as u32).len() > 0);
        assert(encode_utf8(value).len() > 0);
    }
}

proof fn lemma_values_finds_lie_in(kind: Kind, values: Seq<Seq<char>>, text: Seq<char>)
    ensures
        all_lie_in(values_finds(kind, values, text), text),
    decreases values.len(),
{
    if values.len() > 0 {
        lemma_values_finds_lie_in(kind, values.drop_last(), text);
        if values.last().len() > 0 {
            lemma_literal_finds_lie_in(kind, values.last(), text, encode_utf8(text).len() as int);
        }
        lemma_joined_lie_in(
            values_finds(kind, values.drop_last(), text),
            value_finds(kind, values.last(), text),
            text,
        );
    }
}

proof fn lemma_custom_finds_lie_in(custom: Seq<(Kind, Seq<Seq<char>>)>, text: Seq<char>)
    ensures
        all_lie_in(custom_finds(custom, text), text),
    decreases custom.len(),
{
    if custom.len() > 0 {
        lemma_custom_finds_lie_in(custom.drop_last(), text);
        lemma_values_finds_lie_in(custom.last().0, custom.last().1, text);
        lemma_joined_lie_in(
            custom_finds(custom.drop_last(), text),
            values_finds(custom.last().0, custom.last().1, text),
            text,
        );
    }
}

/// Every entity that is detected in a text is a stretch of the text that is
/// not empty and reads the entity's value, and each entity ends before the
/// next one starts.
pub proof fn law_detected_positions(
    kinds: Seq<Kind>,
    text: Seq<char>,
    custom: Seq<(Kind, Seq<Seq<char>>)>,
)
    ensures
        all_lie_in(detected(kinds, text, custom), text),
        apart(detected(kinds, text, custom)),
        forall|i: int, j: int|
            0 <= i < j < detected(kinds, text, custom).len() ==> (#[trigger] detected(
                kinds,
                text,
                custom,
            )[i]).start < (#[trigger] detected(kinds, text, custom)[j]).start,
{
    let all = candidates(kinds, text, custom);
    lemma_pattern_finds_lie_in(kinds, text);
    lemma_custom_finds_lie_in(custom, text);
    lemma_joined_lie_in(pattern_finds(kinds, text), custom_finds(custom, text), text);
    lemma_resolved(all);
    let found = detected(kinds, text, custom);
    assert forall|i: int| 0 <= i < found.len() implies (#[trigger] found[i]).lies_in(text) by {
        assert(found.contains(found[i]));
        assert(all.contains(found[i]));
        let k = choose|k: int| 0 <= k < all.len() && all[k] == found[i];
        assert(all[k].lies_in(text));
    }
    assert forall|i: int| 0 <= i < all.len() implies all[i].start <= all[i].end by {
        assert(all[i].lies_in(text));
    }
    assert forall|i: int, j: int| 0 <= i < j < found.len() implies found[i].start
        < found[j].start by {
        assert(found[i].lies_in(text));
        assert(found[i].end <= found[j].start);
    }
}

/// A text is rewritten back with the entries of the mapping in the order of
/// their placeholders' lengths in bytes, the longest first: the order holds
/// the entries of the mapping, each as often as the mapping does, and no
/// entry comes before one with a longer placeholder.
pub proof fn law_longest_first(mapping: Seq<(Seq<char>, Seq<char>)>)
    ensures
        stable_sort(mapping, longest_first()).to_multiset() == mapping.to_multiset(),
        forall|i: int, j: int|
            0 <= i < j < mapping.len() ==> encode_utf8(
                stable_sort(mapping, longest_first())[i].0,
            ).len() >= encode_utf8(stable_sort(mapping, longest_first())[j].0).len(),
{
    lemma_stable_sort_ordered(mapping, longest_first());
    lemma_stable_sort_permutes(mapping, longest_first());
    let order = stable_sort(mapping, longest_first());
    assert forall|i: int, j: int| 0 <= i < j < mapping.len() implies encode_utf8(
        order[i].0,
    ).len() >= encode_utf8(order[j].0).len() by {
        assert(longest_first()(order[i]) <= longest_first()(order[j]));
    }
}

/// Nothing is detected in the empty text, so that masking it replaces
/// nothing and leaves an empty mapping.
pub proof fn law_empty_text(
    kinds: Seq<Kind>,
    custom: Seq<(Kind, Seq<Seq<char>>)>,
    format: Format,
    start: nat,
    tokens: Seq<Seq<char>>,
)
    ensures
        detected(kinds, Seq::empty(), custom).len() == 0,
        assigned(format, start, first_finds(detected(kinds, Seq::empty(), custom)), tokens).len()
            == 0,
        substituted(
            Seq::empty(),
            assigned(format, start, first_finds(detected(kinds, Seq::empty(), custom)), tokens),
        ) == Seq::<char>::empty(),
        mapping_of(
            assigned(format, start, first_finds(detected(kinds, Seq::empty(), custom)), tokens),
        ).len() == 0,
{
    let text = Seq::<char>::empty();
    let found = detected(kinds, text, custom);
    law_detected_positions(kinds, text, custom);
    if found.len() > 0 {
        assert(found[0].lies_in(text));
        assert(encode_utf8(text).len() == 0);
    }
}

/// The values that masking replaces are not empty, and none is replaced
/// twice.
///
/// The replacements are those for the first finds among the entities found
/// in `text`, whatever the format, the counter and the tokens are.
pub proof fn law_replaced_values(
    text: Seq<char>,
    found: Seq<Found>,
    format: Format,
    start: nat,
    tokens: Seq<Seq<char>>,
)
    requires
        all_lie_in(found, text),
    ensures
        forall|k: int|
            0 <= k < first_finds(found).len() ==> (#[trigger] assigned(
                format,
                start,
                first_finds(found),
                tokens,
            )[k]).0.len() > 0,
        forall|j: int, k: int|
            0 <= j < k < first_finds(found).len() ==> (#[trigger] assigned(
                format,
                start,
                first_finds(found),
                tokens,
            )[j]).0 != (#[trigger] assigned(format, start, first_finds(found), tokens)[k]).0,
{
    let firsts = first_finds(found);
    lemma_first_finds_members(found);
    lemma_first_finds_distinct(found);
    assert forall|k: int| 0 <= k < firsts.len() implies firsts[k].value.len() > 0 by {
        assert(found.contains(firsts[k]));
        let i = choose|i: int| 0 <= i < found.len() && found[i] == firsts[k];
        assert(found[i].lies_in(text));
        assert(encode_utf8(firsts[k].value).len() > 0);
    }
}

/// The replacements (value, placeholder) turned round: the pairs
/// (placeholder, value) in the same order.
pub open spec fn turned(steps: Seq<(Seq<char>, Seq<char>)>) -> Seq<(Seq<char>, Seq<char>)> {
    Seq::new(steps.len(), |k: int| (steps[k].1, steps[k].0))
}

/// The placeholders of pairs (placeholder, value).
pub open spec fn keys(order: Seq<(Seq<char>, Seq<char>)>) -> Seq<Seq<char>> {
    Seq::new(order.len(), |i: int| order[i].0)
}

/// The replacements (value, placeholder) can be told apart: no value and
/// no placeholder is empty, and no placeholder is given out twice.
pub open spec fn told_apart(steps: Seq<(Seq<char>, Seq<char>)>) -> bool {
    &&& forall|k: int|
        0 <= k < steps.len() ==> (#[trigger] steps[k]).0.len() > 0 && steps[k].1.len() > 0
    &&& forall|j: int, k: int|
        0 <= j < k < steps.len() ==> (#[trigger] steps[j]).1 != (#[trigger] steps[k]).1
}

/// Masking goes cleanly: when a value is about to be replaced, it stands
/// across none of the placeholders that were put into the text before.
pub open spec fn masks_cleanly(text: Seq<char>, steps: Seq<(Seq<char>, Seq<char>)>) -> bool {
    forall|j: int, k: int|
        #![trigger steps[j], steps[k]]
        0 <= k < j < steps.len() ==> !crosses(
            substituted(text, steps.take(j)),
            steps[j].0,
            steps[k].1,
        )
}

/// The turn of a placeholder in rewriting back is exact: when the
/// placeholder is about to be replaced, it stands in the text as often as
/// its value was replaced in masking, and nowhere across itself.
///
/// `order` holds the pairs (placeholder, value) in the order of their turns,
/// and `turn` is the place of the pair among them.
pub open spec fn turn_is_exact(
    text: Seq<char>,
    steps: Seq<(Seq<char>, Seq<char>)>,
    order: Seq<(Seq<char>, Seq<char>)>,
    turn: int,
) -> bool {
    let now = substituted(substituted(text, steps), order.take(turn));
    &&& !crosses_itself(now, order[turn].0)
    &&& forall|k: int|
        0 <= k < steps.len() && (#[trigger] steps[k]).1 == order[turn].0 ==> hits(
            now,
            order[turn].0,
        ) == hits(substituted(text, steps.take(k)), steps[k].0)
}

/// The turn of a placeholder in rewriting back is clean: the placeholder
/// does not stand in the text that was masked, and when it is about to be
/// replaced, it stands in the text neither across itself nor across a
/// placeholder whose turn is yet to come.
pub open spec fn turn_is_clean(
    text: Seq<char>,
    steps: Seq<(Seq<char>, Seq<char>)>,
    order: Seq<(Seq<char>, Seq<char>)>,
    turn: int,
) -> bool {
    let now = substituted(substituted(text, steps), order.take(turn));
    &&& !occurs_in(order[turn].0, text)
    &&& !crosses_itself(now, order[turn].0)
    &&& forall|later: int|
        turn < later < order.len() ==> !crosses(now, order[turn].0, (#[trigger] order[later]).0)
}

/// The placeholders of the replacements (value, placeholder) are foreign to
/// the text and to one another: no value is empty; no placeholder stands in
/// the text; no placeholder can overlap a value that is replaced after it
/// was put in, another placeholder, or itself otherwise than as a whole.
pub open spec fn foreign(steps: Seq<(Seq<char>, Seq<char>)>, text: Seq<char>) -> bool {
    &&& forall|k: int|
        0 <= k < steps.len() ==> {
            &&& (#[trigger] steps[k]).0.len() > 0
            &&& steps[k].1.len() > 0
            &&& unbordered(steps[k].1)
            &&& !occurs_in(steps[k].1, text)
        }
    &&& forall|j: int, k: int|
        0 <= k < j < steps.len() ==> !clash((#[trigger] steps[j]).0, (#[trigger] steps[k]).1)
    &&& forall|j: int, k: int|
        0 <= j < steps.len() && 0 <= k < steps.len() && j != k ==> !clash(
            (#[trigger] steps[j]).1,
            (#[trigger] steps[k]).1,
        )
}

/// A text that is not empty overlaps itself as a whole.
proof fn lemma_clash_with_itself(x: Seq<char>)
    requires
        x.len() > 0,
    ensures
        clash(x, x),
{
    assert(overlaps_at(x, x, 0));
}

/// Where no placeholder is given out twice, the mapping is the replacements
/// turned round.
pub proof fn lemma_mapping_is_turned(steps: Seq<(Seq<char>, Seq<char>)>)
    requires
        forall|j: int, k: int|
            0 <= j < k < steps.len() ==> (#[trigger] steps[j]).1 != (#[trigger] steps[k]).1,
    ensures
        mapping_of(steps) == turned(steps),
    decreases steps.len(),
{
    if steps.len() == 0 {
        assert(mapping_of(steps) =~= turned(steps));
    } else {
        let before = steps.drop_last();
        assert forall|j: int, k: int| 0 <= j < k < before.len() implies (#[trigger] before[j]).1
            != (#[trigger] before[k]).1 by {
            assert(before[j] == steps[j]);
            assert(before[k] == steps[k]);
        }
        lemma_mapping_is_turned(before);
        let key = steps.last().1;
        lemma_key_index(turned(before), key);
        let at = key_index(turned(before), key);
        if at < before.len() {
            assert(turned(before)[at].0 == before[at].1);
            assert(before[at] == steps[at]);
            assert(steps[at].1 != steps[steps.len() - 1].1);
        }
        assert(turned(before).push((key, steps.last().0)) =~= turned(steps));
    }
}

/// The pieces of a text after the replacements (value, placeholder).
proof fn forward_pieces(text: Seq<char>, steps: Seq<(Seq<char>, Seq<char>)>) -> (out: Seq<
    Piece,
>)
    requires
        told_apart(steps),
        masks_cleanly(text, steps),
    ensures
        shown_text(out) == substituted(text, steps),
        held_text(out) == text,
        parsed(out, steps, Seq::empty()),
        forall|k: int|
            0 <= k < steps.len() && (#[trigger] steps[k]).0 != steps[k].1 ==> shows(
                out,
                steps[k].1,
            ) == hits(substituted(text, steps.take(k)), steps[k].0),
    decreases steps.len(),
{
    if steps.len() == 0 {
        lemma_plain_pieces(text);
        plain_pieces(text)
    } else {
        let before = steps.drop_last();
        let n = before.len() as int;
        assert forall|k: int| 0 <= k < n implies before[k] == steps[k] by {}
        assert(told_apart(before)) by {
            assert forall|k: int| 0 <= k < n implies (#[trigger] before[k]).0.len() > 0
                && before[k].1.len() > 0 by {
                assert(before[k] == steps[k]);
            }
            assert forall|j: int, k: int| 0 <= j < k < n implies (#[trigger] before[j]).1 != (
            #[trigger] before[k]).1 by {
                assert(before[j] == steps[j]);
                assert(before[k] == steps[k]);
            }
        }
        assert(masks_cleanly(text, before)) by {
            assert forall|j: int, k: int|
                #![trigger before[j], before[k]]
                0 <= k < j < n implies !crosses(
                substituted(text, before.take(j)),
                before[j].0,
                before[k].1,
            ) by {
                assert(before[j] == steps[j]);
                assert(before[k] == steps[k]);
                assert(before.take(j) =~= steps.take(j));
            }
        }
        let pieces = forward_pieces(text, before);
        let last = steps[n];
        let whole = substituted(text, before);
        assert(steps.take(n) =~= before);
        assert(whole.skip(0) == whole);
        assert forall|k: int| 0 <= k < n implies !crosses(
            whole,
            last.0,
            (#[trigger] before[k]).1,
        ) by {
            assert(before[k] == steps[k]);
            assert(!crosses(substituted(text, steps.take(n)), steps[n].0, steps[k].1));
        }
        assert forall|k: int| 0 <= k < n implies (#[trigger] before[k]).1.len() > 0 by {
            assert(before[k] == steps[k]);
        }
        let out = mask_pieces(pieces, before, last.0, last.1, whole, 0);
        assert(before.push((last.0, last.1)) =~= steps);
        assert forall|k: int|
            0 <= k < steps.len() && (#[trigger] steps[k]).0 != steps[k].1 implies shows(
            out,
            steps[k].1,
        ) == hits(substituted(text, steps.take(k)), steps[k].0) by {
            if k < n {
                assert(before[k] == steps[k]);
                assert(before.take(k) =~= steps.take(k));
                assert(steps[k].1 != steps[n].1);
                assert(shows(out, steps[k].1) == shows(pieces, steps[k].1));
            } else {
                assert forall|j: int| 0 <= j < n implies (#[trigger] before[j]).1 != last.1 by {
                    assert(before[j] == steps[j]);
                    assert(steps[j].1 != steps[n].1);
                }
                lemma_shows_none(pieces, before, Seq::empty(), last.1);
            }
        }
        out
    }
}

/// The pieces of a masked text after the first `turns` placeholders of
/// `order` were replaced by their values.
proof fn backward_pieces(
    pieces: Seq<Piece>,
    steps: Seq<(Seq<char>, Seq<char>)>,
    order: Seq<(Seq<char>, Seq<char>)>,
    turns: int,
    text: Seq<char>,
) -> (out: Seq<Piece>)
    requires
        told_apart(steps),
        parsed(pieces, steps, Seq::empty()),
        held_text(pieces) == text,
        shown_text(pieces) == substituted(text, steps),
        forall|k: int|
            0 <= k < steps.len() && (#[trigger] steps[k]).0 != steps[k].1 ==> shows(
                pieces,
                steps[k].1,
            ) == hits(substituted(text, steps.take(k)), steps[k].0),
        0 <= turns <= order.len(),
        forall|i: int| 0 <= i < order.len() ==> turned(steps).contains(#[trigger] order[i]),
        forall|k: int| 0 <= k < steps.len() ==> order.contains(#[trigger] turned(steps)[k]),
        forall|i: int, l: int|
            0 <= i < l < order.len() ==> (#[trigger] order[i]).0 != (#[trigger] order[l]).0,
        forall|i: int|
            0 <= i < order.len() ==> (#[trigger] turn_is_clean(text, steps, order, i)) || (
            turn_is_exact(text, steps, order, i) && order[i].0 != order[i].1),
    ensures
        shown_text(out) == substituted(shown_text(pieces), order.take(turns)),
        held_text(out) == text,
        parsed(out, steps, keys(order.take(turns))),
        forall|other: Seq<char>|
            !keys(order.take(turns)).contains(other) ==> #[trigger] shows(out, other) == shows(
                pieces,
                other,
            ),
    decreases turns,
{
    if turns == 0 {
        assert(keys(order.take(0)) =~= Seq::empty());
        assert(order.take(0) =~= Seq::empty());
        pieces
    } else {
        let earlier = order.take(turns - 1);
        let before = backward_pieces(pieces, steps, order, turns - 1, text);
        let pair = order[turns - 1];
        let now = shown_text(before);
        assert(order.take(turns).drop_last() =~= earlier);
        assert(order.take(turns).last() == pair);
        assert(turned(steps).contains(pair));
        let m = choose|m: int| 0 <= m < turned(steps).len() && turned(steps)[m] == pair;
        assert(pair.0 == steps[m].1 && pair.1 == steps[m].0);
        assert(now == substituted(substituted(text, steps), order.take(turns - 1)));
        assert forall|k: int|
            0 <= k < steps.len() && (#[trigger] steps[k]).1 == pair.0 implies steps[k].0
            == pair.1 by {
            if k < m {
                assert(steps[k].1 != steps[m].1);
            } else if m < k {
                assert(steps[m].1 != steps[k].1);
            }
        }
        assert(!keys(earlier).contains(pair.0)) by {
            if keys(earlier).contains(pair.0) {
                let l = choose|l: int| 0 <= l < keys(earlier).len() && keys(earlier)[l] == pair.0;
                assert(order[l].0 != order[turns - 1].0);
            }
        }
        lemma_parsed_filled(before, steps, keys(earlier));
        assert(now.skip(0) == now);
        if turn_is_clean(text, steps, order, turns - 1) {
            assert forall|k: int|
                0 <= k < steps.len() && (#[trigger] steps[k]).1 != pair.0 && !keys(
                    earlier,
                ).contains(steps[k].1) implies !crosses(now, pair.0, steps[k].1) by {
                assert(order.contains(turned(steps)[k]));
                let l = choose|l: int| 0 <= l < order.len() && order[l] == turned(steps)[k];
                assert(order[l].0 == steps[k].1);
                if l < turns - 1 {
                    assert(keys(earlier)[l] == steps[k].1);
                }
            }
            lemma_hits_are_pieces(before, steps, keys(earlier), pair.0, now, 0);
        } else {
            assert(turn_is_exact(text, steps, order, turns - 1));
            assert(steps[m].0 != steps[m].1);
            assert(hits(now, pair.0) == hits(substituted(text, steps.take(m)), steps[m].0));
            assert(shows(before, pair.0) == shows(pieces, pair.0));
        }
        lemma_only_shown(before, pair.0);
        let out = unmask_pieces(before, steps, keys(earlier), pair.0, pair.1);
        assert(keys(earlier).push(pair.0) =~= keys(order.take(turns)));
        assert forall|other: Seq<char>|
            !keys(order.take(turns)).contains(other) implies #[trigger] shows(out, other)
            == shows(pieces, other) by {
            assert(keys(order.take(turns))[turns - 1] == pair.0);
            assert forall|l: int| 0 <= l < keys(earlier).len() implies keys(earlier)[l]
                != other by {
                assert(keys(order.take(turns))[l] == keys(earlier)[l]);
            }
        }
        out
    }
}

/// What masking leaves is rewritten back to the text that was masked,
/// where the turns of all placeholders are clean or exact.
proof fn lemma_round_trip(text: Seq<char>, steps: Seq<(Seq<char>, Seq<char>)>)
    requires
        told_apart(steps),
        masks_cleanly(text, steps),
        forall|i: int|
            0 <= i < steps.len() ==> (#[trigger] turn_is_clean(
                text,
                steps,
                stable_sort(mapping_of(steps), longest_first()),
                i,
            )) || (turn_is_exact(
                text,
                steps,
                stable_sort(mapping_of(steps), longest_first()),
                i,
            ) && stable_sort(mapping_of(steps), longest_first())[i].0 != stable_sort(
                mapping_of(steps),
                longest_first(),
            )[i].1),
    ensures
        substituted(substituted(text, steps), stable_sort(mapping_of(steps), longest_first()))
            == text,
{
    lemma_mapping_is_turned(steps);
    let order = stable_sort(turned(steps), longest_first());
    lemma_stable_sort_members(turned(steps), longest_first());
    lemma_stable_sort_permutes(turned(steps), longest_first());
    assert forall|j: int, k: int| 0 <= j < k < turned(steps).len() implies turned(steps)[j]
        != turned(steps)[k] by {
        assert(steps[j].1 != steps[k].1);
    }
    lemma_stable_sort_distinct(turned(steps), longest_first());
    let masked = forward_pieces(text, steps);
    assert forall|i: int| 0 <= i < order.len() implies turned(steps).contains(
        #[trigger] order[i],
    ) by {
        assert(order.contains(order[i]));
    }
    assert forall|k: int| 0 <= k < steps.len() implies order.contains(
        #[trigger] turned(steps)[k],
    ) by {
        assert(turned(steps).contains(turned(steps)[k]));
    }
    assert forall|i: int, l: int| 0 <= i < l < order.len() implies (#[trigger] order[i]).0 != (
    #[trigger] order[l]).0 by {
        assert(order.contains(order[i]));
        assert(order.contains(order[l]));
        assert(turned(steps).contains(order[i]));
        assert(turned(steps).contains(order[l]));
        let m = choose|m: int| 0 <= m < turned(steps).len() && turned(steps)[m] == order[i];
        let n = choose|n: int| 0 <= n < turned(steps).len() && turned(steps)[n] == order[l];
        assert(order[i] != order[l]);
        if m < n {
            assert(steps[m].1 != steps[n].1);
        } else if n < m {
            assert(steps[n].1 != steps[m].1);
        }
    }
    let out = backward_pieces(masked, steps, order, order.len() as int, text);
    assert(order.take(order.len() as int) == order);
    assert forall|i: int| 0 <= i < out.len() implies is_plain(#[trigger] out[i]) by {
        if !is_plain(out[i]) {
            let k = choose|k: int|
                0 <= k < steps.len() && out[i].held == (#[trigger] steps[k]).0 && out[i].shown
                    == steps[k].1;
            assert(order.contains(turned(steps)[k]));
            let j = choose|j: int| 0 <= j < order.len() && order[j] == turned(steps)[k];
            assert(keys(order)[j] == steps[k].1);
            assert(keys(order).contains(out[i].shown));
        }
    }
    lemma_all_plain(out);
}

/// A masked text, rewritten back with the mapping that masking left, is the
/// text that was masked, whenever the replacements can be told apart,
/// masking goes cleanly, and the turn of every placeholder in rewriting
/// back is exact.
///
/// `steps` are the replacements (value, placeholder) of the masking, in
/// their order. The masked text is the text after these replacements; it is
/// rewritten back with their mapping, longest placeholder first.
pub proof fn law_round_trip(text: Seq<char>, steps: Seq<(Seq<char>, Seq<char>)>)
    requires
        told_apart(steps),
        forall|k: int| 0 <= k < steps.len() ==> (#[trigger] steps[k]).0 != steps[k].1,
        masks_cleanly(text, steps),
        forall|i: int|
            0 <= i < steps.len() ==> #[trigger] turn_is_exact(
                text,
                steps,
                stable_sort(mapping_of(steps), longest_first()),
                i,
            ),
    ensures
        substituted(substituted(text, steps), stable_sort(mapping_of(steps), longest_first()))
            == text,
{
    lemma_mapping_is_turned(steps);
    let order = stable_sort(turned(steps), longest_first());
    lemma_stable_sort_members(turned(steps), longest_first());
    lemma_stable_sort_permutes(turned(steps), longest_first());
    assert forall|i: int| 0 <= i < steps.len() implies order[i].0 != order[i].1 by {
        assert(order.contains(order[i]));
        assert(turned(steps).contains(order[i]));
        let m = choose|m: int| 0 <= m < turned(steps).len() && turned(steps)[m] == order[i];
        assert(steps[m].0 != steps[m].1);
    }
    lemma_round_trip(text, steps);
}

/// A masked text, rewritten back with the mapping that masking left, is the
/// text that was masked, whenever the replacements can be told apart,
/// masking goes cleanly, and the turn of every placeholder in rewriting
/// back is clean.
pub proof fn law_round_trip_clean(text: Seq<char>, steps: Seq<(Seq<char>, Seq<char>)>)
    requires
        told_apart(steps),
        masks_cleanly(text, steps),
        forall|i: int|
            0 <= i < steps.len() ==> #[trigger] turn_is_clean(
                text,
                steps,
                stable_sort(mapping_of(steps), longest_first()),
                i,
            ),
    ensures
        substituted(substituted(text, steps), stable_sort(mapping_of(steps), longest_first()))
            == text,
{
    lemma_round_trip(text, steps);
}

/// A masked text, rewritten back with the mapping that masking left, is the
/// text that was masked, whenever the placeholders are foreign to the text
/// and to one another. Whether they are can be told from the replacements
/// and the text alone.
pub proof fn law_round_trip_foreign(text: Seq<char>, steps: Seq<(Seq<char>, Seq<char>)>)
    requires
        foreign(steps, text),
    ensures
        substituted(substituted(text, steps), stable_sort(mapping_of(steps), longest_first()))
            == text,
{
    assert forall|j: int, k: int| 0 <= j < k < steps.len() implies (#[trigger] steps[j]).1 != (
    #[trigger] steps[k]).1 by {
        lemma_clash_with_itself(steps[j].1);
        assert(!clash(steps[j].1, steps[k].1));
    }
    assert(masks_cleanly(text, steps)) by {
        assert forall|j: int, k: int|
            #![trigger steps[j], steps[k]]
            0 <= k < j < steps.len() implies !crosses(
            substituted(text, steps.take(j)),
            steps[j].0,
            steps[k].1,
        ) by {
            let now = substituted(text, steps.take(j));
            if crosses(now, steps[j].0, steps[k].1) {
                let (a, b) = choose|a: int, b: int| crossing(now, steps[j].0, a, steps[k].1, b);
                lemma_crossing_clashes(now, steps[j].0, a, steps[k].1, b);
            }
        }
    }
    lemma_mapping_is_turned(steps);
    let masked = substituted(text, steps);
    let order = stable_sort(turned(steps), longest_first());
    lemma_stable_sort_members(turned(steps), longest_first());
    lemma_stable_sort_permutes(turned(steps), longest_first());
    assert forall|j: int, k: int| 0 <= j < k < turned(steps).len() implies turned(steps)[j]
        != turned(steps)[k] by {
        assert(steps[j].1 != steps[k].1);
    }
    lemma_stable_sort_distinct(turned(steps), longest_first());
    assert forall|i: int| 0 <= i < steps.len() implies #[trigger] turn_is_clean(
        text,
        steps,
        order,
        i,
    ) by {
        let now = substituted(masked, order.take(i));
        assert(order.contains(order[i]));
        assert(turned(steps).contains(order[i]));
        let m = choose|m: int| 0 <= m < turned(steps).len() && turned(steps)[m] == order[i];
        let p = steps[m].1;
        assert(p == order[i].0);
        if crosses_itself(now, p) {
            let (a, b) = choose|a: int, b: int| a != b && crossing(now, p, a, p, b);
            lemma_crossing_clashes(now, p, a, p, b);
            if a < b {
                assert(overlaps_at(p, p, b - a));
            } else {
                assert(overlaps_at(p, p, a - b));
            }
        }
        assert forall|later: int| i < later < order.len() implies !crosses(
            now,
            order[i].0,
            (#[trigger] order[later]).0,
        ) by {
            assert(order.contains(order[later]));
            assert(turned(steps).contains(order[later]));
            let n = choose|n: int|
                0 <= n < turned(steps).len() && turned(steps)[n] == order[later];
            assert(order[i] != order[later]);
            assert(m != n);
            if crosses(now, order[i].0, order[later].0) {
                let (a, b) = choose|a: int, b: int|
                    crossing(now, order[i].0, a, order[later].0, b);
                lemma_crossing_clashes(now, order[i].0, a, order[later].0, b);
                assert(!clash(steps[m].1, steps[n].1));
            }
        }
    }
    assert(told_apart(steps));
    law_round_trip_clean(text, steps);
}

/// The first offset at which a pattern stands in a text in which it stands.
proof fn first_match(text: Seq<char>, pattern: Seq<char>, upto: int) -> (at: int)
    requires
        matches_at(text, pattern, upto),
    ensures
        0 <= at <= upto,
        matches_at(text, pattern, at),
        forall|earlier: int| 0 <= earlier < at ==> !matches_at(text, pattern, earlier),
    decreases upto,
{
    if exists|earlier: int| 0 <= earlier < upto && matches_at(text, pattern, earlier) {
        let earlier = choose|earlier: int|
            0 <= earlier < upto && matches_at(text, pattern, earlier);
        first_match(text, pattern, earlier)
    } else {
        upto
    }
}

/// Replacing `from` by `to` brings no occurrence of `value` into a text,
/// and leaves none where `value` is `from` itself, if `value` does not
/// stand across `to` in the text that comes out.
pub proof fn lemma_replaced_leaves_none(
    text: Seq<char>,
    from: Seq<char>,
    to: Seq<char>,
    value: Seq<char>,
)
    requires
        from.len() > 0,
        value.len() > 0,
        !crosses(replaced(text, from, to), value, to),
        value == from || !occurs_in(value, text),
    ensures
        !occurs_in(value, replaced(text, from, to)),
    decreases text.len(),
{
    if !occurs_in(from, text) {
        lemma_replaced_absent(text, from, to);
    } else {
        let some = choose|at: int| matches_at(text, from, at);
        let m = first_match(text, from, some);
        let behind = text.skip(m + from.len());
        let out = replaced(text, from, to);
        let tail = replaced(behind, from, to);
        lemma_replaced_skip(text, from, to, m);
        lemma_matches_skip(text, from, m, 0);
        assert(text.skip(m).skip(from.len() as int) =~= behind);
        assert(out == text.take(m) + (to + tail));
        assert(out.skip(m + to.len()) =~= tail);
        assert(out.subrange(m, m + to.len()) =~= to);
        assert(matches_at(out, to, m));
        if value != from {
            assert(text =~= text.take(m + from.len()) + behind);
            lemma_occurs_in_parts(value, text.take(m + from.len()), behind);
        }
        assert(!crosses(tail, value, to)) by {
            if crosses(tail, value, to) {
                let (a, b) = choose|a: int, b: int| crossing(tail, value, a, to, b);
                lemma_crossing_skip(out, m + to.len(), value, a, to, b);
            }
        }
        lemma_replaced_leaves_none(behind, from, to, value);
        assert forall|at: int| !matches_at(out, value, at) by {
            if matches_at(out, value, at) {
                if at + value.len() <= m {
                    assert(text.subrange(at, at + value.len()) =~= out.subrange(
                        at,
                        at + value.len(),
                    ));
                    assert(matches_at(text, value, at));
                } else if at >= m + to.len() {
                    lemma_matches_skip(out, value, m + to.len(), at - m - to.len());
                    assert(matches_at(tail, value, at - m - to.len()));
                } else {
                    assert(crossing(out, value, at, to, m));
                }
            }
        }
    }
}

/// A value that was replaced does not stand in the masked text, whenever
/// in none of the texts from its replacement on it stands across the
/// placeholder that was just put in.
///
/// `steps` are the replacements (value, placeholder) of the masking, in
/// their order, and `k` is the place of the value among them.
pub proof fn law_no_leak(text: Seq<char>, steps: Seq<(Seq<char>, Seq<char>)>, k: int)
    requires
        0 <= k < steps.len(),
        forall|j: int| 0 <= j < steps.len() ==> (#[trigger] steps[j]).0.len() > 0,
        forall|j: int|
            k <= j < steps.len() ==> !crosses(
                substituted(text, steps.take(j + 1)),
                steps[k].0,
                (#[trigger] steps[j]).1,
            ),
    ensures
        !occurs_in(steps[k].0, substituted(text, steps)),
    decreases steps.len(),
{
    let before = steps.drop_last();
    let n = before.len() as int;
    let last = steps[n];
    assert(steps.take(n + 1) =~= steps);
    if k < n {
        assert(before[k] == steps[k]);
        assert forall|j: int| 0 <= j < n implies (#[trigger] before[j]).0.len() > 0 by {
            assert(before[j] == steps[j]);
        }
        assert forall|j: int| k <= j < n implies !crosses(
            substituted(text, before.take(j + 1)),
            before[k].0,
            (#[trigger] before[j]).1,
        ) by {
            assert(before[j] == steps[j]);
            assert(before.take(j + 1) =~= steps.take(j + 1));
        }
        law_no_leak(text, before, k);
    }
    assert(!crosses(substituted(text, steps.take(n + 1)), steps[k].0, steps[n].1));
    lemma_replaced_leaves_none(substituted(text, before), last.0, last.1, steps[k].0);
}

/// A value that was replaced does not stand in the masked text, whenever
/// the value can overlap neither its own placeholder nor a placeholder that
/// was put in after it.
pub proof fn law_no_leak_foreign(text: Seq<char>, steps: Seq<(Seq<char>, Seq<char>)>, k: int)
    requires
        0 <= k < steps.len(),
        forall|j: int| 0 <= j < steps.len() ==> (#[trigger] steps[j]).0.len() > 0,
        forall|j: int| k <= j < steps.len() ==> !clash(steps[k].0, (#[trigger] steps[j]).1),
    ensures
        !occurs_in(steps[k].0, substituted(text, steps)),
{
    assert forall|j: int| k <= j < steps.len() implies !crosses(
        substituted(text, steps.take(j + 1)),
        steps[k].0,
        (#[trigger] steps[j]).1,
    ) by {
        let now = substituted(text, steps.take(j + 1));
        if crosses(now, steps[k].0, steps[j].1) {
            let (a, b) = choose|a: int, b: int| crossing(now, steps[k].0, a, steps[j].1, b);
            lemma_crossing_clashes(now, steps[k].0, a, steps[j].1, b);
        }
    }
    law_no_leak(text, steps, k);
}

/// The placeholder of a value stands in the masked text as often as the
/// value was replaced, and so for the first value as often as the value
/// stands in the text, whenever the replacements can be told apart, masking
/// goes cleanly, and the placeholder stands neither in the text that was
/// masked nor, in the masked text, across itself or another placeholder.
///
/// `steps` are the replacements (value, placeholder) of the masking, in
/// their order, and `k` is the place of the value among them. How often a
/// text stands in another is counted from the left, without overlaps.
pub proof fn law_dedup(text: Seq<char>, steps: Seq<(Seq<char>, Seq<char>)>, k: int)
    requires
        0 <= k < steps.len(),
        told_apart(steps),
        masks_cleanly(text, steps),
        steps[k].0 != steps[k].1,
        !occurs_in(steps[k].1, text),
        !crosses_itself(substituted(text, steps), steps[k].1),
        forall|j: int|
            0 <= j < steps.len() && j != k ==> !crosses(
                substituted(text, steps),
                steps[k].1,
                (#[trigger] steps[j]).1,
            ),
    ensures
        hits(substituted(text, steps), steps[k].1) == hits(
            substituted(text, steps.take(k)),
            steps[k].0,
        ),
        k == 0 ==> hits(substituted(text, steps), steps[k].1) == hits(text, steps[k].0),
{
    let masked = substituted(text, steps);
    let pieces = forward_pieces(text, steps);
    assert(masked.skip(0) == masked);
    assert forall|j: int|
        0 <= j < steps.len() && (#[trigger] steps[j]).1 != steps[k].1 implies !crosses(
        masked,
        steps[k].1,
        steps[j].1,
    ) by {
        assert(j != k);
    }
    lemma_hits_are_pieces(pieces, steps, Seq::empty(), steps[k].1, masked, 0);
    assert(steps.take(0) =~= Seq::empty());
}

/// Where no placeholder is given out twice, the mapping has one entry for
/// each replacement, in their order; and where also no value is replaced
/// twice, a value stands in one entry only.
pub proof fn law_one_entry_per_value(steps: Seq<(Seq<char>, Seq<char>)>)
    requires
        forall|j: int, k: int|
            0 <= j < k < steps.len() ==> (#[trigger] steps[j]).1 != (#[trigger] steps[k]).1,
    ensures
        mapping_of(steps).len() == steps.len(),
        forall|k: int|
            0 <= k < steps.len() ==> (#[trigger] mapping_of(steps)[k]) == (steps[k].1, steps[k].0),
        (forall|j: int, k: int|
            0 <= j < k < steps.len() ==> (#[trigger] steps[j]).0 != (#[trigger] steps[k]).0)
            ==> forall|i: int, k: int|
            0 <= i < steps.len() && 0 <= k < steps.len() ==> ((#[trigger] mapping_of(steps)[i]).1
                == (#[trigger] steps[k]).0 <==> i == k),
{
    lemma_mapping_is_turned(steps);
    if forall|j: int, k: int|
        0 <= j < k < steps.len() ==> (#[trigger] steps[j]).0 != (#[trigger] steps[k]).0 {
        assert forall|i: int, k: int| 0 <= i < steps.len() && 0 <= k < steps.len() implies ((
        #[trigger] mapping_of(steps)[i]).1 == (#[trigger] steps[k]).0 <==> i == k) by {
            if i < k {
                assert(steps[i].0 != steps[k].0);
            } else if k < i {
                assert(steps[k].0 != steps[i].0);
            }
        }
    }
}

} // verus!
