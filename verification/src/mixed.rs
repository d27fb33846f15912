//! Partly masked texts, piece by piece: the reasoning behind the law that a
//! masked text can be rewritten back.
//!
//! A partly masked text is taken as a row of pieces. A piece is one
//! character of the text that was masked and that stands as it is, or a
//! value of that text in whose place its placeholder stands.

use crate::overlap::{
    crosses, crosses_itself, crossing, lemma_matches_skip, lemma_occurs_in_parts,
    lemma_replaced_skip,
};
use crate::overlap::lemma_hits_skip;
use crate::text::{hits, matches_at, occurs_in, replaced};
use vstd::prelude::*;

verus! {

/// A piece of a partly masked text: what it held before masking, and what
/// stands now.
pub struct Piece {
    pub held: Seq<char>,
    pub shown: Seq<char>,
}

/// The text as it stands now.
pub open spec fn shown_text(pieces: Seq<Piece>) -> Seq<char>
    decreases pieces.len(),
{
    if pieces.len() == 0 {
        Seq::empty()
    } else {
        pieces[0].shown + shown_text(pieces.skip(1))
    }
}

/// The text as it was before anything was masked.
pub open spec fn held_text(pieces: Seq<Piece>) -> Seq<char>
    decreases pieces.len(),
{
    if pieces.len() == 0 {
        Seq::empty()
    } else {
        pieces[0].held + held_text(pieces.skip(1))
    }
}

/// One character that stands as it is.
pub open spec fn is_plain(piece: Piece) -> bool {
    piece.held.len() == 1 && piece.shown == piece.held
}

/// A value with its placeholder in its place, for one of the replacements
/// (value, placeholder).
pub open spec fn is_step(piece: Piece, steps: Seq<(Seq<char>, Seq<char>)>) -> bool {
    exists|k: int|
        0 <= k < steps.len() && piece.held == (#[trigger] steps[k]).0 && piece.shown == steps[k].1
}

/// Every piece is a plain character or a masked value whose placeholder is
/// not among those `done` with.
pub open spec fn parsed(
    pieces: Seq<Piece>,
    steps: Seq<(Seq<char>, Seq<char>)>,
    done: Seq<Seq<char>>,
) -> bool {
    forall|i: int|
        0 <= i < pieces.len() ==> is_plain(#[trigger] pieces[i]) || (is_step(pieces[i], steps)
            && !done.contains(pieces[i].shown))
}

/// Whether a piece shows the placeholder in the place of a value.
pub open spec fn shows_it(piece: Piece, placeholder: Seq<char>) -> bool {
    !is_plain(piece) && piece.shown == placeholder
}

/// How many pieces show the placeholder in the place of a value.
pub open spec fn shows(pieces: Seq<Piece>, placeholder: Seq<char>) -> nat
    decreases pieces.len(),
{
    if pieces.len() == 0 {
        0
    } else if shows_it(pieces[0], placeholder) {
        1 + shows(pieces.skip(1), placeholder)
    } else {
        shows(pieces.skip(1), placeholder)
    }
}

/// The pieces of a text in which nothing is masked.
pub open spec fn plain_pieces(text: Seq<char>) -> Seq<Piece> {
    Seq::new(text.len(), |i: int| Piece { held: seq![text[i]], shown: seq![text[i]] })
}

/// The first characters of pieces that are plain.
pub open spec fn run(pieces: Seq<Piece>, n: int) -> Seq<char> {
    Seq::new(n as nat, |i: int| pieces[i].shown[0])
}

pub proof fn lemma_plain_pieces(text: Seq<char>)
    ensures
        shown_text(plain_pieces(text)) == text,
        held_text(plain_pieces(text)) == text,
    decreases text.len(),
{
    if text.len() > 0 {
        lemma_plain_pieces(text.skip(1));
        assert(plain_pieces(text).skip(1) =~= plain_pieces(text.skip(1)));
        assert(seq![text[0]] + text.skip(1) =~= text);
    }
}

pub proof fn lemma_texts_prepend(first: Piece, rest: Seq<Piece>)
    ensures
        shown_text(seq![first] + rest) == first.shown + shown_text(rest),
        held_text(seq![first] + rest) == first.held + held_text(rest),
{
    assert((seq![first] + rest).skip(1) =~= rest);
}

/// Where the first `n` pieces are plain, both texts start with their
/// characters.
pub proof fn lemma_plain_run(pieces: Seq<Piece>, n: int)
    requires
        0 <= n <= pieces.len(),
        forall|i: int| 0 <= i < n ==> is_plain(#[trigger] pieces[i]),
    ensures
        shown_text(pieces) == run(pieces, n) + shown_text(pieces.skip(n)),
        held_text(pieces) == run(pieces, n) + held_text(pieces.skip(n)),
    decreases n,
{
    if n == 0 {
        assert(pieces.skip(0) == pieces);
        assert(run(pieces, 0) + shown_text(pieces) =~= shown_text(pieces));
        assert(run(pieces, 0) + held_text(pieces) =~= held_text(pieces));
    } else {
        let rest = pieces.skip(1);
        assert forall|i: int| 0 <= i < n - 1 implies is_plain(#[trigger] rest[i]) by {
            assert(rest[i] == pieces[i + 1]);
        }
        lemma_plain_run(rest, n - 1);
        assert(rest.skip(n - 1) =~= pieces.skip(n));
        assert(is_plain(pieces[0]));
        assert(pieces[0].shown =~= seq![pieces[0].shown[0]]);
        assert(run(pieces, n) =~= pieces[0].shown + run(rest, n - 1)) by {
            assert forall|i: int| 0 <= i < n implies run(pieces, n)[i] == (pieces[0].shown + run(
                rest,
                n - 1,
            ))[i] by {
                if i > 0 {
                    assert(rest[i - 1] == pieces[i]);
                }
            }
        }
        assert(pieces[0].shown + (run(rest, n - 1) + shown_text(pieces.skip(n))) =~= run(
            pieces,
            n,
        ) + shown_text(pieces.skip(n)));
        assert(pieces[0].held + (run(rest, n - 1) + held_text(pieces.skip(n))) =~= run(pieces, n)
            + held_text(pieces.skip(n)));
    }
}

pub proof fn lemma_shows_prepend(first: Piece, rest: Seq<Piece>, placeholder: Seq<char>)
    ensures
        shows(seq![first] + rest, placeholder) == shows(rest, placeholder) + (if shows_it(
            first,
            placeholder,
        ) {
            1nat
        } else {
            0nat
        }),
{
    assert((seq![first] + rest).skip(1) =~= rest);
}

/// Plain pieces show no placeholder in the place of a value.
pub proof fn lemma_shows_plain_run(pieces: Seq<Piece>, n: int, placeholder: Seq<char>)
    requires
        0 <= n <= pieces.len(),
        forall|i: int| 0 <= i < n ==> is_plain(#[trigger] pieces[i]),
    ensures
        shows(pieces, placeholder) == shows(pieces.skip(n), placeholder),
    decreases n,
{
    if n == 0 {
        assert(pieces.skip(0) == pieces);
    } else {
        let rest = pieces.skip(1);
        assert forall|i: int| 0 <= i < n - 1 implies is_plain(#[trigger] rest[i]) by {
            assert(rest[i] == pieces[i + 1]);
        }
        lemma_shows_plain_run(rest, n - 1, placeholder);
        assert(rest.skip(n - 1) =~= pieces.skip(n));
        assert(is_plain(pieces[0]));
    }
}

/// A placeholder that belongs to none of the replacements is shown by no
/// piece.
pub proof fn lemma_shows_none(
    pieces: Seq<Piece>,
    steps: Seq<(Seq<char>, Seq<char>)>,
    done: Seq<Seq<char>>,
    placeholder: Seq<char>,
)
    requires
        parsed(pieces, steps, done),
        forall|k: int| 0 <= k < steps.len() ==> (#[trigger] steps[k]).1 != placeholder,
    ensures
        shows(pieces, placeholder) == 0,
    decreases pieces.len(),
{
    if pieces.len() > 0 {
        let rest = pieces.skip(1);
        assert forall|i: int| 0 <= i < rest.len() implies is_plain(#[trigger] rest[i]) || (is_step(
            rest[i],
            steps,
        ) && !done.contains(rest[i].shown)) by {
            assert(rest[i] == pieces[i + 1]);
        }
        lemma_shows_none(rest, steps, done, placeholder);
        if !is_plain(pieces[0]) {
            let k = choose|k: int|
                0 <= k < steps.len() && pieces[0].held == (#[trigger] steps[k]).0
                    && pieces[0].shown == steps[k].1;
        }
    }
}

/// The piece at place `n` behind `n` plain pieces shows what stands in the
/// text at offset `n`.
pub proof fn lemma_piece_stands(pieces: Seq<Piece>, n: int)
    requires
        0 <= n < pieces.len(),
        forall|i: int| 0 <= i < n ==> is_plain(#[trigger] pieces[i]),
    ensures
        matches_at(shown_text(pieces), pieces[n].shown, n),
        shown_text(pieces) == run(pieces, n) + pieces[n].shown + shown_text(pieces.skip(n + 1)),
{
    lemma_plain_run(pieces, n);
    let rest = pieces.skip(n);
    assert(rest[0] == pieces[n]);
    assert(rest.skip(1) =~= pieces.skip(n + 1));
    assert(shown_text(rest) == pieces[n].shown + shown_text(rest.skip(1)));
    let text = shown_text(pieces);
    assert(text =~= run(pieces, n) + pieces[n].shown + shown_text(pieces.skip(n + 1)));
    assert(text.subrange(n, n + pieces[n].shown.len()) =~= pieces[n].shown);
}

/// A value that stands at the head of a partly masked text, and that
/// stands across no placeholder in it, covers plain pieces only.
///
/// The partly masked text is the text `whole` from offset `off` on.
pub proof fn lemma_match_covers_plain(
    pieces: Seq<Piece>,
    steps: Seq<(Seq<char>, Seq<char>)>,
    done: Seq<Seq<char>>,
    value: Seq<char>,
    n: int,
    whole: Seq<char>,
    off: int,
)
    requires
        parsed(pieces, steps, done),
        0 <= off <= whole.len(),
        shown_text(pieces) == whole.skip(off),
        matches_at(shown_text(pieces), value, 0),
        forall|k: int| 0 <= k < steps.len() ==> (#[trigger] steps[k]).1.len() > 0,
        forall|k: int| 0 <= k < steps.len() ==> !crosses(whole, value, (#[trigger] steps[k]).1),
        0 <= n <= value.len(),
        n <= pieces.len(),
        forall|i: int| 0 <= i < n ==> is_plain(#[trigger] pieces[i]),
    ensures
        value.len() <= pieces.len(),
        forall|i: int| 0 <= i < value.len() ==> is_plain(#[trigger] pieces[i]),
    decreases value.len() - n,
{
    if n < value.len() {
        lemma_plain_run(pieces, n);
        if n == pieces.len() {
            assert(shown_text(pieces.skip(n)).len() == 0);
            assert(shown_text(pieces).len() == n);
        } else if is_plain(pieces[n]) {
            lemma_match_covers_plain(pieces, steps, done, value, n + 1, whole, off);
        } else {
            let piece = pieces[n];
            let k = choose|k: int|
                0 <= k < steps.len() && piece.held == (#[trigger] steps[k]).0 && piece.shown
                    == steps[k].1;
            lemma_piece_stands(pieces, n);
            lemma_matches_skip(whole, value, off, 0);
            lemma_matches_skip(whole, piece.shown, off, n);
            assert(crossing(whole, value, off, steps[k].1, off + n));
        }
    }
}

/// Replaces a value in a partly masked text, piece by piece.
///
/// Where the value stands across none of the placeholders of the text, the
/// text after the replacement is again a row of pieces over the same
/// unmasked text. The partly masked text is the text `whole` from offset `off`
/// on.
pub proof fn mask_pieces(
    pieces: Seq<Piece>,
    steps: Seq<(Seq<char>, Seq<char>)>,
    value: Seq<char>,
    placeholder: Seq<char>,
    whole: Seq<char>,
    off: int,
) -> (out: Seq<Piece>)
    requires
        parsed(pieces, steps, Seq::empty()),
        value.len() > 0,
        0 <= off <= whole.len(),
        shown_text(pieces) == whole.skip(off),
        forall|k: int| 0 <= k < steps.len() ==> (#[trigger] steps[k]).1.len() > 0,
        forall|k: int| 0 <= k < steps.len() ==> !crosses(whole, value, (#[trigger] steps[k]).1),
    ensures
        shown_text(out) == replaced(shown_text(pieces), value, placeholder),
        held_text(out) == held_text(pieces),
        parsed(out, steps.push((value, placeholder)), Seq::empty()),
        value != placeholder ==> shows(out, placeholder) == shows(pieces, placeholder) + hits(
            shown_text(pieces),
            value,
        ),
        forall|other: Seq<char>|
            other != placeholder ==> #[trigger] shows(out, other) == shows(pieces, other),
    decreases pieces.len(),
{
    let after = steps.push((value, placeholder));
    let none = Seq::<Seq<char>>::empty();
    if pieces.len() == 0 {
        pieces
    } else {
        let text = shown_text(pieces);
        let first = pieces[0];
        let rest = pieces.skip(1);
        assert forall|i: int| 0 <= i < pieces.len() && !is_plain(pieces[i]) implies is_step(
            #[trigger] pieces[i],
            after,
        ) by {
            let k = choose|k: int|
                0 <= k < steps.len() && pieces[i].held == (#[trigger] steps[k]).0
                    && pieces[i].shown == steps[k].1;
            assert(after[k] == steps[k]);
        }
        if is_plain(first) && matches_at(text, value, 0) {
            let n = value.len() as int;
            lemma_match_covers_plain(pieces, steps, none, value, 0, whole, off);
            lemma_plain_run(pieces, n);
            let behind = pieces.skip(n);
            assert(run(pieces, n) =~= value) by {
                assert(text.subrange(0, n) =~= run(pieces, n));
            }
            assert(text.skip(n) =~= shown_text(behind));
            assert(whole.skip(off).skip(n) =~= whole.skip(off + n));
            assert forall|i: int| 0 <= i < behind.len() implies is_plain(#[trigger] behind[i]) || (
            is_step(behind[i], steps) && !none.contains(behind[i].shown)) by {
                assert(behind[i] == pieces[i + n]);
            }
            let tail = mask_pieces(behind, steps, value, placeholder, whole, off + n);
            let masked = Piece { held: value, shown: placeholder };
            let out = seq![masked] + tail;
            lemma_texts_prepend(masked, tail);
            lemma_shows_prepend(masked, tail, placeholder);
            lemma_shows_plain_run(pieces, n, placeholder);
            assert forall|other: Seq<char>| other != placeholder implies #[trigger] shows(
                out,
                other,
            ) == shows(pieces, other) by {
                lemma_shows_prepend(masked, tail, other);
                lemma_shows_plain_run(pieces, n, other);
            }
            assert(after[steps.len() as int] == (value, placeholder));
            assert(is_step(masked, after));
            assert forall|i: int| 0 <= i < out.len() implies is_plain(#[trigger] out[i]) || (
            is_step(out[i], after) && !none.contains(out[i].shown)) by {
                if i > 0 {
                    assert(out[i] == tail[i - 1]);
                }
            }
            out
        } else {
            let keep = first.shown.len() as int;
            assert(text == first.shown + shown_text(rest));
            assert forall|at: int| 0 <= at < keep implies !matches_at(text, value, at) by {
                if matches_at(text, value, at) {
                    if is_plain(first) {
                    } else {
                        let k = choose|k: int|
                            0 <= k < steps.len() && first.held == (#[trigger] steps[k]).0
                                && first.shown == steps[k].1;
                        lemma_piece_stands(pieces, 0);
                        lemma_matches_skip(whole, value, off, at);
                        lemma_matches_skip(whole, first.shown, off, 0);
                        assert(crossing(whole, value, off + at, steps[k].1, off));
                    }
                }
            }
            lemma_replaced_skip(text, value, placeholder, keep);
            assert(text.take(keep) =~= first.shown);
            assert(text.skip(keep) =~= shown_text(rest));
            assert(whole.skip(off).skip(keep) =~= whole.skip(off + keep));
            assert forall|i: int| 0 <= i < rest.len() implies is_plain(#[trigger] rest[i]) || (
            is_step(rest[i], steps) && !none.contains(rest[i].shown)) by {
                assert(rest[i] == pieces[i + 1]);
            }
            let tail = mask_pieces(rest, steps, value, placeholder, whole, off + keep);
            let out = seq![first] + tail;
            lemma_texts_prepend(first, tail);
            lemma_hits_skip(text, value, keep);
            lemma_shows_prepend(first, tail, placeholder);
            assert forall|other: Seq<char>| other != placeholder implies #[trigger] shows(
                out,
                other,
            ) == shows(pieces, other) by {
                lemma_shows_prepend(first, tail, other);
            }
            assert forall|i: int| 0 <= i < out.len() implies is_plain(#[trigger] out[i]) || (
            is_step(out[i], after) && !none.contains(out[i].shown)) by {
                if i > 0 {
                    assert(out[i] == tail[i - 1]);
                } else {
                    assert(out[0] == pieces[0]);
                }
            }
            out
        }
    }
}

/// A placeholder that stands at the head of a partly masked text stands
/// where a piece shows it, if in the text it stands across no other
/// placeholder that is still shown and not across itself, and if it does
/// not stand in the unmasked text.
///
/// The partly masked text is the text `whole` from offset `off` on.
pub proof fn lemma_match_is_piece(
    pieces: Seq<Piece>,
    steps: Seq<(Seq<char>, Seq<char>)>,
    done: Seq<Seq<char>>,
    placeholder: Seq<char>,
    n: int,
    whole: Seq<char>,
    off: int,
)
    requires
        parsed(pieces, steps, done),
        0 <= off <= whole.len(),
        shown_text(pieces) == whole.skip(off),
        matches_at(shown_text(pieces), placeholder, 0),
        placeholder.len() > 0,
        forall|k: int| 0 <= k < steps.len() ==> (#[trigger] steps[k]).1.len() > 0,
        !crosses_itself(whole, placeholder),
        forall|k: int|
            0 <= k < steps.len() && (#[trigger] steps[k]).1 != placeholder && !done.contains(
                steps[k].1,
            ) ==> !crosses(whole, placeholder, steps[k].1),
        !occurs_in(placeholder, held_text(pieces)),
        0 <= n <= placeholder.len(),
        n <= pieces.len(),
        forall|i: int| 0 <= i < n ==> is_plain(#[trigger] pieces[i]),
    ensures
        pieces.len() > 0,
        !is_plain(pieces[0]),
        pieces[0].shown == placeholder,
    decreases placeholder.len() - n,
{
    lemma_plain_run(pieces, n);
    if n == placeholder.len() {
        let text = shown_text(pieces);
        assert(text.subrange(0, n) =~= run(pieces, n));
        assert(held_text(pieces).subrange(0, n) =~= run(pieces, n));
        assert(matches_at(held_text(pieces), placeholder, 0));
    } else if n == pieces.len() {
        assert(shown_text(pieces.skip(n)).len() == 0);
        assert(shown_text(pieces).len() == n);
    } else if is_plain(pieces[n]) {
        lemma_match_is_piece(pieces, steps, done, placeholder, n + 1, whole, off);
    } else {
        let piece = pieces[n];
        let k = choose|k: int|
            0 <= k < steps.len() && piece.held == (#[trigger] steps[k]).0 && piece.shown
                == steps[k].1;
        lemma_piece_stands(pieces, n);
        lemma_matches_skip(whole, placeholder, off, 0);
        lemma_matches_skip(whole, piece.shown, off, n);
        assert(crossing(whole, placeholder, off, steps[k].1, off + n));
        if steps[k].1 != placeholder {
            assert(crosses(whole, placeholder, steps[k].1));
        } else if n > 0 {
            assert(crosses_itself(whole, placeholder));
        }
    }
}

/// A placeholder is replaced in a partly masked text as often as pieces
/// show it, if in the text it stands across no other placeholder that is
/// still shown and not across itself, and if it does not stand in the
/// unmasked text.
///
/// The partly masked text is the text `whole` from offset `off` on.
pub proof fn lemma_hits_are_pieces(
    pieces: Seq<Piece>,
    steps: Seq<(Seq<char>, Seq<char>)>,
    done: Seq<Seq<char>>,
    placeholder: Seq<char>,
    whole: Seq<char>,
    off: int,
)
    requires
        parsed(pieces, steps, done),
        0 <= off <= whole.len(),
        shown_text(pieces) == whole.skip(off),
        placeholder.len() > 0,
        forall|k: int| 0 <= k < steps.len() ==> (#[trigger] steps[k]).1.len() > 0,
        !crosses_itself(whole, placeholder),
        forall|k: int|
            0 <= k < steps.len() && (#[trigger] steps[k]).1 != placeholder && !done.contains(
                steps[k].1,
            ) ==> !crosses(whole, placeholder, steps[k].1),
        !occurs_in(placeholder, held_text(pieces)),
    ensures
        hits(shown_text(pieces), placeholder) == shows(pieces, placeholder),
    decreases pieces.len(),
{
    if pieces.len() > 0 {
        let text = shown_text(pieces);
        let first = pieces[0];
        let rest = pieces.skip(1);
        assert(text == first.shown + shown_text(rest));
        assert(held_text(pieces) == first.held + held_text(rest));
        assert(!occurs_in(placeholder, held_text(rest))) by {
            lemma_occurs_in_parts(placeholder, first.held, held_text(rest));
        }
        assert forall|i: int| 0 <= i < rest.len() implies is_plain(#[trigger] rest[i]) || (is_step(
            rest[i],
            steps,
        ) && !done.contains(rest[i].shown)) by {
            assert(rest[i] == pieces[i + 1]);
        }
        let keep = first.shown.len() as int;
        assert(text.skip(keep) =~= shown_text(rest));
        assert(whole.skip(off).skip(keep) =~= whole.skip(off + keep));
        lemma_hits_are_pieces(rest, steps, done, placeholder, whole, off + keep);
        if matches_at(text, placeholder, 0) {
            lemma_match_is_piece(pieces, steps, done, placeholder, 0, whole, off);
        } else {
            assert forall|at: int| 0 <= at < keep implies !matches_at(text, placeholder, at) by {
                if at > 0 && matches_at(text, placeholder, at) {
                    let k = choose|k: int|
                        0 <= k < steps.len() && first.held == (#[trigger] steps[k]).0
                            && first.shown == steps[k].1;
                    lemma_piece_stands(pieces, 0);
                    lemma_matches_skip(whole, placeholder, off, at);
                    lemma_matches_skip(whole, first.shown, off, 0);
                    assert(crossing(whole, placeholder, off + at, steps[k].1, off));
                    if steps[k].1 != placeholder {
                        assert(crosses(whole, placeholder, steps[k].1));
                    } else {
                        assert(crosses_itself(whole, placeholder));
                    }
                }
            }
            lemma_hits_skip(text, placeholder, keep);
            assert(first.shown != placeholder) by {
                if first.shown == placeholder {
                    assert(text.subrange(0, placeholder.len() as int) =~= placeholder);
                }
            }
        }
    }
}

/// A piece that shows the placeholder in the place of a value starts at
/// offset `at` of the text as it stands.
pub open spec fn shown_at(pieces: Seq<Piece>, placeholder: Seq<char>, at: int) -> bool
    decreases pieces.len(),
{
    if pieces.len() == 0 || at < 0 {
        false
    } else if at == 0 {
        shows_it(pieces[0], placeholder)
    } else if at < pieces[0].shown.len() {
        false
    } else {
        shown_at(pieces.skip(1), placeholder, at - pieces[0].shown.len())
    }
}

/// How many pieces that show the placeholder in the place of a value start
/// at offset `from` of the text or behind it.
pub open spec fn due(pieces: Seq<Piece>, placeholder: Seq<char>, from: int) -> nat
    decreases pieces.len(),
{
    if pieces.len() == 0 {
        0
    } else if shows_it(pieces[0], placeholder) && from <= 0 {
        1 + due(pieces.skip(1), placeholder, from - pieces[0].shown.len())
    } else {
        due(pieces.skip(1), placeholder, from - pieces[0].shown.len())
    }
}

/// The placeholder stands in the text only where a piece shows it.
pub open spec fn only_shown(pieces: Seq<Piece>, placeholder: Seq<char>) -> bool {
    forall|at: int|
        matches_at(shown_text(pieces), placeholder, at) ==> shown_at(pieces, placeholder, at)
}

/// No piece shows the empty text.
pub open spec fn all_filled(pieces: Seq<Piece>) -> bool {
    forall|i: int| 0 <= i < pieces.len() ==> (#[trigger] pieces[i]).shown.len() > 0
}

/// Pieces that are plain or show a placeholder that is not empty show no
/// empty text.
pub proof fn lemma_parsed_filled(
    pieces: Seq<Piece>,
    steps: Seq<(Seq<char>, Seq<char>)>,
    done: Seq<Seq<char>>,
)
    requires
        parsed(pieces, steps, done),
        forall|k: int| 0 <= k < steps.len() ==> (#[trigger] steps[k]).1.len() > 0,
    ensures
        all_filled(pieces),
{
    assert forall|i: int| 0 <= i < pieces.len() implies (#[trigger] pieces[i]).shown.len()
        > 0 by {
        if !is_plain(pieces[i]) {
            let k = choose|k: int|
                0 <= k < steps.len() && pieces[i].held == (#[trigger] steps[k]).0
                    && pieces[i].shown == steps[k].1;
        }
    }
}

proof fn lemma_rest_filled(pieces: Seq<Piece>)
    requires
        all_filled(pieces),
        pieces.len() > 0,
    ensures
        all_filled(pieces.skip(1)),
        pieces[0].shown.len() > 0,
{
    assert forall|i: int| 0 <= i < pieces.skip(1).len() implies (#[trigger] pieces.skip(
        1,
    )[i]).shown.len() > 0 by {
        assert(pieces.skip(1)[i] == pieces[i + 1]);
    }
}

/// From the start of the text on, every piece that shows the placeholder
/// is due.
pub proof fn lemma_due_all(pieces: Seq<Piece>, placeholder: Seq<char>, from: int)
    requires
        from <= 0,
    ensures
        due(pieces, placeholder, from) == shows(pieces, placeholder),
    decreases pieces.len(),
{
    if pieces.len() > 0 {
        lemma_due_all(pieces.skip(1), placeholder, from - pieces[0].shown.len());
    }
}

/// Behind the end of the text no piece is due.
pub proof fn lemma_due_none(pieces: Seq<Piece>, placeholder: Seq<char>, from: int)
    requires
        from > shown_text(pieces).len(),
    ensures
        due(pieces, placeholder, from) == 0,
    decreases pieces.len(),
{
    if pieces.len() > 0 {
        lemma_due_none(pieces.skip(1), placeholder, from - pieces[0].shown.len());
    }
}

/// Where a piece shows the placeholder, the placeholder stands in the text.
pub proof fn lemma_shown_stands(pieces: Seq<Piece>, placeholder: Seq<char>, at: int)
    requires
        shown_at(pieces, placeholder, at),
    ensures
        matches_at(shown_text(pieces), placeholder, at),
    decreases pieces.len(),
{
    let text = shown_text(pieces);
    let first = pieces[0].shown;
    let rest = shown_text(pieces.skip(1));
    if at == 0 {
        assert(text.subrange(0, placeholder.len() as int) =~= placeholder);
    } else {
        lemma_shown_stands(pieces.skip(1), placeholder, at - first.len());
        assert(text.skip(first.len() as int) =~= rest);
        lemma_matches_skip(text, placeholder, first.len() as int, at - first.len());
    }
}

/// Where no piece that shows the placeholder starts between two offsets,
/// as many pieces are due from the one as from the other.
pub proof fn lemma_due_same(pieces: Seq<Piece>, placeholder: Seq<char>, from: int, to: int)
    requires
        all_filled(pieces),
        from <= to,
        forall|at: int| from <= at < to ==> !shown_at(pieces, placeholder, at),
    ensures
        due(pieces, placeholder, from) == due(pieces, placeholder, to),
    decreases pieces.len(),
{
    if pieces.len() > 0 {
        let first = pieces[0].shown.len() as int;
        lemma_rest_filled(pieces);
        assert forall|at: int| from - first <= at < to - first implies !shown_at(
            pieces.skip(1),
            placeholder,
            at,
        ) by {
            if at >= 0 {
                assert(!shown_at(pieces, placeholder, at + first));
            }
        }
        lemma_due_same(pieces.skip(1), placeholder, from - first, to - first);
        if from <= 0 && 0 < to {
            assert(!shown_at(pieces, placeholder, 0));
        }
    }
}

/// Where a piece that shows the placeholder starts at an offset, one piece
/// more is due from the offset than from the next.
pub proof fn lemma_due_step(pieces: Seq<Piece>, placeholder: Seq<char>, at: int)
    requires
        all_filled(pieces),
        shown_at(pieces, placeholder, at),
    ensures
        due(pieces, placeholder, at) == 1 + due(pieces, placeholder, at + 1),
    decreases pieces.len(),
{
    let first = pieces[0].shown.len() as int;
    lemma_rest_filled(pieces);
    if at == 0 {
        assert forall|other: int| -first <= other < 1 - first implies !shown_at(
            pieces.skip(1),
            placeholder,
            other,
        ) by {}
        lemma_due_same(pieces.skip(1), placeholder, -first, 1 - first);
    } else {
        lemma_due_step(pieces.skip(1), placeholder, at - first);
    }
}

/// A placeholder that does not stand across itself in a text is replaced
/// at least as often as pieces show it, and once more if it stands where
/// no piece shows it.
pub proof fn lemma_hits_cover(pieces: Seq<Piece>, placeholder: Seq<char>, from: int)
    requires
        all_filled(pieces),
        placeholder.len() > 0,
        !crosses_itself(shown_text(pieces), placeholder),
        0 <= from <= shown_text(pieces).len(),
    ensures
        hits(shown_text(pieces).skip(from), placeholder) >= due(pieces, placeholder, from),
        forall|at: int|
            at >= from && matches_at(shown_text(pieces), placeholder, at) && !shown_at(
                pieces,
                placeholder,
                at,
            ) ==> hits(shown_text(pieces).skip(from), placeholder) >= due(
                pieces,
                placeholder,
                from,
            ) + 1,
    decreases shown_text(pieces).len() - from,
{
    let whole = shown_text(pieces);
    let text = whole.skip(from);
    let n = placeholder.len() as int;
    assert forall|at: int| matches_at(text, placeholder, at - from) && at >= from implies matches_at(
        whole,
        placeholder,
        at,
    ) by {
        lemma_matches_skip(whole, placeholder, from, at - from);
    }
    if text.len() < n {
        assert forall|at: int| from <= at < whole.len() + 1 implies !shown_at(
            pieces,
            placeholder,
            at,
        ) by {
            if shown_at(pieces, placeholder, at) {
                lemma_shown_stands(pieces, placeholder, at);
            }
        }
        lemma_due_same(pieces, placeholder, from, whole.len() as int + 1);
        lemma_due_none(pieces, placeholder, whole.len() as int + 1);
    } else if matches_at(text, placeholder, 0) {
        lemma_matches_skip(whole, placeholder, from, 0);
        let next = from + n;
        lemma_hits_cover(pieces, placeholder, next);
        assert(text.skip(n) =~= whole.skip(next));
        assert forall|at: int| from < at < next implies !shown_at(pieces, placeholder, at) by {
            if shown_at(pieces, placeholder, at) {
                lemma_shown_stands(pieces, placeholder, at);
                assert(crossing(whole, placeholder, from, placeholder, at));
            }
        }
        assert forall|at: int| from < at < next implies !matches_at(whole, placeholder, at) by {
            if matches_at(whole, placeholder, at) {
                assert(crossing(whole, placeholder, from, placeholder, at));
            }
        }
        if shown_at(pieces, placeholder, from) {
            lemma_due_step(pieces, placeholder, from);
            lemma_due_same(pieces, placeholder, from + 1, next);
        } else {
            lemma_due_same(pieces, placeholder, from, next);
        }
    } else {
        lemma_matches_skip(whole, placeholder, from, 0);
        lemma_hits_cover(pieces, placeholder, from + 1);
        assert(text.skip(1) =~= whole.skip(from + 1));
        assert(!shown_at(pieces, placeholder, from)) by {
            if shown_at(pieces, placeholder, from) {
                lemma_shown_stands(pieces, placeholder, from);
            }
        }
        lemma_due_same(pieces, placeholder, from, from + 1);
    }
}

/// A placeholder that does not stand across itself in a text, and that is
/// replaced in it as often as pieces show it, stands only where a piece
/// shows it.
pub proof fn lemma_only_shown(pieces: Seq<Piece>, placeholder: Seq<char>)
    requires
        all_filled(pieces),
        placeholder.len() > 0,
        !crosses_itself(shown_text(pieces), placeholder),
        hits(shown_text(pieces), placeholder) == shows(pieces, placeholder),
    ensures
        only_shown(pieces, placeholder),
{
    let whole = shown_text(pieces);
    assert(whole.skip(0) == whole);
    lemma_hits_cover(pieces, placeholder, 0);
    lemma_due_all(pieces, placeholder, 0);
}

/// Replaces a placeholder by its value in a partly masked text, piece by
/// piece.
///
/// Where the placeholder stands in the text only where a piece shows it,
/// the text after the replacement is again a row of pieces over the same
/// unmasked text. None of them shows the placeholder, and every other
/// placeholder is shown as often as before.
pub proof fn unmask_pieces(
    pieces: Seq<Piece>,
    steps: Seq<(Seq<char>, Seq<char>)>,
    done: Seq<Seq<char>>,
    placeholder: Seq<char>,
    value: Seq<char>,
) -> (out: Seq<Piece>)
    requires
        parsed(pieces, steps, done),
        all_filled(pieces),
        placeholder.len() > 0,
        only_shown(pieces, placeholder),
        forall|k: int|
            0 <= k < steps.len() && (#[trigger] steps[k]).1 == placeholder ==> steps[k].0 == value,
    ensures
        shown_text(out) == replaced(shown_text(pieces), placeholder, value),
        held_text(out) == held_text(pieces),
        parsed(out, steps, done.push(placeholder)),
        forall|other: Seq<char>|
            other != placeholder ==> #[trigger] shows(out, other) == shows(pieces, other),
    decreases pieces.len(),
{
    let after = done.push(placeholder);
    assert forall|text: Seq<char>| after.contains(text) implies done.contains(text) || text
        == placeholder by {
        let i = choose|i: int| 0 <= i < after.len() && after[i] == text;
        if i < done.len() {
            assert(done[i] == text);
        }
    }
    if pieces.len() == 0 {
        pieces
    } else {
        let text = shown_text(pieces);
        let first = pieces[0];
        let rest = pieces.skip(1);
        let keep = first.shown.len() as int;
        lemma_rest_filled(pieces);
        assert(text == first.shown + shown_text(rest));
        assert(text.skip(keep) =~= shown_text(rest));
        assert forall|i: int| 0 <= i < rest.len() implies is_plain(#[trigger] rest[i]) || (is_step(
            rest[i],
            steps,
        ) && !done.contains(rest[i].shown)) by {
            assert(rest[i] == pieces[i + 1]);
        }
        assert(only_shown(rest, placeholder)) by {
            assert forall|at: int| matches_at(shown_text(rest), placeholder, at) implies shown_at(
                rest,
                placeholder,
                at,
            ) by {
                lemma_matches_skip(text, placeholder, keep, at);
                assert(shown_at(pieces, placeholder, at + keep));
            }
        }
        let tail = unmask_pieces(rest, steps, done, placeholder, value);
        if matches_at(text, placeholder, 0) {
            assert(shown_at(pieces, placeholder, 0));
            let k = choose|k: int|
                0 <= k < steps.len() && first.held == (#[trigger] steps[k]).0 && first.shown
                    == steps[k].1;
            assert(first.held == value);
            let bare = plain_pieces(value);
            lemma_plain_pieces(value);
            let out = bare + tail;
            lemma_texts_join(bare, tail);
            assert forall|i: int| 0 <= i < out.len() implies is_plain(#[trigger] out[i]) || (
            is_step(out[i], steps) && !after.contains(out[i].shown)) by {
                if i < bare.len() {
                    assert(out[i] == bare[i]);
                    assert(bare[i].held =~= bare[i].shown);
                } else {
                    assert(out[i] == tail[i - bare.len()]);
                }
            }
            assert forall|other: Seq<char>| other != placeholder implies #[trigger] shows(
                out,
                other,
            ) == shows(pieces, other) by {
                assert forall|i: int| 0 <= i < bare.len() implies is_plain(#[trigger] bare[i]) by {
                    assert(bare[i].held =~= bare[i].shown);
                }
                lemma_shows_plain_run(out, bare.len() as int, other);
                assert(out.skip(bare.len() as int) =~= tail);
            }
            out
        } else {
            assert forall|at: int| 0 <= at < keep implies !matches_at(text, placeholder, at) by {
                if at > 0 && matches_at(text, placeholder, at) {
                    assert(shown_at(pieces, placeholder, at));
                }
            }
            lemma_replaced_skip(text, placeholder, value, keep);
            assert(text.take(keep) =~= first.shown);
            let out = seq![first] + tail;
            lemma_texts_prepend(first, tail);
            assert(first.shown != placeholder) by {
                if first.shown == placeholder {
                    assert(text.subrange(0, placeholder.len() as int) =~= placeholder);
                }
            }
            assert forall|i: int| 0 <= i < out.len() implies is_plain(#[trigger] out[i]) || (
            is_step(out[i], steps) && !after.contains(out[i].shown)) by {
                if i > 0 {
                    assert(out[i] == tail[i - 1]);
                } else {
                    assert(out[0] == pieces[0]);
                }
            }
            assert forall|other: Seq<char>| other != placeholder implies #[trigger] shows(
                out,
                other,
            ) == shows(pieces, other) by {
                lemma_shows_prepend(first, tail, other);
            }
            out
        }
    }
}

pub proof fn lemma_texts_join(a: Seq<Piece>, b: Seq<Piece>)
    ensures
        shown_text(a + b) == shown_text(a) + shown_text(b),
        held_text(a + b) == held_text(a) + held_text(b),
    decreases a.len(),
{
    if a.len() == 0 {
        assert(a + b =~= b);
        assert(shown_text(a) + shown_text(b) =~= shown_text(b));
        assert(held_text(a) + held_text(b) =~= held_text(b));
    } else {
        lemma_texts_join(a.skip(1), b);
        assert((a + b).skip(1) =~= a.skip(1) + b);
        assert(a[0].shown + (shown_text(a.skip(1)) + shown_text(b)) =~= shown_text(a)
            + shown_text(b));
        assert(a[0].held + (held_text(a.skip(1)) + held_text(b)) =~= held_text(a) + held_text(b));
    }
}

/// Where every piece is plain, the text stands as it was before masking.
pub proof fn lemma_all_plain(pieces: Seq<Piece>)
    requires
        forall|i: int| 0 <= i < pieces.len() ==> is_plain(#[trigger] pieces[i]),
    ensures
        shown_text(pieces) == held_text(pieces),
{
    lemma_plain_run(pieces, pieces.len() as int);
}

} // verus!
