//! When two texts can overlap, and what replacement does where they cannot.

use crate::text::{hits, lemma_replaced_skips_mismatch, matches_at, occurs_in, replaced};
use vstd::prelude::*;

verus! {

/// `y`, laid over `x` from offset `at` of `x` on, agrees with `x` wherever
/// both have an element.
pub open spec fn overlaps_at<T>(x: Seq<T>, y: Seq<T>, at: int) -> bool {
    &&& 0 <= at < x.len()
    &&& forall|i: int| at <= i < x.len() && i < at + y.len() ==> x[i] == y[i - at]
}

/// Some text holds `x` and `y` at places that share an element: one stands
/// within the other, or an end of one is a beginning of the other.
pub open spec fn clash<T>(x: Seq<T>, y: Seq<T>) -> bool {
    exists|at: int| overlaps_at(x, y, at) || overlaps_at(y, x, at)
}

/// No end of `x` but the whole is a beginning of `x`: two places at which
/// `x` stands in a text share no element.
pub open spec fn unbordered<T>(x: Seq<T>) -> bool {
    forall|at: int| 0 < at < x.len() ==> !overlaps_at(x, x, at)
}

/// `x` stands in `text` at offset `a` and `y` at offset `b`, and the two
/// places share an element.
pub open spec fn crossing<T>(text: Seq<T>, x: Seq<T>, a: int, y: Seq<T>, b: int) -> bool {
    &&& matches_at(text, x, a)
    &&& matches_at(text, y, b)
    &&& a < b + y.len()
    &&& b < a + x.len()
}

/// `x` and `y` stand in `text` at places that share an element.
pub open spec fn crosses<T>(text: Seq<T>, x: Seq<T>, y: Seq<T>) -> bool {
    exists|a: int, b: int| crossing(text, x, a, y, b)
}

/// `x` stands in `text` at two places that share an element.
pub open spec fn crosses_itself<T>(text: Seq<T>, x: Seq<T>) -> bool {
    exists|a: int, b: int| a != b && crossing(text, x, a, x, b)
}

/// What stands across each other in a text can overlap.
pub proof fn lemma_crossing_clashes<T>(text: Seq<T>, x: Seq<T>, a: int, y: Seq<T>, b: int)
    requires
        crossing(text, x, a, y, b),
    ensures
        clash(x, y),
        a <= b ==> overlaps_at(x, y, b - a),
        b <= a ==> overlaps_at(y, x, a - b),
{
    if a <= b {
        assert forall|i: int| b - a <= i < x.len() && i < b - a + y.len() implies x[i] == y[i - (b
            - a)] by {
            assert(text.subrange(a, a + x.len())[i] == text[a + i]);
            assert(text.subrange(b, b + y.len())[i - (b - a)] == text[a + i]);
        }
        assert(overlaps_at(x, y, b - a));
    } else {
        assert forall|i: int| a - b <= i < y.len() && i < a - b + x.len() implies y[i] == x[i - (a
            - b)] by {
            assert(text.subrange(b, b + y.len())[i] == text[b + i]);
            assert(text.subrange(a, a + x.len())[i - (a - b)] == text[b + i]);
        }
        assert(overlaps_at(y, x, a - b));
    }
}

/// What stands across each other in the rest of a text does so in the text.
pub proof fn lemma_crossing_skip<T>(text: Seq<T>, n: int, x: Seq<T>, a: int, y: Seq<T>, b: int)
    requires
        0 <= n <= text.len(),
        crossing(text.skip(n), x, a, y, b),
    ensures
        crossing(text, x, a + n, y, b + n),
{
    lemma_matches_skip(text, x, n, a);
    lemma_matches_skip(text, y, n, b);
}

/// A pattern stands in the rest of a text where it stands in the text
/// further on.
pub proof fn lemma_matches_skip<T>(text: Seq<T>, pattern: Seq<T>, n: int, at: int)
    requires
        0 <= n <= text.len(),
        0 <= at,
    ensures
        matches_at(text.skip(n), pattern, at) == matches_at(text, pattern, at + n),
{
    if at + n + pattern.len() <= text.len() {
        assert(text.skip(n).subrange(at, at + pattern.len()) =~= text.subrange(
            at + n,
            at + n + pattern.len(),
        ));
    }
}

/// A pattern that stands in one of two texts stands in the two joined.
pub proof fn lemma_occurs_in_parts<T>(pattern: Seq<T>, a: Seq<T>, b: Seq<T>)
    ensures
        occurs_in(pattern, a) ==> occurs_in(pattern, a + b),
        occurs_in(pattern, b) ==> occurs_in(pattern, a + b),
{
    if occurs_in(pattern, a) {
        let at = choose|at: int| matches_at(a, pattern, at);
        assert((a + b).subrange(at, at + pattern.len()) =~= a.subrange(at, at + pattern.len()));
        assert(matches_at(a + b, pattern, at));
    }
    if occurs_in(pattern, b) {
        let at = choose|at: int| matches_at(b, pattern, at);
        assert((a + b).subrange(a.len() + at, a.len() + at + pattern.len()) =~= b.subrange(
            at,
            at + pattern.len(),
        ));
        assert(matches_at(a + b, pattern, a.len() + at));
    }
}

/// Where `from` stands at none of the first `n` offsets of a text, the
/// first `n` elements stay and the rest is replaced.
pub proof fn lemma_replaced_skip<T>(text: Seq<T>, from: Seq<T>, to: Seq<T>, n: int)
    requires
        from.len() > 0,
        0 <= n <= text.len(),
        forall|at: int| 0 <= at < n ==> !matches_at(text, from, at),
    ensures
        replaced(text, from, to) == text.take(n) + replaced(text.skip(n), from, to),
    decreases n,
{
    if n == 0 {
        assert(text.skip(0) == text);
        assert(text.take(0) + replaced(text, from, to) =~= replaced(text, from, to));
    } else {
        lemma_replaced_skips_mismatch(text, from, to);
        assert forall|at: int| 0 <= at < n - 1 implies !matches_at(text.skip(1), from, at) by {
            lemma_matches_skip(text, from, 1, at);
        }
        lemma_replaced_skip(text.skip(1), from, to, n - 1);
        assert(text.skip(1).skip(n - 1) == text.skip(n));
        assert(seq![text[0]] + text.skip(1).take(n - 1) =~= text.take(n));
        assert(seq![text[0]] + (text.skip(1).take(n - 1) + replaced(text.skip(n), from, to))
            =~= text.take(n) + replaced(text.skip(n), from, to));
    }
}

/// Where `from` stands at none of the first `n` offsets of a text, it is
/// replaced as often in the text as in the rest.
pub proof fn lemma_hits_skip<T>(text: Seq<T>, from: Seq<T>, n: int)
    requires
        from.len() > 0,
        0 <= n <= text.len(),
        forall|at: int| 0 <= at < n ==> !matches_at(text, from, at),
    ensures
        hits(text, from) == hits(text.skip(n), from),
    decreases n,
{
    if n == 0 {
        assert(text.skip(0) == text);
    } else {
        assert forall|at: int| 0 <= at < n - 1 implies !matches_at(text.skip(1), from, at) by {
            lemma_matches_skip(text, from, 1, at);
        }
        lemma_hits_skip(text.skip(1), from, n - 1);
        assert(text.skip(1).skip(n - 1) == text.skip(n));
        if text.len() < from.len() {
            assert(text.skip(1).len() < from.len());
            assert(text.skip(n).len() < from.len());
        }
    }
}

/// A text in which `from` does not stand is left as it is.
pub proof fn lemma_replaced_absent<T>(text: Seq<T>, from: Seq<T>, to: Seq<T>)
    requires
        from.len() > 0,
        !occurs_in(from, text),
    ensures
        replaced(text, from, to) == text,
{
    lemma_replaced_skip(text, from, to, text.len() as int);
    assert(text.take(text.len() as int) == text);
    assert(text.skip(text.len() as int).len() == 0);
    assert(text + replaced(text.skip(text.len() as int), from, to) =~= text);
}

} // verus!
