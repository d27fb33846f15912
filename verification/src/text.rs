//! Sequences of characters and bytes: literal matching, replacement of every
//! occurrence, and the conversions between `str`, `String` and `Vec<char>`.
//!
//! A string is modelled in two ways. Its view `s@` is the sequence of its
//! characters; `s.spec_bytes()` is the sequence of its UTF-8 bytes. Offsets
//! into a text are byte offsets, replacement is done on characters.

use vstd::prelude::*;
use vstd::string::StringSliceAdditionalSpecFns;

verus! {

/// `pattern` stands in `text` at offset `at`.
pub open spec fn matches_at<T>(text: Seq<T>, pattern: Seq<T>, at: int) -> bool {
    &&& 0 <= at
    &&& at + pattern.len() <= text.len()
    &&& text.subrange(at, at + pattern.len()) == pattern
}

/// `pattern` stands somewhere in `text`.
pub open spec fn occurs_in<T>(pattern: Seq<T>, text: Seq<T>) -> bool {
    exists|at: int| matches_at(text, pattern, at)
}

/// `text` with every occurrence of `from` replaced by `to`.
///
/// Occurrences are taken from the left and do not overlap. An empty `from`
/// occurs before every element and at the end of the text.
pub open spec fn replaced<T>(text: Seq<T>, from: Seq<T>, to: Seq<T>) -> Seq<T>
    decreases text.len(),
{
    if from.len() == 0 {
        if text.len() == 0 {
            to
        } else {
            to.push(text[0]) + replaced(text.skip(1), from, to)
        }
    } else if text.len() < from.len() {
        text
    } else if matches_at(text, from, 0) {
        to + replaced(text.skip(from.len() as int), from, to)
    } else {
        seq![text[0]] + replaced(text.skip(1), from, to)
    }
}

/// How often `from` is replaced in `text`: the number of its occurrences,
/// taken from the left and not overlapping.
pub open spec fn hits<T>(text: Seq<T>, from: Seq<T>) -> nat
    decreases text.len(),
{
    if from.len() == 0 {
        text.len() + 1
    } else if text.len() < from.len() {
        0
    } else if matches_at(text, from, 0) {
        1 + hits(text.skip(from.len() as int), from)
    } else {
        hits(text.skip(1), from)
    }
}

/// `text` after the replacements `steps`, each a pair (from, to), applied one
/// after the other to the whole text.
pub open spec fn substituted(text: Seq<char>, steps: Seq<(Seq<char>, Seq<char>)>) -> Seq<char>
    decreases steps.len(),
{
    if steps.len() == 0 {
        text
    } else {
        replaced(substituted(text, steps.drop_last()), steps.last().0, steps.last().1)
    }
}

/// The decimal numeral of `n`, without leading zeros.
pub open spec fn decimal(n: nat) -> Seq<char>
    decreases n,
{
    if n < 10 {
        seq![digit(n)]
    } else {
        decimal(n / 10).push(digit(n % 10))
    }
}

/// The character of a decimal digit.
pub open spec fn digit(d: nat) -> char {
    if d == 0 {
        '0'
    } else if d == 1 {
        '1'
    } else if d == 2 {
        '2'
    } else if d == 3 {
        '3'
    } else if d == 4 {
        '4'
    } else if d == 5 {
        '5'
    } else if d == 6 {
        '6'
    } else if d == 7 {
        '7'
    } else if d == 8 {
        '8'
    } else {
        '9'
    }
}

/// A byte with an ASCII capital letter turned into its small letter.
pub open spec fn lower_byte(b: u8) -> u8 {
    if 65 <= b <= 90 {
        (b + 32) as u8
    } else {
        b
    }
}

/// `bytes` with every ASCII capital letter turned into its small letter.
pub open spec fn ascii_lowered(bytes: Seq<u8>) -> Seq<u8> {
    Seq::new(bytes.len(), |i: int| lower_byte(bytes[i]))
}

/// The text in capitals, as `str::to_uppercase` gives it.
pub uninterp spec fn uppercase(s: Seq<char>) -> Seq<char>;

/// The text in small letters, as `str::to_lowercase` gives it.
pub uninterp spec fn lowercase(s: Seq<char>) -> Seq<char>;

/// The text between double quotes with its special characters escaped, as
/// the `Debug` form of a `str` gives it.
pub uninterp spec fn debug_quoted(s: Seq<char>) -> Seq<char>;

/// `String::push` appends one character.
pub assume_specification[ String::push ](s: &mut String, c: char)
    ensures
        final(s)@ == old(s)@.push(c),
;

/// The text in capitals, by `str::to_uppercase`. Which characters have a
/// capital form, and which, is std's business.
#[verifier::external_body]
pub(crate) fn to_uppercase(s: &str) -> (upper: String)
    ensures
        upper@ == uppercase(s@),
{
    s.to_uppercase()
}

/// The text in small letters, by `str::to_lowercase`.
#[verifier::external_body]
pub(crate) fn to_lowercase(s: &str) -> (lower: String)
    ensures
        lower@ == lowercase(s@),
{
    s.to_lowercase()
}

/// The `Debug` form of a `str`: quoted and escaped.
#[verifier::external_body]
pub(crate) fn quoted(s: &str) -> (text: String)
    ensures
        text@ == debug_quoted(s@),
{
    format!("{:?}", s)
}

/// The characters of `s`, in order.
pub fn chars_of(s: &str) -> (chars: Vec<char>)
    ensures
        chars@ == s@,
{
    let mut chars: Vec<char> = Vec::new();
    for c in it: s.chars()
        invariant
            chars@ == it.seq().take(it.index()),
    {
        chars.push(c);
    }
    chars
}

/// The string made of `chars`, in order.
pub fn string_of(chars: &Vec<char>) -> (s: String)
    ensures
        s@ == chars@,
{
    let mut s = String::new();
    let mut i: usize = 0;
    while i < chars.len()
        invariant
            i <= chars.len(),
            s@ == chars@.take(i as int),
        decreases chars.len() - i,
    {
        s.push(chars[i]);
        i = i + 1;
        assert(chars@.take(i as int) == chars@.take(i - 1).push(chars@[i - 1]));
    }
    assert(chars@.take(chars.len() as int) == chars@);
    s
}

/// Appends `piece` to `out`.
pub fn append_chars(out: &mut Vec<char>, piece: &Vec<char>)
    ensures
        final(out)@ == old(out)@ + piece@,
{
    let mut i: usize = 0;
    while i < piece.len()
        invariant
            i <= piece.len(),
            out@ == old(out)@ + piece@.take(i as int),
        decreases piece.len() - i,
    {
        out.push(piece[i]);
        i = i + 1;
        assert(piece@.take(i as int) == piece@.take(i - 1).push(piece@[i - 1]));
    }
    assert(piece@.take(piece.len() as int) == piece@);
}

/// Whether `pattern` stands in `text` at offset `at`.
pub fn chars_match_at(text: &Vec<char>, pattern: &Vec<char>, at: usize) -> (found: bool)
    ensures
        found == matches_at(text@, pattern@, at as int),
{
    if pattern.len() > text.len() || at > text.len() - pattern.len() {
        return false;
    }
    let mut k: usize = 0;
    while k < pattern.len()
        invariant
            k <= pattern.len(),
            at + pattern.len() <= text.len(),
            forall|j: int| 0 <= j < k ==> text@[at + j] == pattern@[j],
        decreases pattern.len() - k,
    {
        if text[at + k] != pattern[k] {
            assert(text@.subrange(at as int, at + pattern.len())[k as int] != pattern@[k as int]);
            return false;
        }
        k = k + 1;
    }
    assert(text@.subrange(at as int, at + pattern.len()) =~= pattern@);
    true
}

/// Whether the bytes `pattern` stand in `text` at offset `at`.
pub fn bytes_match_at(text: &[u8], pattern: &[u8], at: usize) -> (found: bool)
    ensures
        found == matches_at(text@, pattern@, at as int),
{
    if pattern.len() > text.len() || at > text.len() - pattern.len() {
        return false;
    }
    let mut k: usize = 0;
    while k < pattern.len()
        invariant
            k <= pattern.len(),
            at + pattern.len() <= text.len(),
            forall|j: int| 0 <= j < k ==> text@[at + j] == pattern@[j],
        decreases pattern.len() - k,
    {
        if text[at + k] != pattern[k] {
            assert(text@.subrange(at as int, at + pattern.len())[k as int] != pattern@[k as int]);
            return false;
        }
        k = k + 1;
    }
    assert(text@.subrange(at as int, at + pattern.len()) =~= pattern@);
    true
}

/// Whether the bytes `needle` stand somewhere in `hay`.
pub fn bytes_contain(hay: &[u8], needle: &[u8]) -> (found: bool)
    ensures
        found == occurs_in(needle@, hay@),
{
    if needle.len() > hay.len() {
        return false;
    }
    let last: usize = hay.len() - needle.len();
    let mut at: usize = 0;
    while at < last
        invariant
            at <= last,
            last == hay.len() - needle.len(),
            forall|k: int| 0 <= k < at ==> !matches_at(hay@, needle@, k),
        decreases last - at,
    {
        if bytes_match_at(hay, needle, at) {
            return true;
        }
        at = at + 1;
    }
    bytes_match_at(hay, needle, last)
}

/// Whether two texts are the same.
pub fn same_text(a: &str, b: &str) -> (same: bool)
    ensures
        same == (a@ == b@),
{
    let x = a.as_bytes();
    let y = b.as_bytes();
    proof {
        vstd::utf8::encode_utf8_decode_utf8(a@);
        vstd::utf8::encode_utf8_decode_utf8(b@);
    }
    if x.len() != y.len() {
        return false;
    }
    let same = bytes_match_at(x, y, 0);
    proof {
        assert(x@.subrange(0, y@.len() as int) == x@);
    }
    same
}

/// Replaces every occurrence of `from` in `text` by `to`.
pub fn replace_all(text: &Vec<char>, from: &Vec<char>, to: &Vec<char>) -> (out: Vec<char>)
    ensures
        out@ == replaced(text@, from@, to@),
{
    let mut out: Vec<char> = Vec::new();
    let mut i: usize = 0;
    proof {
        assert(text@.skip(0) == text@);
        assert(out@ + replaced(text@, from@, to@) == replaced(text@, from@, to@));
    }
    while i < text.len()
        invariant
            i <= text.len(),
            out@ + replaced(text@.skip(i as int), from@, to@) == replaced(text@, from@, to@),
        decreases text.len() - i,
    {
        let ghost rest = text@.skip(i as int);
        let ghost before = out@;
        if from.len() == 0 {
            append_chars(&mut out, to);
            out.push(text[i]);
            proof {
                assert(rest.skip(1) == text@.skip(i + 1));
                assert(out@ + replaced(rest.skip(1), from@, to@) == before + (to@.push(rest[0])
                    + replaced(rest.skip(1), from@, to@)));
            }
            i = i + 1;
        } else if chars_match_at(text, from, i) {
            append_chars(&mut out, to);
            proof {
                assert(rest.subrange(0, from@.len() as int) == text@.subrange(
                    i as int,
                    i + from@.len(),
                ));
                assert(rest.skip(from@.len() as int) == text@.skip(i + from@.len()));
                assert(out@ + replaced(rest.skip(from@.len() as int), from@, to@) == before + (to@
                    + replaced(rest.skip(from@.len() as int), from@, to@)));
            }
            i = i + from.len();
        } else {
            out.push(text[i]);
            proof {
                if rest.len() >= from@.len() {
                    assert(rest.subrange(0, from@.len() as int) == text@.subrange(
                        i as int,
                        i + from@.len(),
                    ));
                }
                lemma_replaced_skips_mismatch(rest, from@, to@);
                assert(rest.skip(1) == text@.skip(i + 1));
                assert(out@ + replaced(rest.skip(1), from@, to@) == before + (seq![rest[0]]
                    + replaced(rest.skip(1), from@, to@)));
            }
            i = i + 1;
        }
    }
    proof {
        assert(text@.skip(text@.len() as int).len() == 0);
    }
    if from.len() == 0 {
        append_chars(&mut out, to);
    }
    out
}

/// Where a non-empty `from` does not stand at the head of a non-empty text,
/// the head stays and the rest is replaced.
pub proof fn lemma_replaced_skips_mismatch<T>(text: Seq<T>, from: Seq<T>, to: Seq<T>)
    requires
        text.len() > 0,
        from.len() > 0,
        !matches_at(text, from, 0),
    ensures
        replaced(text, from, to) == seq![text[0]] + replaced(text.skip(1), from, to),
{
    if text.len() < from.len() {
        assert(text.skip(1).len() < from.len());
        assert(replaced(text.skip(1), from, to) == text.skip(1));
        assert(seq![text[0]] + text.skip(1) =~= text);
    }
}

/// The decimal numeral of `n`.
pub fn decimal_string(n: usize) -> (s: String)
    ensures
        s@ == decimal(n as nat),
    decreases n,
{
    if n < 10 {
        let mut s = String::new();
        s.push(digit_char(n));
        assert(s@ =~= seq![digit(n as nat)]);
        s
    } else {
        let mut s = decimal_string(n / 10);
        s.push(digit_char(n % 10));
        s
    }
}

fn digit_char(d: usize) -> (c: char)
    requires
        d < 10,
    ensures
        c == digit(d as nat),
{
    if d == 0 {
        '0'
    } else if d == 1 {
        '1'
    } else if d == 2 {
        '2'
    } else if d == 3 {
        '3'
    } else if d == 4 {
        '4'
    } else if d == 5 {
        '5'
    } else if d == 6 {
        '6'
    } else if d == 7 {
        '7'
    } else if d == 8 {
        '8'
    } else {
        '9'
    }
}

/// Whether `name`, with its ASCII capitals made small, is `lowered`.
pub fn equals_ignoring_ascii_case(name: &str, lowered: &str) -> (equal: bool)
    ensures
        equal == (ascii_lowered(name.spec_bytes()) == lowered.spec_bytes()),
{
    let a = name.as_bytes();
    let b = lowered.as_bytes();
    if a.len() != b.len() {
        return false;
    }
    let mut k: usize = 0;
    while k < a.len()
        invariant
            k <= a.len(),
            a.len() == b.len(),
            a@ == name.spec_bytes(),
            b@ == lowered.spec_bytes(),
            forall|j: int| 0 <= j < k ==> lower_byte(a@[j]) == b@[j],
        decreases a.len() - k,
    {
        let x = a[k];
        let folded: u8 = if 65 <= x && x <= 90 {
            x + 32
        } else {
            x
        };
        if folded != b[k] {
            assert(ascii_lowered(a@)[k as int] != b@[k as int]);
            return false;
        }
        k = k + 1;
    }
    assert(ascii_lowered(a@) =~= b@);
    true
}

} // verus!
