//! Special casing for the purpose of hyphenation
//!
//! Implemented here is a "refolding" pass which covers complementary case
//! mappings (rarely) required for the correct hyphenation of uppercase or
//! mixed-case words.
//!
//! Patterns maintained by the TeX project are not generated in strict
//! accordance with Unicode case folding; rather, they include multiple
//! concrete sequences at the discretion of the pattern developer, under the
//! assumption that words may be lowercased with varying degrees of Unicode
//! awareness.
//!
//! Although the approach works quite well when matching against `str`, two
//! discrepancies remain:
//!
//! - Firstly, folding may shift character boundaries, invalidating the indices
//!   of opportunities found by our dictionaries, which are byte-based and have
//!   no notion of `char`. Thus, any opportunity found in a folded word must be
//!   mapped back to its correct position in the original, unfolded word.
//! - Secondly, patterns may not account for all concrete sequences that occur
//!   when using `str::to_lowercase` as a loose folding pass.
//!
//! # Supplementary case mappings
//!
//! | uppercase            | lowercase            | refold
//! |----------------------|----------------------|----------------
//! |'İ' \u{130}, length 2 | "i\u{307}", length 3 | "i", length 1
//!
//! The Turkish `İ` in its recomposed form is folded regardless of language or
//! context, because the equivalence-preserving lowercase "i\u{307}" not only
//! disrupts pattern matching – be it byte-based or char-based – but also
//! shifts and invalidates any opportunity arising after it.

use crate::text::{char_indices, char_offset, lemma_char_offset_bound, lemma_char_offset_step};
use std::borrow::Cow;
use vstd::prelude::*;
use vstd::string::*;
use vstd::utf8::*;

verus! {

/// Whether the character is uppercase, as Unicode defines it.
pub uninterp spec fn char_is_uppercase(c: char) -> bool;

/// The lowercase equivalent of the characters, as Unicode defines it.
pub uninterp spec fn lowercase(s: Seq<char>) -> Seq<char>;

/// The characters with each occurrence of `from` replaced by `to`, the
/// occurrences being taken from the left and not overlapping.
pub open spec fn replaced(s: Seq<char>, from: Seq<char>, to: Seq<char>) -> Seq<char>
    decreases s.len(),
{
    if from.len() == 0 || s.len() < from.len() {
        s
    } else if s.take(from.len() as int) == from {
        to + replaced(s.skip(from.len() as int), from, to)
    } else {
        seq![s[0]] + replaced(s.drop_first(), from, to)
    }
}

/// `char::is_uppercase`: whether the character has the Unicode property
/// `Uppercase`.
#[verifier::external_body]
fn is_uppercase(c: char) -> (r: bool)
    ensures
        r == char_is_uppercase(c),
{
    c.is_uppercase()
}

/// `str::to_lowercase`: the lowercase equivalent of the string, as a new
/// string.
#[verifier::external_body]
pub(crate) fn to_lowercase(s: &str) -> (r: String)
    ensures
        r@ == lowercase(s@),
{
    s.to_lowercase()
}

/// `str::replace`: a new string in which every match of the pattern is
/// replaced by the other string.
#[verifier::external_body]
fn replace(s: &str, from: &str, to: &str) -> (r: String)
    requires
        from@.len() > 0,
    ensures
        r@ == replaced(s@, from@, to@),
{
    s.replace(from, to)
}

/// From `index` on, offsets in the refolded word are `delta` greater than
/// those in the original word.
#[derive(Copy, Clone, Debug)]
pub struct Shift {
    pub index: usize,
    pub delta: isize,
}

/// The shift at index `i` in the refolded string: that of the last entry
/// which lies before `i`, or 0.
pub open spec fn shift_at_spec(i: usize, shifts: Seq<Shift>) -> int
    decreases shifts.len(),
{
    if shifts.len() == 0 {
        0
    } else if i > shifts.last().index {
        shifts.last().delta as int
    } else {
        shift_at_spec(i, shifts.drop_last())
    }
}

/// The opportunity `i`, index-corrected for use in the original string.
pub open spec fn realign_spec(i: usize, shifts: Seq<Shift>) -> int {
    i - shift_at_spec(i, shifts)
}

/// The opportunity `i`, index-corrected for use in the original string.
pub fn realign(i: usize, shifts: &[Shift]) -> (r: usize)
    requires
        0 <= realign_spec(i, shifts@) <= usize::MAX,
    ensures
        r == realign_spec(i, shifts@),
{
    let delta = shift_at(i, shifts);
    if delta < 0 {
        i + ((-(delta + 1)) as usize + 1)
    } else {
        i - (delta as usize)
    }
}

/// The shift at index `i` in the refolded string.
fn shift_at(i: usize, shifts: &[Shift]) -> (r: isize)
    ensures
        r == shift_at_spec(i, shifts@),
{
    let mut n = shifts.len();
    assert(shifts@.take(n as int) =~= shifts@);
    while n > 0
        invariant
            n <= shifts.len(),
            shift_at_spec(i, shifts@) == shift_at_spec(i, shifts@.take(n as int)),
        decreases n,
    {
        let ghost head = shifts@.take(n as int);
        assert(head.last() == shifts@[n - 1]);
        assert(head.drop_last() =~= shifts@.take(n - 1));
        if i > shifts[n - 1].index {
            return shifts[n - 1].delta;
        }
        n = n - 1;
    }
    assert(shifts@.take(0).len() == 0);
    0
}

/// The capital I with a dot above, whose lowercase takes a byte more than
/// itself, and two more than its refolded form.
pub open spec fn dotted_capital() -> char {
    '\u{130}'
}

/// The shifts that the dotted capitals among the first `n` characters
/// induce: each lies where its capital stands in the refolded word, and
/// counts the capitals up to and including its own, negated.
pub open spec fn shifts_upto(chars: Seq<char>, n: int) -> Seq<Shift>
    decreases n,
{
    if n <= 0 {
        Seq::empty()
    } else {
        let before = shifts_upto(chars, n - 1);
        if chars[n - 1] == dotted_capital() {
            before.push(
                Shift {
                    index: (char_offset(chars, n - 1) - before.len()) as usize,
                    delta: (-(before.len() + 1)) as isize,
                },
            )
        } else {
            before
        }
    }
}

/// The shifts that refolding the word induces.
pub open spec fn shifts_spec(chars: Seq<char>) -> Seq<Shift> {
    shifts_upto(chars, chars.len() as int)
}

/// Each shift is one more than the one before it, the first being -1.
pub open spec fn counts_down(shifts: Seq<Shift>) -> bool {
    forall|j: int| 0 <= j < shifts.len() ==> (#[trigger] shifts[j]).delta == -(j + 1)
}

/// Where the shifts count down from -1, the shift at an offset lies between
/// the negated number of shifts and 0.
pub proof fn lemma_shift_at_range(i: usize, shifts: Seq<Shift>, n: int)
    requires
        0 <= n <= shifts.len(),
        counts_down(shifts),
    ensures
        -n <= shift_at_spec(i, shifts.take(n)) <= 0,
    decreases n,
{
    let head = shifts.take(n);
    if n > 0 {
        assert(head.last() == shifts[n - 1]);
        assert(head.drop_last() =~= shifts.take(n - 1));
        lemma_shift_at_range(i, shifts, n - 1);
    }
}

/// Each dotted capital takes two bytes.
proof fn lemma_shifts_are_few(chars: Seq<char>, n: int)
    requires
        0 <= n <= chars.len(),
    ensures
        2 * shifts_upto(chars, n).len() <= char_offset(chars, n),
    decreases n,
{
    if n > 0 {
        lemma_shifts_are_few(chars, n - 1);
        lemma_char_offset_step(chars, n - 1);
        if chars[n - 1] == dotted_capital() {
            assert(dotted_capital() as u32 == 0x130u32);
            assert(encode_scalar(0x130u32).len() == 2);
        }
    } else {
        assert(chars.take(0) =~= Seq::<char>::empty());
    }
}

/// The shifts that refolding the word induces.
fn shifts(word: &str) -> (r: Vec<Shift>)
    ensures
        r@ == shifts_spec(word@),
        counts_down(r@),
{
    let chars = char_indices(word);
    let mut r: Vec<Shift> = Vec::new();
    let mut n: usize = 0;
    while n < chars.len()
        invariant
            n <= chars.len(),
            chars.len() == word@.len(),
            forall|k: int|
                0 <= k < chars.len() ==> (#[trigger] chars[k]).0 == char_offset(word@, k)
                    && chars[k].1 == word@[k],
            r@ == shifts_upto(word@, n as int),
            counts_down(r@),
        decreases chars.len() - n,
    {
        let (at, c) = chars[n];
        if c == '\u{130}' {
            proof {
                lemma_shifts_are_few(word@, n as int);
                lemma_char_offset_step(word@, n as int);
                lemma_char_offset_bound(word@, n + 1);
                assert(dotted_capital() as u32 == 0x130u32);
                assert(encode_scalar(0x130u32).len() == 2);
            }
            let count = r.len();
            r.push(Shift { index: at - count, delta: -(count as isize) - 1 });
        }
        n = n + 1;
    }
    r
}

/// The lowercase of the dotted capital, and what it is refolded to.
pub open spec fn dotted_small() -> Seq<char> {
    seq!['i', '\u{307}']
}

/// The small letter that the dotted capital is refolded to.
pub open spec fn plain_small() -> Seq<char> {
    seq!['i']
}

/// Whether one of the characters is uppercase.
pub open spec fn has_uppercase(chars: Seq<char>) -> bool {
    exists|i: int| 0 <= i < chars.len() && char_is_uppercase(#[trigger] chars[i])
}

/// Whether lowercasing changes the length of the word in bytes.
pub open spec fn lowercase_resizes(chars: Seq<char>) -> bool {
    encode_utf8(chars).len() != encode_utf8(lowercase(chars)).len()
}

/// The word as it is looked up, and the shifts between its offsets and those
/// of the original: the original itself where it has no uppercase character,
/// else its lowercase, refolded where lowercasing changed its length.
pub open spec fn refold_spec(original: Seq<char>) -> (Seq<char>, Seq<Shift>) {
    if !has_uppercase(original) {
        (original, Seq::empty())
    } else if lowercase_resizes(original) {
        (replaced(lowercase(original), dotted_small(), plain_small()), shifts_spec(original))
    } else {
        (lowercase(original), Seq::empty())
    }
}

/// Whether one of the characters of the string is uppercase.
pub(crate) fn any_uppercase(s: &str) -> (any: bool)
    ensures
        any == has_uppercase(s@),
{
    let mut any = false;
    for c in it: s.chars()
        invariant
            it.seq() == s@,
            any == has_uppercase(s@.take(it.index() as int)),
    {
        let ghost n = it.index() as int;
        let up = is_uppercase(c);
        proof {
            let now = s@.take(n + 1);
            let was = s@.take(n);
            if up {
                assert(char_is_uppercase(now[n]));
            }
            if has_uppercase(was) {
                let i = choose|i: int| 0 <= i < was.len() && char_is_uppercase(#[trigger] was[i]);
                assert(char_is_uppercase(now[i]));
            }
            if has_uppercase(now) {
                let i = choose|i: int| 0 <= i < now.len() && char_is_uppercase(#[trigger] now[i]);
                if i < n {
                    assert(char_is_uppercase(was[i]));
                }
            }
        }
        any = any || up;
    }
    assert(s@.take(s@.len() as int) =~= s@);
    any
}

/// Should the original string contain special-cased codepoints, refold it
/// for hyphenation and provide the induced index shifts. Otherwise, merely
/// ensure that it is lowercase.
pub fn refold<'t>(original: &'t str) -> (r: (Cow<'t, str>, Vec<Shift>))
    ensures
        r.0@ == refold_spec(original@).0,
        r.1@ == refold_spec(original@).1,
        counts_down(r.1@),
{
    let any = any_uppercase(original);
    if any {
        let lowercase = to_lowercase(original);
        // Comparing the lengths in bytes tells whether a character changed
        // size when lowercased.
        if original.as_bytes().len() != lowercase.as_str().as_bytes().len() {
            (Cow::Owned(refold_lowercase(lowercase.as_str())), shifts(original))
        } else {
            (Cow::Owned(lowercase), Vec::new())
        }
    } else {
        (Cow::Borrowed(original), Vec::new())
    }
}

/// Substitute lowercase sequences that would interfere with hyphenation.
/// Canonical equivalence is not necessarily preserved.
fn refold_lowercase(lowercase: &str) -> (r: String)
    ensures
        r@ == replaced(lowercase@, dotted_small(), plain_small()),
{
    proof {
        reveal_strlit("i\u{307}");
        reveal_strlit("i");
        assert("i\u{307}"@ =~= dotted_small());
        assert("i"@ =~= plain_small());
    }
    replace(lowercase, "i\u{307}", "i")
}

} // verus!
