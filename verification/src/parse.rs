//! Pattern and exception parsing.

use crate::dictionary::extended::{Subregion, Tally};
use crate::dictionary::{Exceptions, Locus, Patterns};
use crate::text::{
    char_indices, char_offset, lemma_boundary_is_char_offset, lemma_char_offset_ends,
    lemma_char_offset_is_boundary, lemma_char_offset_step, lemma_encode_concat, slice,
};
use vstd::slice::*;
use vstd::prelude::*;
use vstd::string::*;
use vstd::utf8::*;

verus! {

/// Whether the character is alphabetic, as Unicode defines it.
pub uninterp spec fn char_is_alphabetic(c: char) -> bool;

/// `char::is_alphabetic`: whether the character has the Unicode property
/// `Alphabetic`.
#[verifier::external_body]
fn is_alphabetic(c: char) -> (r: bool)
    ensures
        r == char_is_alphabetic(c),
{
    c.is_alphabetic()
}

/// `String::push`: appends the character to the end of the string.
#[verifier::external_body]
fn push_char(s: &mut String, c: char)
    ensures
        final(s)@ == old(s)@.push(c),
{
    s.push(c)
}

/// The value of a decimal digit.
pub open spec fn digit_of(c: char) -> Option<u8> {
    if '0' <= c <= '9' {
        Some((c as u32 - '0' as u32) as u8)
    } else {
        None
    }
}

/// The value that a hyphen stands for in an exception, where it marks a
/// break.
pub open spec fn hyphen_of(c: char) -> Option<u8> {
    if c == '-' {
        Some(2u8)
    } else {
        None
    }
}

/// The first `n` characters without those that `value` gives a value to.
pub open spec fn without_values(chars: Seq<char>, value: spec_fn(char) -> Option<u8>, n: int) -> Seq<
    char,
>
    decreases n,
{
    if n <= 0 {
        Seq::empty()
    } else if value(chars[n - 1]) is None {
        without_values(chars, value, n - 1).push(chars[n - 1])
    } else {
        without_values(chars, value, n - 1)
    }
}

/// The loci of the digits among the first `n` bytes of a pattern: each digit
/// gives its value to the position that it stands at once the digits before
/// it are taken out.
pub open spec fn loci_upto(bytes: Seq<u8>, n: int) -> Seq<Locus>
    decreases n,
{
    if n <= 0 {
        Seq::empty()
    } else {
        let before = loci_upto(bytes, n - 1);
        match digit_of(bytes[n - 1] as char) {
            Some(value) => before.push(
                Locus { index: ((n - 1 - before.len()) % 256) as u8, value },
            ),
            None => before,
        }
    }
}

/// The breaks that the hyphens among the first `n` bytes of an exception
/// mark: each hyphen marks the position that it stands at once the hyphens
/// before it are taken out.
pub open spec fn hyphens_upto(bytes: Seq<u8>, n: int) -> Seq<usize>
    decreases n,
{
    if n <= 0 {
        Seq::empty()
    } else {
        let before = hyphens_upto(bytes, n - 1);
        if bytes[n - 1] == 45u8 {
            before.push((n - 1 - before.len()) as usize)
        } else {
            before
        }
    }
}

/// Parsing of the lines of a pattern file: each line gives the letters to
/// match and the tally that belongs to them.
pub trait Parse {
    type Tally: Eq;

    /// The value that the character stands for, if it is not a letter of the
    /// pattern.
    spec fn value_of(c: char) -> Option<u8>;

    /// Whether the line can be read.
    spec fn parses(s: Seq<char>) -> bool;

    /// Whether the tally is that of the line.
    spec fn is_tally(s: Seq<char>, tally: Self::Tally) -> bool;

    /// The letters of the line.
    spec fn letters(s: Seq<char>) -> Seq<char>;

    fn value(v: char) -> (r: Option<u8>)
        ensures
            r == Self::value_of(v),
    ;

    fn tally(s: &str) -> (r: Self::Tally)
        requires
            Self::parses(s@),
        ensures
            Self::is_tally(s@, r),
    ;

    fn alphabetical(s: &str) -> (r: String)
        ensures
            r@ == Self::letters(s@),
    ;

    fn pair<N>(str_klp: &str, normalize: N) -> (r: (String, Self::Tally)) where
        N: Fn(&str) -> String,

        requires
            call_requires(normalize, (str_klp,)),
            forall|normalized: String|
                call_ensures(normalize, (str_klp,), normalized) ==> Self::parses(normalized@),
        ensures
            exists|normalized: String|
                call_ensures(normalize, (str_klp,), normalized) && r.0@ == Self::letters(
                    normalized@,
                ) && Self::is_tally(normalized@, r.1),
    {
        let normalized = normalize(str_klp);
        (Self::alphabetical(normalized.as_str()), Self::tally(normalized.as_str()))
    }
}

/// The value of the character as a decimal digit.
fn digit_value(c: char) -> (r: Option<u8>)
    ensures
        r == digit_of(c),
{
    if c >= '0' && c <= '9' {
        Some((c as u32 - '0' as u32) as u8)
    } else {
        None
    }
}

/// The characters of the string but the decimal digits.
fn without_digits(s: &str) -> (r: String)
    ensures
        r@ == without_values(s@, |c: char| digit_of(c), s@.len() as int),
{
    let mut r = String::new();
    for c in it: s.chars()
        invariant
            it.seq() == s@,
            r@ == without_values(s@, |c: char| digit_of(c), it.index() as int),
    {
        if digit_value(c).is_none() {
            push_char(&mut r, c);
        }
    }
    r
}

/// The loci of the digits of a pattern.
fn loci(pattern: &str) -> (r: Vec<Locus>)
    ensures
        r@ == loci_upto(pattern.spec_bytes(), pattern.spec_bytes().len() as int),
{
    let bytes = pattern.as_bytes();
    let mut r: Vec<Locus> = Vec::new();
    let mut i: usize = 0;
    while i < bytes.len()
        invariant
            i <= bytes.len(),
            bytes@ == pattern.spec_bytes(),
            r.len() <= i,
            r@ == loci_upto(bytes@, i as int),
        decreases bytes.len() - i,
    {
        match digit_value(bytes[i] as char) {
            Some(value) => {
                let j = r.len();
                r.push(Locus { index: ((i - j) % 256) as u8, value });
            },
            None => {},
        }
        i = i + 1;
    }
    r
}

impl Parse for Patterns {
    type Tally = Vec<Locus>;

    open spec fn value_of(c: char) -> Option<u8> {
        digit_of(c)
    }

    open spec fn parses(s: Seq<char>) -> bool {
        true
    }

    open spec fn is_tally(s: Seq<char>, tally: Vec<Locus>) -> bool {
        tally@ == loci_upto(encode_utf8(s), encode_utf8(s).len() as int)
    }

    open spec fn letters(s: Seq<char>) -> Seq<char> {
        without_values(s, |c: char| digit_of(c), s.len() as int)
    }

    #[inline]
    fn value(c: char) -> (r: Option<u8>) {
        digit_value(c)
    }

    fn tally(pattern: &str) -> (r: Vec<Locus>) {
        loci(pattern)
    }

    fn alphabetical(s: &str) -> (r: String) {
        without_digits(s)
    }
}

impl Parse for Exceptions {
    type Tally = Vec<usize>;

    open spec fn value_of(c: char) -> Option<u8> {
        hyphen_of(c)
    }

    open spec fn parses(s: Seq<char>) -> bool {
        true
    }

    open spec fn is_tally(s: Seq<char>, tally: Vec<usize>) -> bool {
        tally@ == hyphens_upto(encode_utf8(s), encode_utf8(s).len() as int)
    }

    open spec fn letters(s: Seq<char>) -> Seq<char> {
        without_values(s, |c: char| hyphen_of(c), s.len() as int)
    }

    #[inline]
    fn value(c: char) -> (r: Option<u8>) {
        let r = if c == '-' {
            Some(2u8)
        } else {
            None
        };
        assert(Self::value_of(c) == hyphen_of(c));
        r
    }

    fn tally(exception: &str) -> (r: Vec<usize>) {
        let bytes = exception.as_bytes();
        let mut r: Vec<usize> = Vec::new();
        let mut i: usize = 0;
        while i < bytes.len()
            invariant
                i <= bytes.len(),
                bytes@ == exception.spec_bytes(),
                r.len() <= i,
                r@ == hyphens_upto(bytes@, i as int),
            decreases bytes.len() - i,
        {
            if bytes[i] == 45u8 {
                let j = r.len();
                r.push(i - j);
            }
            i = i + 1;
        }
        r
    }

    fn alphabetical(s: &str) -> (r: String) {
        let mut r = String::new();
        for c in it: s.chars()
            invariant
                it.seq() == s@,
                r@ == without_values(s@, |c: char| hyphen_of(c), it.index() as int),
        {
            if Self::value(c).is_none() {
                push_char(&mut r, c);
            }
        }
        r
    }
}

/// The index of the first byte from `from` on that equals `b`.
pub open spec fn first_byte_from(bytes: Seq<u8>, b: u8, from: int) -> Option<usize>
    decreases bytes.len() - from,
{
    if from < 0 || from >= bytes.len() {
        None
    } else if bytes[from] == b {
        Some(from as usize)
    } else {
        first_byte_from(bytes, b, from + 1)
    }
}

/// The index of the first byte that equals `b`.
pub open spec fn first_byte(bytes: Seq<u8>, b: u8) -> Option<usize> {
    first_byte_from(bytes, b, 0)
}

/// The number that the first `n` bytes spell in decimal digits, if they are
/// decimal digits.
pub open spec fn digits_value(bytes: Seq<u8>, n: int) -> Option<nat>
    decreases n,
{
    if n <= 0 {
        Some(0nat)
    } else {
        match (digits_value(bytes, n - 1), digit_of(bytes[n - 1] as char)) {
            (Some(v), Some(d)) => Some(10 * v + d as nat),
            _ => None,
        }
    }
}

/// The number that the bytes spell: decimal digits, at least one, behind a
/// plus sign or none, and no more than the machine can count.
pub open spec fn decimal(bytes: Seq<u8>) -> Option<usize> {
    let digits = if bytes.len() > 0 && bytes[0] == 43u8 {
        bytes.skip(1)
    } else {
        bytes
    };
    if digits.len() == 0 {
        None
    } else {
        match digits_value(digits, digits.len() as int) {
            Some(v) => if v <= usize::MAX {
                Some(v as usize)
            } else {
                None
            },
            None => None,
        }
    }
}

/// The two numbers that the bytes spell, with one comma between them.
pub open spec fn two_numbers(bytes: Seq<u8>) -> Option<(usize, usize)> {
    match first_byte(bytes, 44u8) {
        None => None,
        Some(comma) => {
            let rest = bytes.skip(comma + 1);
            match (first_byte(rest, 44u8), decimal(bytes.take(comma as int)), decimal(rest)) {
                (None, Some(a), Some(b)) => Some((a, b)),
                _ => None,
            }
        },
    }
}

/// The alphabetic ones among the first `n` characters.
pub open spec fn alphabetic_upto(chars: Seq<char>, n: int) -> Seq<char>
    decreases n,
{
    if n <= 0 {
        Seq::empty()
    } else if char_is_alphabetic(chars[n - 1]) {
        alphabetic_upto(chars, n - 1).push(chars[n - 1])
    } else {
        alphabetic_upto(chars, n - 1)
    }
}

/// The value of the first among the first `n` loci that has the index.
pub open spec fn value_at(loci: Seq<Locus>, index: u8, n: int) -> Option<u8>
    decreases n,
{
    if n <= 0 {
        None
    } else {
        match value_at(loci, index, n - 1) {
            Some(v) => Some(v),
            None => if loci[n - 1].index == index {
                Some(loci[n - 1].value)
            } else {
                None
            },
        }
    }
}

/// What a subregion is read as: its locus, the bytes that it replaces before
/// and behind the break, its substitution, and the breakpoint within it.
pub type RegionReading = (Locus, usize, usize, Seq<char>, usize);

/// The subregion that an extension describes for a standard pattern.
///
/// The extension gives the substitution with an equals sign where the break
/// falls, then the number of the character before which the break falls,
/// counted from 1, and the number of characters that the substitution
/// replaces. Both are counted in the letters of the standard pattern, a dot
/// at its start not counted; the characters replaced start with the one
/// before the break.
pub open spec fn region_reading(standard: Seq<u8>, extension: Seq<u8>) -> Option<RegionReading> {
    match (first_byte(extension, 61u8), first_byte(extension, 44u8)) {
        (Some(breakpoint), Some(comma)) => {
            match two_numbers(extension.skip(comma + 1)) {
                None => None,
                Some((first, span)) => {
                    let dot: int = if standard.len() > 0 && standard[0] == 46u8 {
                        1
                    } else {
                        0
                    };
                    let to_op = first + dot;
                    let to_start: int = if to_op == 0 {
                        0
                    } else {
                        to_op - 1
                    };
                    let tally = loci_upto(standard, standard.len() as int);
                    let letters = without_values(
                        decode_utf8(standard),
                        |c: char| digit_of(c),
                        decode_utf8(standard).len() as int,
                    );
                    if to_op < letters.len() && to_start + span < letters.len() {
                        let start = char_offset(letters, to_start);
                        let end = char_offset(letters, to_start + span);
                        let index = (char_offset(letters, to_op) % 256) as u8;
                        match value_at(tally, index, tally.len() as int) {
                            Some(value) => if start <= index <= end {
                                Some(
                                    (
                                        Locus { index, value },
                                        (index - start) as usize,
                                        (end - index) as usize,
                                        alphabetic_upto(
                                            decode_utf8(extension.take(comma as int)),
                                            decode_utf8(extension.take(comma as int)).len() as int,
                                        ),
                                        breakpoint,
                                    ),
                                )
                            } else {
                                None
                            },
                            None => None,
                        }
                    } else {
                        None
                    }
                },
            }
        },
        _ => None,
    }
}

/// What an extended pattern is read as: the loci of its standard pattern, and
/// its subregion where a slash and an extension follow.
pub open spec fn extended_reading(bytes: Seq<u8>) -> Option<(Seq<Locus>, Option<RegionReading>)> {
    match first_byte(bytes, 47u8) {
        None => Some((loci_upto(bytes, bytes.len() as int), None)),
        Some(slash) => {
            let standard = bytes.take(slash as int);
            match region_reading(standard, bytes.skip(slash + 1)) {
                Some(region) => Some((loci_upto(standard, standard.len() as int), Some(region))),
                None => None,
            }
        },
    }
}

/// Whether the subregion is what the reading says.
pub open spec fn region_reads(region: Option<(Locus, Subregion)>, reading: Option<RegionReading>) -> bool {
    match (region, reading) {
        (None, None) => true,
        (Some((locus, region)), Some(reading)) => {
            &&& locus == reading.0
            &&& region.left == reading.1
            &&& region.right == reading.2
            &&& region.substitution@ == reading.3
            &&& region.breakpoint == reading.4
        },
        _ => false,
    }
}

/// Whether the tally is what the reading says.
pub open spec fn tally_reads(tally: Tally, reading: (Seq<Locus>, Option<RegionReading>)) -> bool {
    tally.standard@ == reading.0 && region_reads(tally.subregion, reading.1)
}

/// The index of the first byte that equals `b`.
fn find_byte(bytes: &[u8], b: u8) -> (r: Option<usize>)
    ensures
        r == first_byte(bytes@, b),
{
    let mut i: usize = 0;
    while i < bytes.len()
        invariant
            i <= bytes.len(),
            first_byte(bytes@, b) == first_byte_from(bytes@, b, i as int),
        decreases bytes.len() - i,
    {
        if bytes[i] == b {
            return Some(i);
        }
        i = i + 1;
    }
    None
}

/// The number that the bytes spell in decimal digits.
fn parse_decimal(bytes: &[u8]) -> (r: Option<usize>)
    ensures
        r == decimal(bytes@),
{
    let from: usize = if bytes.len() > 0 && bytes[0] == 43u8 {
        1
    } else {
        0
    };
    let digits = slice_subrange(bytes, from, bytes.len());
    assert(digits@ =~= if from == 1 {
        bytes@.skip(1)
    } else {
        bytes@
    });
    if digits.len() == 0 {
        return None;
    }
    let mut v: usize = 0;
    let mut n: usize = 0;
    while n < digits.len()
        invariant
            n <= digits.len(),
            digits@.len() > 0,
            digits@ == (if bytes@.len() > 0 && bytes@[0] == 43u8 {
                bytes@.skip(1)
            } else {
                bytes@
            }),
            digits_value(digits@, n as int) == Some(v as nat),
        decreases digits.len() - n,
    {
        let d = match digit_value(digits[n] as char) {
            Some(d) => d,
            None => {
                proof {
                    assert(digits_value(digits@, n + 1) is None);
                    lemma_digits_stay_none(digits@, n + 1, digits.len() as int);
                }
                return None;
            },
        };
        let next = match v.checked_mul(10) {
            Some(tenfold) => tenfold.checked_add(d as usize),
            None => None,
        };
        match next {
            Some(next) => {
                v = next;
            },
            None => {
                proof {
                    assert(digits_value(digits@, n + 1) == Some(10 * (v as nat) + d as nat));
                    lemma_digits_grow(digits@, n + 1, digits.len() as int);
                }
                return None;
            },
        }
        n = n + 1;
    }
    Some(v)
}

/// Once the digits spell no number, more of them spell none.
proof fn lemma_digits_stay_none(bytes: Seq<u8>, n: int, m: int)
    requires
        0 <= n <= m,
        digits_value(bytes, n) is None,
    ensures
        digits_value(bytes, m) is None,
    decreases m - n,
{
    if n < m {
        lemma_digits_stay_none(bytes, n, m - 1);
    }
}

/// More digits spell no lesser number.
proof fn lemma_digits_grow(bytes: Seq<u8>, n: int, m: int)
    requires
        0 <= n <= m,
    ensures
        digits_value(bytes, m) matches Some(v) ==> digits_value(bytes, n) is Some && digits_value(
            bytes,
            n,
        )->0 <= v,
    decreases m - n,
{
    if n < m {
        lemma_digits_grow(bytes, n, m - 1);
    }
}

/// The two numbers that the bytes spell, with one comma between them.
fn parse_two_numbers(bytes: &[u8]) -> (r: Option<(usize, usize)>)
    ensures
        r == two_numbers(bytes@),
{
    let length = bytes.len();
    match find_byte(bytes, 44u8) {
        None => None,
        Some(comma) => {
            proof {
                lemma_first_byte(bytes@, 44u8, 0);
            }
            let head = slice_subrange(bytes, 0, comma);
            let rest = slice_subrange(bytes, comma + 1, bytes.len());
            assert(head@ =~= bytes@.take(comma as int));
            assert(rest@ =~= bytes@.skip(comma + 1));
            if find_byte(rest, 44u8).is_some() {
                return None;
            }
            match (parse_decimal(head), parse_decimal(rest)) {
                (Some(a), Some(b)) => Some((a, b)),
                _ => None,
            }
        },
    }
}

/// The first byte that equals `b` lies within the bytes and equals `b`.
pub proof fn lemma_first_byte(bytes: Seq<u8>, b: u8, from: int)
    requires
        0 <= from,
        bytes.len() <= usize::MAX,
    ensures
        first_byte_from(bytes, b, from) matches Some(i) ==> from <= i < bytes.len() && bytes[i as int]
            == b,
    decreases bytes.len() - from,
{
    if from < bytes.len() && bytes[from] != b {
        lemma_first_byte(bytes, b, from + 1);
    }
}

/// A byte below 128 is a character of its own: a character starts at it, and
/// another, or nothing, behind it.
pub proof fn lemma_ascii_is_boundary(chars: Seq<char>, i: int)
    requires
        0 <= i < encode_utf8(chars).len(),
        encode_utf8(chars)[i] < 0x80,
    ensures
        is_char_boundary(encode_utf8(chars), i),
        is_char_boundary(encode_utf8(chars), i + 1),
{
    let bytes = encode_utf8(chars);
    encode_utf8_valid_utf8(chars);
    is_char_boundary_iff_not_is_continuation_byte(bytes, i);
    let k = lemma_boundary_is_char_offset(chars, i);
    lemma_char_offset_ends(chars);
    assert(k < chars.len());
    let tail = chars.skip(k);
    assert(chars =~= chars.take(k) + tail);
    lemma_encode_concat(chars.take(k), tail);
    assert(encode_utf8(tail) =~= bytes.skip(i));
    encode_utf8_first_scalar(tail);
    assert(bytes.skip(i)[0] == bytes[i]);
    lemma_char_offset_step(chars, k);
    lemma_char_offset_is_boundary(chars, k + 1);
}

/// The alphabetic characters of the string.
fn alphabetic_only(s: &str) -> (r: String)
    ensures
        r@ == alphabetic_upto(s@, s@.len() as int),
{
    let mut r = String::new();
    for c in it: s.chars()
        invariant
            it.seq() == s@,
            r@ == alphabetic_upto(s@, it.index() as int),
    {
        if is_alphabetic(c) {
            push_char(&mut r, c);
        }
    }
    r
}

/// The value of the first locus that has the index.
fn find_value(loci: &Vec<Locus>, index: u8) -> (r: Option<u8>)
    ensures
        r == value_at(loci@, index, loci@.len() as int),
{
    let mut n: usize = 0;
    while n < loci.len()
        invariant
            n <= loci.len(),
            value_at(loci@, index, n as int) is None,
        decreases loci.len() - n,
    {
        if loci[n].index == index {
            proof {
                lemma_value_at_stays(loci@, index, n + 1, loci.len() as int);
            }
            return Some(loci[n].value);
        }
        n = n + 1;
    }
    None
}

/// Once a locus with the index is found, its value stays.
proof fn lemma_value_at_stays(loci: Seq<Locus>, index: u8, n: int, m: int)
    requires
        0 <= n <= m,
        value_at(loci, index, n) is Some,
    ensures
        value_at(loci, index, m) == value_at(loci, index, n),
    decreases m - n,
{
    if n < m {
        lemma_value_at_stays(loci, index, n, m - 1);
    }
}

/// The subregion that the extension describes for the standard pattern.
fn read_region(pattern: &str, slash: usize) -> (r: Option<(Locus, Subregion)>)
    requires
        first_byte(pattern.spec_bytes(), 47u8) == Some(slash),
    ensures
        region_reads(
            r,
            region_reading(
                pattern.spec_bytes().take(slash as int),
                pattern.spec_bytes().skip(slash + 1),
            ),
        ),
{
    let bytes = pattern.as_bytes();
    let length = bytes.len();
    proof {
        lemma_first_byte(bytes@, 47u8, 0);
        lemma_ascii_is_boundary(pattern@, slash as int);
        encode_utf8_valid_utf8(pattern@);
        is_char_boundary_start_end_of_seq(bytes@);
    }
    let standard = slice(pattern, 0, slash);
    let extension = slice(pattern, slash + 1, length);
    let ext_bytes = extension.as_bytes();
    assert(standard.spec_bytes() =~= bytes@.take(slash as int));
    assert(ext_bytes@ =~= bytes@.skip(slash + 1));
    let breakpoint = match find_byte(ext_bytes, 61u8) {
        Some(at) => at,
        None => {
            return None;
        },
    };
    let comma = match find_byte(ext_bytes, 44u8) {
        Some(at) => at,
        None => {
            return None;
        },
    };
    proof {
        lemma_first_byte(ext_bytes@, 44u8, 0);
        lemma_ascii_is_boundary(extension@, comma as int);
        encode_utf8_valid_utf8(extension@);
        is_char_boundary_start_end_of_seq(ext_bytes@);
    }
    let sub_pattern = slice(extension, 0, comma);
    let sub_idxs = slice_subrange(ext_bytes, comma + 1, ext_bytes.len());
    assert(sub_pattern.spec_bytes() =~= ext_bytes@.take(comma as int));
    assert(sub_idxs@ =~= ext_bytes@.skip(comma + 1));
    let (first, span) = match parse_two_numbers(sub_idxs) {
        Some(numbers) => numbers,
        None => {
            return None;
        },
    };
    let std_bytes = standard.as_bytes();
    let dot_offset: usize = if std_bytes.len() > 0 && std_bytes[0] == 46u8 {
        1
    } else {
        0
    };
    let tally = loci(standard);
    let alphabetical = without_digits(standard);
    let letters = char_indices(alphabetical.as_str());
    proof {
        encode_utf8_decode_utf8(standard@);
        encode_utf8_decode_utf8(sub_pattern@);
    }
    let chars_to_op = match first.checked_add(dot_offset) {
        Some(n) => n,
        None => {
            return None;
        },
    };
    // The subregion always starts at the character immediately preceding
    // the opportunity.
    let chars_to_start = if chars_to_op == 0 {
        0
    } else {
        chars_to_op - 1
    };
    let chars_to_end = match chars_to_start.checked_add(span) {
        Some(n) => n,
        None => {
            return None;
        },
    };
    if chars_to_op >= letters.len() || chars_to_end >= letters.len() {
        return None;
    }
    let start = letters[chars_to_start].0;
    let end = letters[chars_to_end].0;
    let index = (letters[chars_to_op].0 % 256) as u8;
    let value = match find_value(&tally, index) {
        Some(value) => value,
        None => {
            return None;
        },
    };
    if start > index as usize || index as usize > end {
        return None;
    }
    let substitution = alphabetic_only(sub_pattern);
    Some(
        (
            Locus { index, value },
            Subregion {
                left: index as usize - start,
                right: end - index as usize,
                substitution,
                breakpoint,
            },
        ),
    )
}

/// The tally of an extended pattern, if the pattern can be read.
pub fn try_tally(pattern: &str) -> (r: Option<Tally>)
    ensures
        match (r, extended_reading(pattern.spec_bytes())) {
            (Some(tally), Some(reading)) => tally_reads(tally, reading),
            (None, None) => true,
            _ => false,
        },
{
    let length = pattern.as_bytes().len();
    match find_byte(pattern.as_bytes(), 47u8) {
        None => Some(Tally { standard: loci(pattern), subregion: None }),
        Some(slash) => {
            proof {
                lemma_first_byte(pattern.spec_bytes(), 47u8, 0);
                lemma_ascii_is_boundary(pattern@, slash as int);
                encode_utf8_valid_utf8(pattern@);
                is_char_boundary_start_end_of_seq(pattern.spec_bytes());
            }
            let standard = slice(pattern, 0, slash);
            assert(standard.spec_bytes() =~= pattern.spec_bytes().take(slash as int));
            match read_region(pattern, slash) {
                None => None,
                Some(region) => Some(Tally { standard: loci(standard), subregion: Some(region) }),
            }
        },
    }
}

impl Parse for crate::dictionary::extended::Patterns {
    type Tally = Tally;

    open spec fn value_of(c: char) -> Option<u8> {
        digit_of(c)
    }

    open spec fn parses(s: Seq<char>) -> bool {
        extended_reading(encode_utf8(s)) is Some
    }

    open spec fn is_tally(s: Seq<char>, tally: Tally) -> bool {
        match extended_reading(encode_utf8(s)) {
            Some(reading) => tally_reads(tally, reading),
            None => false,
        }
    }

    open spec fn letters(s: Seq<char>) -> Seq<char> {
        let bytes = encode_utf8(s);
        let standard = match first_byte(bytes, 47u8) {
            None => s,
            Some(slash) => decode_utf8(bytes.take(slash as int)),
        };
        without_values(standard, |c: char| digit_of(c), standard.len() as int)
    }

    #[inline]
    fn value(c: char) -> (r: Option<u8>) {
        digit_value(c)
    }

    fn alphabetical(s: &str) -> (r: String) {
        let length = s.as_bytes().len();
        match find_byte(s.as_bytes(), 47u8) {
            None => without_digits(s),
            Some(slash) => {
                proof {
                    lemma_first_byte(s.spec_bytes(), 47u8, 0);
                    lemma_ascii_is_boundary(s@, slash as int);
                    encode_utf8_valid_utf8(s@);
                    is_char_boundary_start_end_of_seq(s.spec_bytes());
                }
                let standard = slice(s, 0, slash);
                proof {
                    assert(standard.spec_bytes() =~= s.spec_bytes().take(slash as int));
                    encode_utf8_decode_utf8(standard@);
                }
                without_digits(standard)
            },
        }
    }

    fn tally(pattern: &str) -> (r: Tally) {
        try_tally(pattern).unwrap()
    }
}

} // verus!
