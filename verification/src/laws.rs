//! What holds of every word and every dictionary: where breaks lie, and what
//! the segments between them add up to.

use crate::case_folding::{has_uppercase, Shift};
use crate::dictionary::extended::Extended;
use crate::dictionary::Standard;
use crate::hyphenator::{
    boundaries_spec, kept, lemma_boundaries_within, lemma_breaks_below, lemma_breaks_below_ext,
    lemma_kept, lemma_kept_ext, right_margin_start, soft_hyphens, soft_hyphens_upto, Hyphenator,
};
use crate::iter::{joined, joined_upto, marked_spec, segment_end, segment_start, segments_spec, valid_breaks};
use crate::score::Score;
use crate::text::{
    char_offset, lemma_char_offset_ascends, lemma_char_offset_bound, lemma_char_offset_is_boundary,
    lemma_seam_is_boundary,
};
use vstd::prelude::*;
use vstd::utf8::*;

verus! {

/// The breaks of the exception for the word, if it has one, ascend and fall
/// on character boundaries of the word.
pub open spec fn exception_fits(dict: &Standard, word: Seq<char>) -> bool {
    dict.exceptions.0@.contains_key(word) ==> {
        let known = dict.exceptions.0@[word]@;
        &&& forall|j: int|
            0 <= j < known.len() ==> is_char_boundary(encode_utf8(word), #[trigger] known[j] as int)
        &&& forall|i: int, j: int|
            0 <= i < j < known.len() ==> #[trigger] known[i] < #[trigger] known[j]
    }
}

/// Every opportunity lies between the two margins: not before the character
/// with the index of the left margin, and not behind the start of the right
/// margin.
pub proof fn law_opportunities_within_margins(dict: &Standard, word: Seq<char>, k: int)
    requires
        encode_utf8(word).len() <= usize::MAX,
        word.len() >= dict.minima.0 + dict.minima.1,
        0 <= k < dict.found(word).len(),
    ensures
        char_offset(word, dict.minima.0 as int) <= dict.found(word)[k] <= char_offset(
            word,
            word.len() - dict.minima.1,
        ),
{
    let bytes = encode_utf8(word);
    let bounds = boundaries_spec(word, dict.minima)->0;
    lemma_boundaries_within(word, dict.minima);
    lemma_char_offset_ascends(
        word,
        right_margin_start(word.len() as int, dict.minima.1),
        word.len() - dict.minima.1,
    );
    if dict.exceptions.0@.contains_key(word) {
        let known = dict.exceptions.0@[word]@;
        lemma_kept(known, bounds, known.len() as int);
    } else {
        lemma_breaks_below(dict.score_of(bytes), bytes, bounds, bytes.len() as int);
    }
}

/// Every opportunity of an extended dictionary lies between the two margins.
pub proof fn law_extended_opportunities_within_margins<'h>(
    dict: &'h Extended,
    word: Seq<char>,
    k: int,
)
    requires
        encode_utf8(word).len() <= usize::MAX,
        word.len() >= dict.minima.0 + dict.minima.1,
        0 <= k < dict.found(word).len(),
    ensures
        char_offset(word, dict.minima.0 as int) <= dict.found(word)[k].0 <= char_offset(
            word,
            word.len() - dict.minima.1,
        ),
{
    let bytes = encode_utf8(word);
    let bounds = boundaries_spec(word, dict.minima)->0;
    lemma_boundaries_within(word, dict.minima);
    lemma_char_offset_ascends(
        word,
        right_margin_start(word.len() as int, dict.minima.1),
        word.len() - dict.minima.1,
    );
    if dict.exceptions.0@.contains_key(word) {
        let known = dict.exceptions.0@[word]@;
        lemma_kept_ext(known, bounds, known.len() as int);
    } else {
        lemma_breaks_below_ext(dict.score_of(bytes), bytes, bounds, bytes.len() as int);
    }
}

/// Every opportunity lies inside the word, neither at its start nor at its
/// end, where the left margin counts at least one character or the word is
/// no exception.
pub proof fn law_opportunities_inside_word(dict: &Standard, word: Seq<char>, k: int)
    requires
        encode_utf8(word).len() <= usize::MAX,
        dict.minima.0 >= 1 || !dict.exceptions.0@.contains_key(word),
        0 <= k < dict.found(word).len(),
    ensures
        0 < dict.found(word)[k] < encode_utf8(word).len(),
{
    let bytes = encode_utf8(word);
    let bounds = boundaries_spec(word, dict.minima)->0;
    lemma_boundaries_within(word, dict.minima);
    if dict.exceptions.0@.contains_key(word) {
        let known = dict.exceptions.0@[word]@;
        lemma_kept(known, bounds, known.len() as int);
        lemma_char_offset_bound(word, dict.minima.0 as int);
        lemma_char_offset_bound(word, right_margin_start(word.len() as int, dict.minima.1));
    } else {
        lemma_breaks_below(dict.score_of(bytes), bytes, bounds, bytes.len() as int);
    }
}

/// Every opportunity falls on a character boundary of the word, where the
/// breaks of its exception do, if it has one.
pub proof fn law_opportunities_on_boundaries(dict: &Standard, word: Seq<char>, k: int)
    requires
        encode_utf8(word).len() <= usize::MAX,
        exception_fits(dict, word),
        0 <= k < dict.found(word).len(),
    ensures
        is_char_boundary(encode_utf8(word), dict.found(word)[k] as int),
{
    let bytes = encode_utf8(word);
    let bounds = boundaries_spec(word, dict.minima)->0;
    if dict.exceptions.0@.contains_key(word) {
        let known = dict.exceptions.0@[word]@;
        lemma_kept(known, bounds, known.len() as int);
        let j = choose|j: int| 0 <= j < known.take(known.len() as int).len() && known.take(
            known.len() as int,
        )[j] == dict.found(word)[k];
        assert(known[j] == dict.found(word)[k]);
    } else {
        lemma_breaks_below(dict.score_of(bytes), bytes, bounds, bytes.len() as int);
    }
}

/// The breaks of the exception for the word, if it has one, fall on character
/// boundaries of the word.
pub open spec fn extended_exception_fits(dict: &Extended, word: Seq<char>) -> bool {
    dict.exceptions.0@.contains_key(word) ==> forall|j: int|
        0 <= j < dict.exceptions.0@[word]@.len() ==> is_char_boundary(
            encode_utf8(word),
            (#[trigger] dict.exceptions.0@[word]@[j]).0 as int,
        )
}

/// Every opportunity of an extended dictionary lies inside the word, neither
/// at its start nor at its end, where the left margin counts at least one
/// character or the word is no exception.
pub proof fn law_extended_opportunities_inside_word<'h>(
    dict: &'h Extended,
    word: Seq<char>,
    k: int,
)
    requires
        encode_utf8(word).len() <= usize::MAX,
        dict.minima.0 >= 1 || !dict.exceptions.0@.contains_key(word),
        0 <= k < dict.found(word).len(),
    ensures
        0 < dict.found(word)[k].0 < encode_utf8(word).len(),
{
    let bytes = encode_utf8(word);
    let bounds = boundaries_spec(word, dict.minima)->0;
    lemma_boundaries_within(word, dict.minima);
    if dict.exceptions.0@.contains_key(word) {
        let known = dict.exceptions.0@[word]@;
        lemma_kept_ext(known, bounds, known.len() as int);
        lemma_char_offset_bound(word, dict.minima.0 as int);
        lemma_char_offset_bound(word, right_margin_start(word.len() as int, dict.minima.1));
    } else {
        lemma_breaks_below_ext(dict.score_of(bytes), bytes, bounds, bytes.len() as int);
    }
}

/// Every opportunity of an extended dictionary falls on a character boundary
/// of the word, where the breaks of its exception do, if it has one.
pub proof fn law_extended_opportunities_on_boundaries<'h>(
    dict: &'h Extended,
    word: Seq<char>,
    k: int,
)
    requires
        encode_utf8(word).len() <= usize::MAX,
        extended_exception_fits(dict, word),
        0 <= k < dict.found(word).len(),
    ensures
        is_char_boundary(encode_utf8(word), dict.found(word)[k].0 as int),
{
    let bytes = encode_utf8(word);
    let bounds = boundaries_spec(word, dict.minima)->0;
    if dict.exceptions.0@.contains_key(word) {
        let known = dict.exceptions.0@[word]@;
        lemma_kept_ext(known, bounds, known.len() as int);
        let j = choose|j: int|
            0 <= j < known.len() && crate::hyphenator::lent(#[trigger] known[j]) == dict.found(
                word,
            )[k];
        assert(known[j].0 == dict.found(word)[k].0);
    } else {
        lemma_breaks_below_ext(dict.score_of(bytes), bytes, bounds, bytes.len() as int);
    }
}

/// The breaks that are kept ascend where the breaks do.
pub proof fn lemma_kept_ascends(breaks: Seq<usize>, bounds: (usize, usize), n: int)
    requires
        0 <= n <= breaks.len(),
        forall|i: int, j: int| 0 <= i < j < breaks.len() ==> #[trigger] breaks[i] < #[trigger] breaks[j],
    ensures
        forall|i: int, j: int|
            0 <= i < j < kept(breaks, bounds, n).len() ==> #[trigger] kept(breaks, bounds, n)[i]
                < #[trigger] kept(breaks, bounds, n)[j],
        forall|i: int|
            0 <= i < kept(breaks, bounds, n).len() && n > 0 ==> #[trigger] kept(breaks, bounds, n)[i]
                <= breaks[n - 1],
        kept(breaks, bounds, n).len() <= n,
    decreases n,
{
    if n > 0 {
        lemma_kept_ascends(breaks, bounds, n - 1);
        let before = kept(breaks, bounds, n - 1);
        let now = kept(breaks, bounds, n);
        assert forall|i: int| 0 <= i < now.len() implies #[trigger] now[i] <= breaks[n - 1] by {
            if i < before.len() {
                assert(now[i] == before[i]);
                if n > 1 {
                    assert(before[i] <= breaks[n - 2]);
                    assert(breaks[n - 2] < breaks[n - 1]);
                }
            }
        }
        assert forall|i: int, j: int| 0 <= i < j < now.len() implies #[trigger] now[i]
            < #[trigger] now[j] by {
            assert(now[i] == before[i]);
            if j < before.len() {
                assert(now[j] == before[j]);
            } else {
                assert(n > 1);
                assert(before[i] <= breaks[n - 2]);
                assert(breaks[n - 2] < breaks[n - 1]);
            }
        }
    }
}

/// A strictly ascending sequence of numbers up to `top` has `top + 1`
/// elements at most.
pub proof fn lemma_ascending_count(s: Seq<usize>, top: int, n: int)
    requires
        0 <= n <= s.len(),
        forall|i: int, j: int| 0 <= i < j < s.len() ==> #[trigger] s[i] < #[trigger] s[j],
        forall|i: int| 0 <= i < s.len() ==> #[trigger] s[i] <= top,
    ensures
        n > 0 ==> s[n - 1] >= n - 1,
        n > 0 ==> n <= top + 1,
    decreases n,
{
    if n > 0 {
        lemma_ascending_count(s, top, n - 1);
        if n > 1 {
            assert(s[n - 2] < s[n - 1]);
        }
        assert(s[n - 1] <= top);
    }
}

/// The soft hyphens of a word ascend and stand where characters start.
pub proof fn lemma_soft_hyphens(chars: Seq<char>, n: int)
    requires
        0 <= n <= chars.len(),
        encode_utf8(chars).len() <= usize::MAX,
    ensures
        soft_hyphens_upto(chars, n).len() <= n,
        forall|k: int|
            0 <= k < soft_hyphens_upto(chars, n).len() ==> is_char_boundary(
                encode_utf8(chars),
                #[trigger] soft_hyphens_upto(chars, n)[k] as int,
            ) && soft_hyphens_upto(chars, n)[k] < char_offset(chars, n),
        forall|j: int, k: int|
            0 <= j < k < soft_hyphens_upto(chars, n).len() ==> #[trigger] soft_hyphens_upto(
                chars,
                n,
            )[j] < #[trigger] soft_hyphens_upto(chars, n)[k],
    decreases n,
{
    if n > 0 {
        lemma_soft_hyphens(chars, n - 1);
        let before = soft_hyphens_upto(chars, n - 1);
        let now = soft_hyphens_upto(chars, n);
        lemma_char_offset_bound(chars, n - 1);
        lemma_char_offset_bound(chars, n);
        lemma_char_offset_ascends(chars, n - 1, n);
        lemma_char_offset_is_boundary(chars, n - 1);
        assert forall|k: int| 0 <= k < now.len() implies is_char_boundary(
            encode_utf8(chars),
            #[trigger] now[k] as int,
        ) && now[k] < char_offset(chars, n) by {
            if k < before.len() {
                assert(now[k] == before[k]);
            }
        }
        assert forall|j: int, k: int| 0 <= j < k < now.len() implies #[trigger] now[j]
            < #[trigger] now[k] by {
            assert(now[j] == before[j]);
            if k < before.len() {
                assert(now[k] == before[k]);
            }
        }
    }
}

/// The breaks of a word can be used to cut it: they ascend, lie within the
/// word and fall on character boundaries. This holds of a word with a soft
/// hyphen, and of a word without an uppercase character whose exception, if
/// it has one, fits it.
pub proof fn law_hyphenated_is_valid(dict: &Standard, word: Seq<char>)
    requires
        encode_utf8(word).len() + 1 < usize::MAX,
        soft_hyphens(word).len() > 0 || (!has_uppercase(word) && exception_fits(dict, word)),
    ensures
        valid_breaks(encode_utf8(word), dict.hyphenated(word)),
{
    let bytes = encode_utf8(word);
    let breaks = dict.hyphenated(word);
    if soft_hyphens(word).len() > 0 {
        lemma_soft_hyphens(word, word.len() as int);
        crate::text::lemma_char_offset_ends(word);
        assert(breaks =~= soft_hyphens(word));
        lemma_char_offset_bound(word, word.len() as int);
        assert forall|j: int, k: int| 0 <= j <= k < breaks.len() implies #[trigger] breaks[j]
            <= #[trigger] breaks[k] by {
            if j < k {
                assert(soft_hyphens(word)[j] < soft_hyphens(word)[k]);
            }
        }
    } else {
        let found = dict.found(word);
        assert forall|k: int| 0 <= k < found.len() implies found.map_values(
            |o: usize| Standard::moved(o, Seq::<Shift>::empty()),
        )[k] == #[trigger] found[k] by {}
        assert(breaks =~= found);
        match boundaries_spec(word, dict.minima) {
            None => {},
            Some(bounds) => {
                lemma_boundaries_within(word, dict.minima);
                if dict.exceptions.0@.contains_key(word) {
                    let known = dict.exceptions.0@[word]@;
                    lemma_kept(known, bounds, known.len() as int);
                    lemma_kept_ascends(known, bounds, known.len() as int);
                    assert forall|k: int| 0 <= k < found.len() implies is_char_boundary(
                        bytes,
                        #[trigger] found[k] as int,
                    ) by {
                        let j = choose|j: int|
                            0 <= j < known.take(known.len() as int).len() && known.take(
                                known.len() as int,
                            )[j] == found[k];
                        assert(known[j] == found[k]);
                    }
                } else {
                    lemma_breaks_below(dict.score_of(bytes), bytes, bounds, bytes.len() as int);
                }
                assert forall|j: int, k: int| 0 <= j < k < found.len() implies #[trigger] found[j]
                    < #[trigger] found[k] by {}
                lemma_ascending_count(found, bytes.len() as int, found.len() as int);
                assert forall|j: int, k: int| 0 <= j <= k < found.len() implies #[trigger] found[j]
                    <= #[trigger] found[k] by {
                    if j < k {
                        assert(found[j] < found[k]);
                    }
                }
            },
        }
    }
}

/// The part of valid UTF-8 between two character boundaries is valid UTF-8.
pub proof fn lemma_piece_is_valid(bytes: Seq<u8>, from: int, to: int)
    requires
        valid_utf8(bytes),
        0 <= from <= to <= bytes.len(),
        is_char_boundary(bytes, from),
        is_char_boundary(bytes, to),
    ensures
        valid_utf8(bytes.subrange(from, to)),
{
    let first = bytes.subrange(0, to);
    valid_utf8_split(bytes, to);
    if from < to {
        assert(first[from] == bytes[from]);
        is_char_boundary_iff_not_is_continuation_byte(bytes, from);
        is_char_boundary_iff_not_is_continuation_byte(first, from);
    } else {
        is_char_boundary_start_end_of_seq(first);
    }
    valid_utf8_split(first, from);
    assert(first.subrange(from, first.len() as int) =~= bytes.subrange(from, to));
}

/// The characters of two valid encodings joined are the characters of the
/// one, then those of the other.
pub proof fn lemma_decode_concat(a: Seq<u8>, b: Seq<u8>)
    requires
        valid_utf8(a),
        valid_utf8(b),
    ensures
        valid_utf8(a + b),
        decode_utf8(a + b) == decode_utf8(a) + decode_utf8(b),
{
    valid_utf8_concat(a, b);
    lemma_seam_is_boundary(a, b);
    decode_utf8_split(a + b, a.len() as int);
    assert((a + b).subrange(0, a.len() as int) =~= a);
    assert((a + b).subrange(a.len() as int, (a + b).len() as int) =~= b);
}

/// The first `n` segments joined are the bytes up to the end of the last of
/// them.
pub proof fn lemma_joined_segments(bytes: Seq<u8>, breaks: Seq<usize>, n: int)
    requires
        valid_breaks(bytes, breaks),
        1 <= n <= breaks.len() + 1,
    ensures
        joined_upto(segments_spec(bytes, breaks), n) == bytes.subrange(
            0,
            segment_end(bytes, breaks, n - 1),
        ),
    decreases n,
{
    let segments = segments_spec(bytes, breaks);
    let end = segment_end(bytes, breaks, n - 1);
    if n - 1 < breaks.len() {
        assert(breaks[n - 1] <= breaks[n - 1]);
    }
    if n > 1 {
        lemma_joined_segments(bytes, breaks, n - 1);
        assert(breaks[n - 2] <= breaks[n - 2]);
        if n - 1 < breaks.len() {
            assert(breaks[n - 2] <= breaks[n - 1]);
        }
        let middle = breaks[n - 2] as int;
        assert(segments[n - 1] == bytes.subrange(middle, end));
        assert(bytes.subrange(0, middle) + bytes.subrange(middle, end) =~= bytes.subrange(0, end));
    } else {
        assert(joined_upto(segments, 0) =~= Seq::<u8>::empty());
        assert(segments[0] == bytes.subrange(0, end));
        assert(Seq::<u8>::empty() + bytes.subrange(0, end) =~= bytes.subrange(0, end));
    }
}

/// The segments of a word, joined, are the word.
pub proof fn law_segments_join_to_word(bytes: Seq<u8>, breaks: Seq<usize>)
    requires
        valid_breaks(bytes, breaks),
    ensures
        joined(segments_spec(bytes, breaks)) == bytes,
{
    lemma_joined_segments(bytes, breaks, breaks.len() as int + 1);
    assert(bytes.subrange(0, bytes.len() as int) =~= bytes);
}

/// The segments that a dictionary cuts a word into, joined, are the word.
/// This holds of a word with a soft hyphen, and of a word without an
/// uppercase character whose exception, if it has one, fits it.
pub proof fn law_hyphenated_segments_join_to_word(dict: &Standard, word: Seq<char>)
    requires
        encode_utf8(word).len() + 1 < usize::MAX,
        soft_hyphens(word).len() > 0 || (!has_uppercase(word) && exception_fits(dict, word)),
    ensures
        joined(segments_spec(encode_utf8(word), dict.hyphenated(word))) == encode_utf8(word),
{
    law_hyphenated_is_valid(dict, word);
    law_segments_join_to_word(encode_utf8(word), dict.hyphenated(word));
}

/// The number of characters in the first `n` parts.
pub open spec fn chars_upto(parts: Seq<Seq<u8>>, n: int) -> int
    decreases n,
{
    if n <= 0 {
        0
    } else {
        chars_upto(parts, n - 1) + decode_utf8(parts[n - 1]).len()
    }
}

/// The characters of valid parts joined are as many as those of the parts
/// together.
pub proof fn lemma_chars_of_joined(parts: Seq<Seq<u8>>, n: int)
    requires
        0 <= n <= parts.len(),
        forall|k: int| 0 <= k < parts.len() ==> valid_utf8(#[trigger] parts[k]),
    ensures
        valid_utf8(joined_upto(parts, n)),
        decode_utf8(joined_upto(parts, n)).len() == chars_upto(parts, n),
    decreases n,
{
    if n > 0 {
        lemma_chars_of_joined(parts, n - 1);
        lemma_decode_concat(joined_upto(parts, n - 1), parts[n - 1]);
    } else {
        assert(valid_utf8(Seq::<u8>::empty()));
        assert(decode_utf8(Seq::<u8>::empty()).len() == 0);
    }
}

/// The number of marks among the first `n` of `count` marked segments: each
/// segment but the last has one.
pub open spec fn marks_upto(count: int, n: int) -> int {
    if n >= count && n > 0 {
        n - 1
    } else {
        n
    }
}

/// The first `n` marked segments hold the characters of the segments and one
/// mark for each of them but the last.
pub proof fn lemma_chars_of_marked(segments: Seq<Seq<u8>>, mark: Seq<u8>, n: int)
    requires
        0 <= n <= segments.len(),
        valid_utf8(mark),
        forall|k: int| 0 <= k < segments.len() ==> valid_utf8(#[trigger] segments[k]),
    ensures
        forall|k: int|
            0 <= k < segments.len() ==> valid_utf8(#[trigger] marked_spec(segments, mark)[k]),
        chars_upto(marked_spec(segments, mark), n) == chars_upto(segments, n) + marks_upto(
            segments.len() as int,
            n,
        ) * decode_utf8(mark).len(),
    decreases n,
{
    let marked = marked_spec(segments, mark);
    let count = segments.len() as int;
    let m = decode_utf8(mark).len() as int;
    assert forall|k: int| 0 <= k < segments.len() implies valid_utf8(#[trigger] marked[k]) by {
        if k < segments.len() - 1 {
            lemma_decode_concat(segments[k], mark);
        }
    }
    if n > 0 {
        lemma_chars_of_marked(segments, mark, n - 1);
        assert(marks_upto(count, n - 1) == n - 1);
        if n - 1 < count - 1 {
            lemma_decode_concat(segments[n - 1], mark);
            assert(marks_upto(count, n) == n);
            assert(decode_utf8(marked[n - 1]).len() == decode_utf8(segments[n - 1]).len() + m);
            assert(n * m == (n - 1) * m + m) by (nonlinear_arith);
        } else {
            assert(marks_upto(count, n) == n - 1);
            assert(marked[n - 1] == segments[n - 1]);
        }
    } else {
        assert(marks_upto(count, 0) == 0);
        assert(0 * m == 0) by (nonlinear_arith);
    }
}

/// The marked segments of a word, joined, hold the characters of the word
/// and one mark for each break.
pub proof fn law_marked_length(bytes: Seq<u8>, breaks: Seq<usize>, mark: Seq<u8>)
    requires
        valid_utf8(bytes),
        valid_utf8(mark),
        valid_breaks(bytes, breaks),
    ensures
        decode_utf8(joined(marked_spec(segments_spec(bytes, breaks), mark))).len() == decode_utf8(
            bytes,
        ).len() + breaks.len() * decode_utf8(mark).len(),
{
    let segments = segments_spec(bytes, breaks);
    let n = segments.len() as int;
    is_char_boundary_start_end_of_seq(bytes);
    assert forall|k: int| 0 <= k < segments.len() implies valid_utf8(#[trigger] segments[k]) by {
        if k > 0 {
            assert(breaks[k - 1] <= breaks[k - 1]);
            if k < breaks.len() {
                assert(breaks[k - 1] <= breaks[k]);
            }
        }
        lemma_piece_is_valid(bytes, segment_start(breaks, k), segment_end(bytes, breaks, k));
    }
    lemma_chars_of_marked(segments, mark, n);
    lemma_chars_of_joined(marked_spec(segments, mark), n);
    lemma_chars_of_joined(segments, n);
    law_segments_join_to_word(bytes, breaks);
}

} // verus!
