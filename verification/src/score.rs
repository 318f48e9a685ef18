//! # Evaluating potential hyphenation opportunities
//!
//! In Knuth–Liang hyphenation, dictionaries identify valid word breaks by
//! searching whole words for sub-word patterns, ultimately producing a
//! *score* that evaluates each interval between letters as a candidate for
//! hyphenation.
//!
//! As an example, consider the word "firkin":
//!
//! ```text
//!     f|i|r|k|i|n
//! ```
//!
//! A British English dictionary recognizes six patterns therein, each of
//! which assigns a numeric value to one or more locations; when a location
//! is assigned multiple values, the highest one prevails. Patterns are so
//! compounded until a final score is produced. Using guillemets to mark
//! word boundaries, we find:
//!
//! ```text
//!    «f|i|r|k|i|n»
//!    -------------
//!    «f i2
//!       i2r
//!         r2k
//!         r5k i n
//!           k1i n
//!           k2i n»
//!    -------------
//!     f|i|r|k|i|n
//!      0 2 5 2 0
//! ```
//!
//! By convention, even values inhibit hyphenation, whereas odd values mark
//! valid breaks. Thus, having matched these patterns, the dictionary will
//! offer "fir·kin" as a valid hyphenation.

use crate::dictionary::extended::{Extended, Subregion, Tally};
use crate::dictionary::{Locus, Standard};
use vstd::prelude::*;
use vstd::slice::*;
use vstd::string::*;

verus! {

/// The word between two dots, which stand for its start and its end.
pub open spec fn dotted(word: Seq<u8>) -> Seq<u8> {
    seq![46u8] + word + seq![46u8]
}

/// The number of intervals between the bytes of a word.
pub open spec fn intervals(word: Seq<u8>) -> nat {
    if word.len() == 0 {
        0
    } else {
        (word.len() - 1) as nat
    }
}

/// The values with that of position `k` of the dotted word raised to `value`,
/// where `k` lies between two bytes of the word and `value` is greater than
/// what is there.
pub open spec fn raised(values: Seq<u8>, k: int, value: u8) -> Seq<u8> {
    if 2 <= k <= values.len() + 1 && value > values[k - 2] {
        values.update(k - 2, value)
    } else {
        values
    }
}

/// The values after the first `n` loci of a tally that matched at offset `at`.
pub open spec fn after_loci(values: Seq<u8>, loci: Seq<Locus>, at: int, n: int) -> Seq<u8>
    decreases n,
{
    if n <= 0 {
        values
    } else {
        raised(after_loci(values, loci, at, n - 1), at + loci[n - 1].index, loci[n - 1].value)
    }
}

/// The values after the first `n` of the tallies that matched at offset `at`.
pub open spec fn after_tallies(values: Seq<u8>, tallies: Seq<Vec<Locus>>, at: int, n: int) -> Seq<
    u8,
>
    decreases n,
{
    if n <= 0 {
        values
    } else {
        after_loci(
            after_tallies(values, tallies, at, n - 1),
            tallies[n - 1]@,
            at,
            tallies[n - 1]@.len() as int,
        )
    }
}

/// The values after the patterns that match at the first `n` offsets of the
/// dotted word.
pub open spec fn after_offsets(dict: &Standard, dots: Seq<u8>, values: Seq<u8>, n: int) -> Seq<u8>
    decreases n,
{
    if n <= 0 {
        values
    } else {
        let found = dict.patterns.matching(dots.skip(n - 1));
        after_tallies(after_offsets(dict, dots, values, n - 1), found, n - 1, found.len() as int)
    }
}

/// The score of a word: for each interval between two of its bytes, the
/// greatest value that a pattern matching somewhere in the dotted word gives
/// to it, or 0.
pub open spec fn standard_score(dict: &Standard, word: Seq<u8>) -> Seq<u8> {
    after_offsets(
        dict,
        dotted(word),
        Seq::new(intervals(word), |i: int| 0u8),
        dotted(word).len() - 1,
    )
}

/// The values with that of position `k` raised to `value` and its subregion
/// set to `region`, where `k` lies between two bytes of the word and `value`
/// is greater than what is there.
pub open spec fn raised_ext<'d>(
    values: Seq<(u8, Option<&'d Subregion>)>,
    k: int,
    value: u8,
    region: Option<&'d Subregion>,
) -> Seq<(u8, Option<&'d Subregion>)> {
    if 2 <= k <= values.len() + 1 && value > values[k - 2].0 {
        values.update(k - 2, (value, region))
    } else {
        values
    }
}

/// The values after the first `n` standard loci of a tally that matched at
/// offset `at`. A standard locus that raises a value takes its subregion away.
pub open spec fn after_loci_ext<'d>(
    values: Seq<(u8, Option<&'d Subregion>)>,
    loci: Seq<Locus>,
    at: int,
    n: int,
) -> Seq<(u8, Option<&'d Subregion>)>
    decreases n,
{
    if n <= 0 {
        values
    } else {
        raised_ext(
            after_loci_ext(values, loci, at, n - 1),
            at + loci[n - 1].index,
            loci[n - 1].value,
            None,
        )
    }
}

/// The values after the locus of the tally's subregion, if it has one.
pub open spec fn after_subregion<'d>(
    values: Seq<(u8, Option<&'d Subregion>)>,
    tally: &'d Tally,
    at: int,
) -> Seq<(u8, Option<&'d Subregion>)> {
    match tally.subregion {
        Some((locus, region)) => raised_ext(values, at + locus.index, locus.value, Some(&region)),
        None => values,
    }
}

/// The values after a tally that matched at offset `at`: first the locus of
/// its subregion, then its standard loci.
pub open spec fn after_tally_ext<'d>(
    values: Seq<(u8, Option<&'d Subregion>)>,
    tally: &'d Tally,
    at: int,
) -> Seq<(u8, Option<&'d Subregion>)> {
    after_loci_ext(
        after_subregion(values, tally, at),
        tally.standard@,
        at,
        tally.standard@.len() as int,
    )
}

/// The values after the first `n` of the tallies that matched at offset `at`.
pub open spec fn after_tallies_ext<'d>(
    values: Seq<(u8, Option<&'d Subregion>)>,
    tallies: Seq<Tally>,
    at: int,
    n: int,
) -> Seq<(u8, Option<&'d Subregion>)>
    decreases n,
{
    if n <= 0 {
        values
    } else {
        after_tally_ext(after_tallies_ext(values, tallies, at, n - 1), &tallies[n - 1], at)
    }
}

/// The values after the patterns that match at the first `n` offsets of the
/// dotted word.
pub open spec fn after_offsets_ext<'d>(
    dict: &'d Extended,
    dots: Seq<u8>,
    values: Seq<(u8, Option<&'d Subregion>)>,
    n: int,
) -> Seq<(u8, Option<&'d Subregion>)>
    decreases n,
{
    if n <= 0 {
        values
    } else {
        let found = dict.patterns.matching(dots.skip(n - 1));
        after_tallies_ext(
            after_offsets_ext(dict, dots, values, n - 1),
            found,
            n - 1,
            found.len() as int,
        )
    }
}

/// The extended score of a word: for each interval between two of its bytes
/// the greatest value that a pattern gives to it, with the subregion of the
/// first locus that gave this value, if that locus has one.
pub open spec fn extended_score<'d>(dict: &'d Extended, word: Seq<u8>) -> Seq<
    (u8, Option<&'d Subregion>),
> {
    after_offsets_ext(
        dict,
        dotted(word),
        Seq::new(intervals(word), |i: int| (0u8, None::<&'d Subregion>)),
        dotted(word).len() - 1,
    )
}

/// Whether a value marks a valid break: odd values do.
pub open spec fn is_odd(value: u8) -> bool {
    value % 2 != 0
}

/// Methods to evaluate each index in a string as an opportunity for hyphenation.
pub trait Score<'d> {
    /// A value assigned to each index — which is to say, to each potential break
    /// between letters — to determine whether the string can be broken at that
    /// index.
    type Value;

    /// The dictionary can be searched for patterns.
    spec fn scorable(&self) -> bool;

    /// The score of the word, given as its bytes.
    spec fn score_of(&'d self, word: Seq<u8>) -> Seq<Self::Value>;

    /// Whether the value denotes a valid break.
    spec fn opportune(value: Self::Value) -> bool;

    /// Generate a word's hyphenation score, from which opportunities may be
    /// extracted.
    ///
    /// The `Standard` and `Extended` dictionaries mark each byte index with
    /// an integer value, where an odd value marks the index as a valid break.
    fn score(&'d self, word: &str) -> (r: Vec<Self::Value>)
        requires
            self.scorable(),
        ensures
            r@ == self.score_of(word.spec_bytes()),
    ;

    /// Whether the given value denotes a valid break.
    fn denotes_opportunity(value: Self::Value) -> (r: bool)
        ensures
            r == Self::opportune(value),
    ;
}

/// The word between two dots.
fn dotted_bytes(word: &[u8]) -> (r: Vec<u8>)
    ensures
        r@ == dotted(word@),
{
    let mut dots: Vec<u8> = Vec::new();
    dots.push(46u8);
    let mut i: usize = 0;
    while i < word.len()
        invariant
            i <= word.len(),
            dots@ == seq![46u8] + word@.take(i as int),
        decreases word.len() - i,
    {
        dots.push(word[i]);
        i = i + 1;
        assert(dots@ =~= seq![46u8] + word@.take(i as int));
    }
    dots.push(46u8);
    assert(word@.take(word.len() as int) =~= word@);
    dots
}

impl<'d> Score<'d> for Standard {
    type Value = u8;

    open spec fn scorable(&self) -> bool {
        self.wf()
    }

    open spec fn score_of(&'d self, word: Seq<u8>) -> Seq<u8> {
        standard_score(self, word)
    }

    open spec fn opportune(value: u8) -> bool {
        is_odd(value)
    }

    #[inline]
    fn denotes_opportunity(v: u8) -> (r: bool) {
        v % 2 != 0
    }

    fn score(&'d self, word: &str) -> (r: Vec<u8>) {
        let bytes = word.as_bytes();
        let dots = dotted_bytes(bytes);
        let length = bytes.len();
        let mut values: Vec<u8> = Vec::new();
        while values.len() + 1 < length
            invariant
                values@ == Seq::new(values.len() as nat, |i: int| 0u8),
                values.len() <= intervals(bytes@),
                length == bytes@.len(),
            decreases length - values.len(),
        {
            values.push(0u8);
            assert(values@ =~= Seq::new(values.len() as nat, |i: int| 0u8));
        }
        let ghost zero = values@;
        let mut i: usize = 0;
        while i < dots.len() - 1
            invariant
                self.wf(),
                dots@ == dotted(bytes@),
                length == bytes@.len(),
                i <= dots.len() - 1,
                values.len() == intervals(bytes@),
                values@ == after_offsets(self, dots@, zero, i as int),
            decreases dots.len() - i,
        {
            let ghost before = values@;
            let ghost found = self.patterns.matching(dots@.skip(i as int));
            let rest = slice_subrange(dots.as_slice(), i, dots.len());
            assert(rest@ =~= dots@.skip(i as int));
            let mut tallies = self.prefix_tallies(rest);
            let ghost mut seen: int = 0;
            loop
                invariant
                    tallies.wf(),
                    0 <= seen <= found.len(),
                    tallies.remaining() == found.skip(seen),
                    length == bytes@.len(),
                    i <= length,
                    values.len() == intervals(bytes@),
                    values@ == after_tallies(before, found, i as int, seen),
                ensures
                    seen == found.len(),
                decreases found.len() - seen,
            {
                let ghost left = tallies.remaining();
                match tallies.next() {
                    None => {
                        assert(tallies.remaining() =~= found.skip(seen));
                        break ;
                    },
                    Some(tally) => {
                        assert(left[0] == found[seen]);
                        assert(left.drop_first() =~= found.skip(seen + 1));
                        let ghost start = values@;
                        let mut j: usize = 0;
                        while j < tally.len()
                            invariant
                                j <= tally.len(),
                                length == bytes@.len(),
                                i <= length,
                                values.len() == intervals(bytes@),
                                values@ == after_loci(start, tally@, i as int, j as int),
                            decreases tally.len() - j,
                        {
                            let locus = tally[j];
                            let step = locus.index as usize;
                            if step <= length - i {
                                let k = i + step;
                                if k > 1 && locus.value > values[k - 2] {
                                    values.set(k - 2, locus.value);
                                }
                            }
                            j = j + 1;
                        }
                        proof {
                            seen = seen + 1;
                        }
                    },
                }
            }
            i = i + 1;
        }
        values
    }
}

impl<'d> Score<'d> for Extended {
    type Value = (u8, Option<&'d Subregion>);

    open spec fn scorable(&self) -> bool {
        self.wf()
    }

    open spec fn score_of(&'d self, word: Seq<u8>) -> Seq<(u8, Option<&'d Subregion>)> {
        extended_score(self, word)
    }

    open spec fn opportune(value: (u8, Option<&'d Subregion>)) -> bool {
        is_odd(value.0)
    }

    #[inline]
    fn denotes_opportunity(value: (u8, Option<&'d Subregion>)) -> (r: bool) {
        value.0 % 2 != 0
    }

    fn score(&'d self, word: &str) -> (r: Vec<(u8, Option<&'d Subregion>)>) {
        let bytes = word.as_bytes();
        let dots = dotted_bytes(bytes);
        let length = bytes.len();
        let mut values: Vec<(u8, Option<&'d Subregion>)> = Vec::new();
        while values.len() + 1 < length
            invariant
                values@ == Seq::new(values.len() as nat, |i: int| (0u8, None::<&'d Subregion>)),
                values.len() <= intervals(bytes@),
                length == bytes@.len(),
            decreases length - values.len(),
        {
            values.push((0u8, None));
            assert(values@ =~= Seq::new(
                values.len() as nat,
                |i: int| (0u8, None::<&'d Subregion>),
            ));
        }
        let ghost zero = values@;
        let mut i: usize = 0;
        while i < dots.len() - 1
            invariant
                self.wf(),
                dots@ == dotted(bytes@),
                length == bytes@.len(),
                i <= dots.len() - 1,
                values.len() == intervals(bytes@),
                values@ == after_offsets_ext(self, dots@, zero, i as int),
            decreases dots.len() - i,
        {
            let ghost before = values@;
            let ghost found = self.patterns.matching(dots@.skip(i as int));
            let rest = slice_subrange(dots.as_slice(), i, dots.len());
            assert(rest@ =~= dots@.skip(i as int));
            let mut tallies = self.prefix_tallies(rest);
            let ghost mut seen: int = 0;
            loop
                invariant
                    tallies.wf(),
                    0 <= seen <= found.len(),
                    tallies.remaining() == found.skip(seen),
                    length == bytes@.len(),
                    i <= length,
                    values.len() == intervals(bytes@),
                    values@ == after_tallies_ext(before, found, i as int, seen),
                ensures
                    seen == found.len(),
                decreases found.len() - seen,
            {
                let ghost left = tallies.remaining();
                match tallies.next() {
                    None => {
                        assert(tallies.remaining() =~= found.skip(seen));
                        break ;
                    },
                    Some(tally) => {
                        assert(left[0] == found[seen]);
                        assert(left.drop_first() =~= found.skip(seen + 1));
                        // NOTE: By convention, competing standard and non-standard
                        // patterns may not assign equal values to the same location.
                        match &tally.subregion {
                            Some((locus, region)) => {
                                let step = locus.index as usize;
                                if step <= length - i {
                                    let k = i + step;
                                    if k > 1 && locus.value > values[k - 2].0 {
                                        values.set(k - 2, (locus.value, Some(region)));
                                    }
                                }
                            },
                            None => {},
                        }
                        // The order of these two traversals matters: a standard
                        // locus does not replace a subregion of equal value.
                        let ghost start = values@;
                        assert(start == after_subregion(
                            after_tallies_ext(before, found, i as int, seen),
                            tally,
                            i as int,
                        ));
                        let mut j: usize = 0;
                        while j < tally.standard.len()
                            invariant
                                j <= tally.standard.len(),
                                length == bytes@.len(),
                                i <= length,
                                values.len() == intervals(bytes@),
                                values@ == after_loci_ext(
                                    start,
                                    tally.standard@,
                                    i as int,
                                    j as int,
                                ),
                            decreases tally.standard.len() - j,
                        {
                            let locus = tally.standard[j];
                            let step = locus.index as usize;
                            if step <= length - i {
                                let k = i + step;
                                if k > 1 && locus.value > values[k - 2].0 {
                                    values.set(k - 2, (locus.value, None));
                                }
                            }
                            j = j + 1;
                        }
                        proof {
                            seen = seen + 1;
                        }
                    },
                }
            }
            i = i + 1;
        }
        values
    }
}

/// Locus `l` of tally `t` among those that match at offset `at` of the dotted
/// word lies on interval `j` of the word.
pub open spec fn lies_on(dict: &Standard, dots: Seq<u8>, at: int, t: int, l: int, j: int) -> bool {
    let found = dict.patterns.matching(dots.skip(at));
    &&& 0 <= at < dots.len() - 1
    &&& 0 <= t < found.len()
    &&& 0 <= l < found[t]@.len()
    &&& at + found[t]@[l].index == j + 2
}

/// The value of locus `l` of tally `t` among those that match at offset `at`
/// of the dotted word.
pub open spec fn value_of(dict: &Standard, dots: Seq<u8>, at: int, t: int, l: int) -> u8 {
    dict.patterns.matching(dots.skip(at))[t]@[l].value
}

/// After the first `n` loci of a tally, the value of an interval is the
/// greatest of what it was and what these loci give to it.
proof fn lemma_after_loci(values: Seq<u8>, loci: Seq<Locus>, at: int, n: int, j: int)
    requires
        0 <= n <= loci.len(),
        0 <= j < values.len(),
    ensures
        after_loci(values, loci, at, n).len() == values.len(),
        after_loci(values, loci, at, n)[j] >= values[j],
        forall|m: int|
            0 <= m < n && at + (#[trigger] loci[m]).index == j + 2 ==> loci[m].value <= after_loci(
                values,
                loci,
                at,
                n,
            )[j],
        after_loci(values, loci, at, n)[j] == values[j] || exists|m: int|
            0 <= m < n && at + (#[trigger] loci[m]).index == j + 2 && loci[m].value == after_loci(
                values,
                loci,
                at,
                n,
            )[j],
    decreases n,
{
    if n > 0 {
        lemma_after_loci(values, loci, at, n - 1, j);
        let before = after_loci(values, loci, at, n - 1);
        let now = after_loci(values, loci, at, n);
        if now[j] != values[j] {
            if now[j] == before[j] {
                let m = choose|m: int|
                    0 <= m < n - 1 && at + (#[trigger] loci[m]).index == j + 2 && loci[m].value
                        == before[j];
                assert(0 <= m < n && at + loci[m].index == j + 2 && loci[m].value == now[j]);
            } else {
                assert(at + loci[n - 1].index == j + 2 && loci[n - 1].value == now[j]);
            }
        }
    }
}

/// After the first `n` tallies that match at an offset, the value of an
/// interval is the greatest of what it was and what their loci give to it.
proof fn lemma_after_tallies(values: Seq<u8>, tallies: Seq<Vec<Locus>>, at: int, n: int, j: int)
    requires
        0 <= n <= tallies.len(),
        0 <= j < values.len(),
    ensures
        after_tallies(values, tallies, at, n).len() == values.len(),
        after_tallies(values, tallies, at, n)[j] >= values[j],
        forall|t: int, l: int|
            0 <= t < n && 0 <= l < tallies[t]@.len() && at + (#[trigger] tallies[t]@[l]).index == j
                + 2 ==> tallies[t]@[l].value <= after_tallies(values, tallies, at, n)[j],
        after_tallies(values, tallies, at, n)[j] == values[j] || exists|t: int, l: int|
            0 <= t < n && 0 <= l < tallies[t]@.len() && at + (#[trigger] tallies[t]@[l]).index == j
                + 2 && tallies[t]@[l].value == after_tallies(values, tallies, at, n)[j],
    decreases n,
{
    if n > 0 {
        lemma_after_tallies(values, tallies, at, n - 1, j);
        let before = after_tallies(values, tallies, at, n - 1);
        let now = after_tallies(values, tallies, at, n);
        let loci = tallies[n - 1]@;
        lemma_after_loci(before, loci, at, loci.len() as int, j);
        assert forall|t: int, l: int|
            0 <= t < n && 0 <= l < tallies[t]@.len() && at + (#[trigger] tallies[t]@[l]).index == j
                + 2 implies tallies[t]@[l].value <= now[j] by {
            if t == n - 1 {
                assert(at + loci[l].index == j + 2);
            }
        }
        if now[j] != values[j] {
            if now[j] == before[j] {
                let (t, l) = choose|t: int, l: int|
                    0 <= t < n - 1 && 0 <= l < tallies[t]@.len() && at + (
                    #[trigger] tallies[t]@[l]).index == j + 2 && tallies[t]@[l].value == before[j];
                assert(0 <= t < n && 0 <= l < tallies[t]@.len() && at + tallies[t]@[l].index == j
                    + 2 && tallies[t]@[l].value == now[j]);
            } else {
                let m = choose|m: int|
                    0 <= m < loci.len() && at + (#[trigger] loci[m]).index == j + 2 && loci[m].value
                        == now[j];
                assert(0 <= m < tallies[n - 1]@.len() && at + tallies[n - 1]@[m].index == j + 2
                    && tallies[n - 1]@[m].value == now[j]);
            }
        }
    }
}

/// After the patterns that match at the first `n` offsets, the value of an
/// interval is the greatest of what it was and what their loci give to it.
proof fn lemma_after_offsets(dict: &Standard, dots: Seq<u8>, values: Seq<u8>, n: int, j: int)
    requires
        0 <= n <= dots.len() - 1,
        0 <= j < values.len(),
    ensures
        after_offsets(dict, dots, values, n).len() == values.len(),
        after_offsets(dict, dots, values, n)[j] >= values[j],
        forall|at: int, t: int, l: int|
            at < n && #[trigger] lies_on(dict, dots, at, t, l, j) ==> value_of(dict, dots, at, t, l)
                <= after_offsets(dict, dots, values, n)[j],
        after_offsets(dict, dots, values, n)[j] == values[j] || exists|at: int, t: int, l: int|
            at < n && #[trigger] lies_on(dict, dots, at, t, l, j) && value_of(dict, dots, at, t, l)
                == after_offsets(dict, dots, values, n)[j],
    decreases n,
{
    if n > 0 {
        lemma_after_offsets(dict, dots, values, n - 1, j);
        let before = after_offsets(dict, dots, values, n - 1);
        let now = after_offsets(dict, dots, values, n);
        let found = dict.patterns.matching(dots.skip(n - 1));
        lemma_after_tallies(before, found, n - 1, found.len() as int, j);
        assert forall|at: int, t: int, l: int|
            at < n && #[trigger] lies_on(dict, dots, at, t, l, j) implies value_of(
            dict,
            dots,
            at,
            t,
            l,
        ) <= now[j] by {
            if at == n - 1 {
                assert(n - 1 + found[t]@[l].index == j + 2);
            }
        }
        if now[j] != values[j] {
            if now[j] == before[j] {
                let (at, t, l) = choose|at: int, t: int, l: int|
                    at < n - 1 && #[trigger] lies_on(dict, dots, at, t, l, j) && value_of(
                        dict,
                        dots,
                        at,
                        t,
                        l,
                    ) == before[j];
                assert(at < n && lies_on(dict, dots, at, t, l, j));
            } else {
                let (t, l) = choose|t: int, l: int|
                    0 <= t < found.len() && 0 <= l < found[t]@.len() && n - 1 + (
                    #[trigger] found[t]@[l]).index == j + 2 && found[t]@[l].value == now[j];
                assert(lies_on(dict, dots, n - 1, t, l, j));
            }
        }
    }
}

/// The score has a value for each interval between two bytes of the word,
/// and this value is the greatest that a locus of a matching pattern gives
/// to the interval, or 0 where there is none.
pub proof fn law_score_is_greatest(dict: &Standard, word: Seq<u8>, j: int)
    requires
        0 <= j < intervals(word),
    ensures
        standard_score(dict, word).len() == intervals(word),
        forall|at: int, t: int, l: int| #[trigger]
            lies_on(dict, dotted(word), at, t, l, j) ==> value_of(dict, dotted(word), at, t, l)
                <= standard_score(dict, word)[j],
        standard_score(dict, word)[j] == 0 || exists|at: int, t: int, l: int| #[trigger]
            lies_on(dict, dotted(word), at, t, l, j) && value_of(dict, dotted(word), at, t, l)
                == standard_score(dict, word)[j],
{
    let zero = Seq::new(intervals(word), |i: int| 0u8);
    lemma_after_offsets(dict, dotted(word), zero, dotted(word).len() - 1, j);
}

} // verus!
