//! Methods for hyphenation dictionaries.

use crate::case_folding::{
    counts_down, lemma_shift_at_range, realign, realign_spec, refold, refold_spec, Shift,
};
use crate::dictionary::extended::{Extended, Subregion};
use crate::dictionary::Standard;
use crate::score::{is_odd, Score};
use crate::text::{char_indices, char_offset, lemma_char_offset_bound, lemma_char_offset_ends};
use std::borrow::Cow;
use vstd::hash_map::*;
use vstd::prelude::*;
use vstd::string::*;
use vstd::utf8::*;

verus! {

/// The soft hyphen, U+00AD.
pub open spec fn soft_hyphen() -> char {
    '\u{ad}'
}

/// The byte offsets of the soft hyphens among the first `n` characters.
pub open spec fn soft_hyphens_upto(chars: Seq<char>, n: int) -> Seq<usize>
    decreases n,
{
    if n <= 0 {
        Seq::empty()
    } else if chars[n - 1] == soft_hyphen() {
        soft_hyphens_upto(chars, n - 1).push(char_offset(chars, n - 1) as usize)
    } else {
        soft_hyphens_upto(chars, n - 1)
    }
}

/// The byte offsets of the soft hyphens of a word, in ascending order.
pub open spec fn soft_hyphens(chars: Seq<char>) -> Seq<usize> {
    soft_hyphens_upto(chars, chars.len() as int)
}

/// The indices of soft hyphens (U+00AD) within the string, if any. Existing
/// soft hyphens indicate a preferred hyphenation, which can be used without
/// resorting to best-effort hyphenation.
pub fn soft_hyphen_indices(word: &str) -> (r: Option<Vec<usize>>)
    ensures
        r matches Some(shys) ==> shys@ == soft_hyphens(word@) && shys.len() > 0,
        r is None ==> soft_hyphens(word@).len() == 0,
{
    let chars = char_indices(word);
    let mut shys: Vec<usize> = Vec::new();
    let mut n: usize = 0;
    while n < chars.len()
        invariant
            n <= chars.len(),
            chars.len() == word@.len(),
            forall|k: int|
                0 <= k < chars.len() ==> (#[trigger] chars[k]).0 == char_offset(word@, k)
                    && chars[k].1 == word@[k],
            shys@ == soft_hyphens_upto(word@, n as int),
        decreases chars.len() - n,
    {
        let (at, c) = chars[n];
        if c == '\u{ad}' {
            shys.push(at);
        }
        n = n + 1;
    }
    if !shys.is_empty() {
        Some(shys)
    } else {
        None
    }
}

/// A hyphenated word carrying valid breaks.
///
/// The `Word` can be borrowed or moved for iteration with `iter()` and
/// `into_iter()` respectively.
#[derive(Clone, Debug, PartialEq, Eq, Hash)]
pub struct Word<'t, Break> {
    pub text: &'t str,
    pub breaks: Vec<Break>,
}

/// The index of the character at which the right margin starts: the margin
/// counts at least one character.
pub open spec fn right_margin_start(count: int, right_min: usize) -> int {
    let back = if right_min == 0 {
        1
    } else {
        right_min as int
    };
    if count >= back {
        count - back
    } else {
        0
    }
}

/// The byte offsets between which breaks may occur, both included: from the
/// end of the left margin to the start of the right margin. A word with fewer
/// characters than the two margins together has none.
pub open spec fn boundaries_spec(chars: Seq<char>, minima: (usize, usize)) -> Option<
    (usize, usize),
> {
    if chars.len() >= minima.0 + minima.1 {
        Some(
            (
                char_offset(chars, minima.0 as int) as usize,
                char_offset(chars, right_margin_start(chars.len() as int, minima.1)) as usize,
            ),
        )
    } else {
        None
    }
}

/// Whether the offsets found in the refolded word can be brought back to the
/// original: they can where the word has a soft hyphen, so that it is not
/// refolded, or where the length of the refolded word and the number of its
/// shifts together are within the machine's range.
pub open spec fn realignable(word: Seq<char>) -> bool {
    soft_hyphens(word).len() > 0 || encode_utf8(refold_spec(word).0).len() + refold_spec(
        word,
    ).1.len() <= usize::MAX
}

/// The opportunities of a word with the given bounds: none where it has no
/// bounds, else those of its exception within the bounds, if it has one, else
/// those of the patterns.
pub open spec fn found_spec<O>(
    bounds: Option<(usize, usize)>,
    by_exception: spec_fn((usize, usize)) -> Option<Seq<O>>,
    by_pattern: spec_fn((usize, usize)) -> Seq<O>,
) -> Seq<O> {
    match bounds {
        None => Seq::empty(),
        Some(bounds) => match by_exception(bounds) {
            None => by_pattern(bounds),
            Some(known) => known,
        },
    }
}

/// The exception of a word with the given bounds, within them.
pub open spec fn excepted_spec<O>(
    bounds: Option<(usize, usize)>,
    by_exception: spec_fn((usize, usize)) -> Option<Seq<O>>,
) -> Option<Seq<O>> {
    match bounds {
        None => None,
        Some(bounds) => by_exception(bounds),
    }
}

/// The breaks of a word: its soft hyphens, if it has any; else the
/// opportunities of the refolded word, each brought back to the original.
pub open spec fn hyphenated_spec<O>(
    word: Seq<char>,
    plain: spec_fn(usize) -> O,
    found: spec_fn(Seq<char>) -> Seq<O>,
    moved: spec_fn(O, Seq<Shift>) -> O,
) -> Seq<O> {
    if soft_hyphens(word).len() > 0 {
        soft_hyphens(word).map_values(plain)
    } else {
        found(refold_spec(word).0).map_values(|o: O| moved(o, refold_spec(word).1))
    }
}

/// A dictionary capable of hyphenating individual words.
///
/// For the purpose of hyphenation, a "word" should not be a compound in
/// hyphenated form (such as "hard-nosed"), but a single run of letters
/// without intervening punctuation or spaces.
pub trait Hyphenator<'h>: Sized {
    /// Plain representation of a word break.
    type Opportunity;

    /// An owned opportunity used to specify and store the predetermined
    /// hyphenation of known words.
    type Exact;

    /// The dictionary can be searched for patterns.
    spec fn usable(&self) -> bool;

    /// The number of characters at the start and at the end of a word where
    /// breaks may not occur.
    spec fn margins(&self) -> (usize, usize);

    /// The known hyphenation of each exception.
    spec fn known(&self) -> Map<Seq<char>, Seq<Self::Exact>>;

    /// The opportunities that the patterns give between the bounds.
    spec fn by_pattern(&'h self, word: Seq<char>, bounds: (usize, usize)) -> Seq<
        Self::Opportunity,
    >;

    /// The opportunities of the exception for the word between the bounds, if
    /// there is one.
    spec fn by_exception(&'h self, word: Seq<char>, bounds: (usize, usize)) -> Option<
        Seq<Self::Opportunity>,
    >;

    /// The break at a byte offset, with nothing more.
    spec fn plain(i: usize) -> Self::Opportunity;

    /// The opportunity with its offset brought back to the original word.
    spec fn moved(o: Self::Opportunity, shifts: Seq<Shift>) -> Self::Opportunity;

    /// The opportunities that the dictionary finds in a lowercase word: none
    /// where the word is too short for the margins, else those of the exception
    /// for the word within the margins, if there is one, else those of the
    /// patterns.
    spec fn found(&'h self, word: Seq<char>) -> Seq<Self::Opportunity>;

    /// The breaks of a word: its soft hyphens, if it has any; else the
    /// opportunities of the refolded word, each brought back to the original.
    spec fn hyphenated(&'h self, word: Seq<char>) -> Seq<Self::Opportunity>;

    /// Hyphenate a word, computing appropriate word breaks and preparing it for
    /// iteration.
    ///
    /// Soft hyphens take priority over dictionary hyphenation; if the word
    /// contains any, they will be returned as the only breaks available.
    ///
    /// This method is case-insensitive.
    fn hyphenate<'t>(&'h self, word: &'t str) -> (r: Word<'t, Self::Opportunity>)
        requires
            self.usable(),
            realignable(word@),
        ensures
            r.text@ == word@,
            r.breaks@ == self.hyphenated(word@),
    ;

    /// Hyphenate a word, unless the offsets of its refolded form cannot be
    /// brought back within the machine's range.
    fn try_hyphenate<'t>(&'h self, word: &'t str) -> (r: Option<Word<'t, Self::Opportunity>>)
        requires
            self.usable(),
        ensures
            r is Some <==> realignable(word@),
            r matches Some(w) ==> w.text@ == word@ && w.breaks@ == self.hyphenated(word@),
    {
        if fits(word) {
            Some(self.hyphenate(word))
        } else {
            None
        }
    }

    /// The hyphenation opportunities that our dictionary can find in the given
    /// word. The word should be lowercase.
    fn opportunities(&'h self, lowercase_word: &str) -> (r: Vec<Self::Opportunity>)
        requires
            self.usable(),
        ensures
            r@ == found_spec(
                boundaries_spec(lowercase_word@, self.margins()),
                |bounds: (usize, usize)| self.by_exception(lowercase_word@, bounds),
                |bounds: (usize, usize)| self.by_pattern(lowercase_word@, bounds),
            ),
    {
        match self.boundaries(lowercase_word) {
            None => Vec::new(),
            Some(mins) => match self.exception_within(lowercase_word, mins) {
                None => self.opportunities_within(lowercase_word, mins),
                Some(known) => known,
            },
        }
    }

    /// The hyphenation opportunities that arise by pattern between the
    /// specified byte indices.
    fn opportunities_within(&'h self, lowercase_word: &str, bounds: (usize, usize)) -> (r: Vec<
        Self::Opportunity,
    >)
        requires
            self.usable(),
        ensures
            r@ == self.by_pattern(lowercase_word@, bounds),
    ;

    /// If this word is a known exception, retrieve its specified hyphenation.
    fn exception(&'h self, lowercase_word: &str) -> (r: Option<Vec<Self::Opportunity>>)
        ensures
            r is Some <==> excepted_spec(
                boundaries_spec(lowercase_word@, self.margins()),
                |bounds: (usize, usize)| self.by_exception(lowercase_word@, bounds),
            ) is Some,
            r matches Some(known) ==> known@ == excepted_spec(
                boundaries_spec(lowercase_word@, self.margins()),
                |bounds: (usize, usize)| self.by_exception(lowercase_word@, bounds),
            )->0,
    {
        match self.boundaries(lowercase_word) {
            None => None,
            Some(mins) => self.exception_within(lowercase_word, mins),
        }
    }

    /// The hyphenation opportunities that arise by exception between the
    /// specified byte indices, if any.
    fn exception_within(&'h self, lowercase_word: &str, bounds: (usize, usize)) -> (r: Option<
        Vec<Self::Opportunity>,
    >)
        ensures
            r is Some <==> self.by_exception(lowercase_word@, bounds) is Some,
            r matches Some(known) ==> known@ == self.by_exception(lowercase_word@, bounds)->0,
    ;

    /// Specify the hyphenation of the given word with an exact sequence of
    /// opportunities and add it to the exception list. Subsequent calls to
    /// `hyphenate` or `opportunities` will yield this hyphenation instead of
    /// generating one from patterns.
    ///
    /// If the word is already a known exception, the old opportunities are
    /// returned.
    fn add_exception(&mut self, lowercase_word: String, ops: Vec<Self::Exact>) -> (r: Option<
        Vec<Self::Exact>,
    >)
        ensures
            final(self).known() == old(self).known().insert(lowercase_word@, ops@),
            final(self).usable() == old(self).usable(),
            final(self).margins() == old(self).margins(),
            r is Some <==> old(self).known().contains_key(lowercase_word@),
            r matches Some(before) ==> before@ == old(self).known()[lowercase_word@],
    ;

    /// If the word is an exception, remove it and return the previously
    /// specified opportunities; otherwise, return none.
    fn remove_exception(&mut self, word: &str) -> (r: Option<Vec<Self::Exact>>)
        ensures
            final(self).known() == old(self).known().remove(word@),
            final(self).usable() == old(self).usable(),
            final(self).margins() == old(self).margins(),
            r is Some <==> old(self).known().contains_key(word@),
            r matches Some(before) ==> before@ == old(self).known()[word@],
    ;

    /// The number of `char`s from the start and end of a word where breaks may
    /// not occur, according to dictionary parameters.
    fn unbreakable_chars(&self) -> (r: (usize, usize))
        ensures
            r == self.margins(),
    ;

    /// The byte indices delimiting the substring where breaks may occur, unless
    /// the word is too short to be hyphenated.
    fn boundaries(&self, word: &str) -> (r: Option<(usize, usize)>)
        ensures
            r == boundaries_spec(word@, self.margins()),
    {
        let (l_min, r_min) = self.unbreakable_chars();
        let chars = char_indices(word);
        let count = chars.len();
        let length = word.as_bytes().len();
        proof {
            lemma_char_offset_ends(word@);
        }
        match l_min.checked_add(r_min) {
            None => None,
            Some(length_min) => {
                if count >= length_min {
                    let left = if l_min < count {
                        chars[l_min].0
                    } else {
                        length
                    };
                    let back = if r_min == 0 {
                        1
                    } else {
                        r_min
                    };
                    let right = if count >= back {
                        chars[count - back].0
                    } else {
                        0
                    };
                    Some((left, right))
                } else {
                    None
                }
            },
        }
    }
}

/// A word made ready for a dictionary: refolded, with the shifts that the
/// refolding induced.
struct Prepared<'t> {
    word: Cow<'t, str>,
    shifts: Vec<Shift>,
}

fn prepare<'t>(text: &'t str) -> (r: Prepared<'t>)
    ensures
        r.word@ == refold_spec(text@).0,
        r.shifts@ == refold_spec(text@).1,
        counts_down(r.shifts@),
{
    let (word, shifts) = refold(text);
    Prepared { word, shifts }
}

/// The string that is borrowed or owned.
fn borrowed<'a, 't>(word: &'a Cow<'t, str>) -> (r: &'a str)
    ensures
        r@ == word@,
{
    match word {
        Cow::Borrowed(b) => b,
        Cow::Owned(o) => o.as_str(),
    }
}

/// Whether the offsets found in the refolded word can be brought back to the
/// original.
fn fits(word: &str) -> (r: bool)
    ensures
        r == realignable(word@),
{
    match soft_hyphen_indices(word) {
        Some(_) => true,
        None => {
            let prepared = prepare(word);
            let length = borrowed(&prepared.word).as_bytes().len();
            length.checked_add(prepared.shifts.len()).is_some()
        },
    }
}

/// Whether the patterns mark offset `i` of the word as a break: the score
/// before it is odd, it lies within the bounds, and a character starts there.
pub open spec fn is_break(score: Seq<u8>, bytes: Seq<u8>, bounds: (usize, usize), i: int) -> bool {
    &&& 1 <= i < bytes.len()
    &&& i - 1 < score.len()
    &&& is_odd(score[i - 1])
    &&& bounds.0 <= i <= bounds.1
    &&& is_char_boundary(bytes, i)
}

/// The breaks that the patterns mark below offset `n`, in ascending order.
pub open spec fn breaks_below(score: Seq<u8>, bytes: Seq<u8>, bounds: (usize, usize), n: int) -> Seq<
    usize,
>
    decreases n,
{
    if n <= 1 {
        Seq::empty()
    } else if is_break(score, bytes, bounds, n - 1) {
        breaks_below(score, bytes, bounds, n - 1).push((n - 1) as usize)
    } else {
        breaks_below(score, bytes, bounds, n - 1)
    }
}

/// Those of the first `n` breaks that lie within the bounds, in their order.
pub open spec fn kept(breaks: Seq<usize>, bounds: (usize, usize), n: int) -> Seq<usize>
    decreases n,
{
    if n <= 0 {
        Seq::empty()
    } else if bounds.0 <= breaks[n - 1] <= bounds.1 {
        kept(breaks, bounds, n - 1).push(breaks[n - 1])
    } else {
        kept(breaks, bounds, n - 1)
    }
}

/// The known hyphenations of a standard dictionary.
pub open spec fn standard_known(exceptions: Map<Seq<char>, Vec<usize>>) -> Map<
    Seq<char>,
    Seq<usize>,
> {
    Map::new(|w: Seq<char>| exceptions.contains_key(w), |w: Seq<char>| exceptions[w]@)
}

impl<'h> Hyphenator<'h> for Standard {
    type Opportunity = usize;

    type Exact = usize;

    open spec fn usable(&self) -> bool {
        self.wf()
    }

    open spec fn margins(&self) -> (usize, usize) {
        self.minima
    }

    open spec fn known(&self) -> Map<Seq<char>, Seq<usize>> {
        standard_known(self.exceptions.0@)
    }

    open spec fn by_pattern(&'h self, word: Seq<char>, bounds: (usize, usize)) -> Seq<usize> {
        breaks_below(
            self.score_of(encode_utf8(word)),
            encode_utf8(word),
            bounds,
            encode_utf8(word).len() as int,
        )
    }

    open spec fn by_exception(&'h self, word: Seq<char>, bounds: (usize, usize)) -> Option<
        Seq<usize>,
    > {
        if self.exceptions.0@.contains_key(word) {
            Some(kept(self.exceptions.0@[word]@, bounds, self.exceptions.0@[word]@.len() as int))
        } else {
            None
        }
    }

    open spec fn plain(i: usize) -> usize {
        i
    }

    open spec fn moved(o: usize, shifts: Seq<Shift>) -> usize {
        realign_spec(o, shifts) as usize
    }

    open spec fn found(&'h self, word: Seq<char>) -> Seq<usize> {
        found_spec(
            boundaries_spec(word, self.margins()),
            |bounds: (usize, usize)| self.by_exception(word, bounds),
            |bounds: (usize, usize)| self.by_pattern(word, bounds),
        )
    }

    open spec fn hyphenated(&'h self, word: Seq<char>) -> Seq<usize> {
        hyphenated_spec(
            word,
            |i: usize| Self::plain(i),
            |w: Seq<char>| self.found(w),
            |o: usize, shifts: Seq<Shift>| Self::moved(o, shifts),
        )
    }

    fn hyphenate<'t>(&'h self, word: &'t str) -> (r: Word<'t, usize>) {
        let breaks = match soft_hyphen_indices(word) {
            Some(ops) => {
                assert(ops@ =~= soft_hyphens(word@).map_values(|i: usize| Self::plain(i)));
                assert(ops@ =~= self.hyphenated(word@));
                ops
            },
            None => {
                let prepared = prepare(word);
                let folded = borrowed(&prepared.word);
                let ops = self.opportunities(folded);
                assert(ops@ == self.found(folded@));
                let ghost shifts = prepared.shifts@;
                let ghost target = ops@.map_values(|o: usize| Self::moved(o, shifts));
                if !prepared.shifts.is_empty() {
                    let mut moved: Vec<usize> = Vec::new();
                    let mut n: usize = 0;
                    let length = folded.as_bytes().len();
                    proof {
                        lemma_standard_within_word(self, folded@);
                    }
                    while n < ops.len()
                        invariant
                            n <= ops.len(),
                            shifts == prepared.shifts@,
                            counts_down(shifts),
                            length + shifts.len() <= usize::MAX,
                            forall|k: int| 0 <= k < ops.len() ==> #[trigger] ops[k] <= length,
                            target == ops@.map_values(|o: usize| Self::moved(o, shifts)),
                            moved@ == target.take(n as int),
                        decreases ops.len() - n,
                    {
                        proof {
                            lemma_shift_at_range(ops[n as int], shifts, shifts.len() as int);
                            assert(shifts.take(shifts.len() as int) =~= shifts);
                        }
                        moved.push(realign(ops[n], prepared.shifts.as_slice()));
                        n = n + 1;
                        assert(moved@ =~= target.take(n as int));
                    }
                    assert(target.take(ops.len() as int) =~= target);
                    assert(target =~= self.hyphenated(word@));
                    moved
                } else {
                    assert(ops@ =~= target);
                    assert(target =~= self.hyphenated(word@));
                    ops
                }
            },
        };
        Word { breaks, text: word }
    }

    fn opportunities_within(&'h self, word: &str, bounds: (usize, usize)) -> (r: Vec<usize>) {
        let (l, r) = bounds;
        let score = self.score(word);
        let length = word.as_bytes().len();
        let mut found: Vec<usize> = Vec::new();
        let mut i: usize = 1;
        while i < length
            invariant
                1 <= i,
                i <= length || i == 1,
                length == word.spec_bytes().len(),
                bounds == (l, r),
                score@ == self.score_of(word.spec_bytes()),
                found@ == breaks_below(score@, word.spec_bytes(), bounds, i as int),
            decreases length - i,
        {
            if i - 1 < score.len() {
                let valid = Self::denotes_opportunity(score[i - 1]);
                let within_bounds = i >= l && i <= r;
                let legal_index = word.is_char_boundary(i);
                if valid && within_bounds && legal_index {
                    found.push(i);
                }
            }
            i = i + 1;
        }
        assert(found@ == breaks_below(score@, word.spec_bytes(), bounds, length as int));
        found
    }

    #[inline]
    fn exception_within(&'h self, w: &str, bounds: (usize, usize)) -> (r: Option<Vec<usize>>) {
        let (l, r) = bounds;
        match self.exceptions.0.get(w) {
            None => None,
            Some(known) => {
                let mut within: Vec<usize> = Vec::new();
                let mut n: usize = 0;
                while n < known.len()
                    invariant
                        n <= known.len(),
                        bounds == (l, r),
                        within@ == kept(known@, bounds, n as int),
                    decreases known.len() - n,
                {
                    let i = known[n];
                    if i >= l && i <= r {
                        within.push(i);
                    }
                    n = n + 1;
                }
                Some(within)
            },
        }
    }

    #[inline]
    fn add_exception(&mut self, w: String, ops: Vec<usize>) -> (r: Option<Vec<usize>>) {
        let before = match self.exceptions.0.get(w.as_str()) {
            Some(known) => Some(known.clone()),
            None => None,
        };
        let ghost word = w@;
        self.exceptions.0.insert(w, ops);
        assert(self.known() =~= old(self).known().insert(word, ops@));
        before
    }

    fn remove_exception(&mut self, w: &str) -> (r: Option<Vec<usize>>) {
        let before = match self.exceptions.0.get(w) {
            Some(known) => Some(known.clone()),
            None => None,
        };
        self.exceptions.0.remove(w);
        assert(self.known() =~= old(self).known().remove(w@));
        before
    }

    #[inline]
    fn unbreakable_chars(&self) -> (r: (usize, usize)) {
        self.minima
    }
}

/// The breaks that the patterns mark lie inside the word and within the
/// bounds, on character boundaries, and ascend.
pub proof fn lemma_breaks_below(score: Seq<u8>, bytes: Seq<u8>, bounds: (usize, usize), n: int)
    requires
        n <= bytes.len() <= usize::MAX,
    ensures
        forall|k: int|
            0 <= k < breaks_below(score, bytes, bounds, n).len() ==> is_break(
                score,
                bytes,
                bounds,
                #[trigger] breaks_below(score, bytes, bounds, n)[k] as int,
            ) && breaks_below(score, bytes, bounds, n)[k] < n,
        forall|j: int, k: int|
            0 <= j < k < breaks_below(score, bytes, bounds, n).len() ==> #[trigger] breaks_below(
                score,
                bytes,
                bounds,
                n,
            )[j] < #[trigger] breaks_below(score, bytes, bounds, n)[k],
    decreases n,
{
    if n > 1 {
        lemma_breaks_below(score, bytes, bounds, n - 1);
        let before = breaks_below(score, bytes, bounds, n - 1);
        let now = breaks_below(score, bytes, bounds, n);
        assert forall|k: int| 0 <= k < now.len() implies is_break(
            score,
            bytes,
            bounds,
            #[trigger] now[k] as int,
        ) && now[k] < n by {
            if k < before.len() {
                assert(now[k] == before[k]);
            }
        }
        assert forall|j: int, k: int| 0 <= j < k < now.len() implies #[trigger] now[j]
            < #[trigger] now[k] by {
            assert(now[j] == before[j]);
            if k < before.len() {
                assert(now[k] == before[k]);
            }
        }
    }
}

/// The breaks that are kept lie within the bounds, and each is one of the
/// first `n` breaks.
pub proof fn lemma_kept(breaks: Seq<usize>, bounds: (usize, usize), n: int)
    requires
        0 <= n <= breaks.len(),
    ensures
        forall|k: int|
            0 <= k < kept(breaks, bounds, n).len() ==> bounds.0 <= #[trigger] kept(
                breaks,
                bounds,
                n,
            )[k] <= bounds.1 && breaks.take(n).contains(kept(breaks, bounds, n)[k]),
    decreases n,
{
    if n > 0 {
        lemma_kept(breaks, bounds, n - 1);
        let now = kept(breaks, bounds, n);
        assert forall|k: int| 0 <= k < now.len() implies breaks.take(n).contains(
            #[trigger] now[k],
        ) by {
            if k < kept(breaks, bounds, n - 1).len() {
                let j = choose|j: int|
                    0 <= j < breaks.take(n - 1).len() && #[trigger] breaks.take(n - 1)[j]
                        == now[k];
                assert(breaks.take(n)[j] == now[k]);
            } else {
                assert(breaks.take(n)[n - 1] == now[k]);
            }
        }
    }
}

/// The bounds of a word lie within it.
pub proof fn lemma_boundaries_within(word: Seq<char>, minima: (usize, usize))
    requires
        encode_utf8(word).len() <= usize::MAX,
    ensures
        boundaries_spec(word, minima) matches Some(bounds) ==> bounds.0 == char_offset(
            word,
            minima.0 as int,
        ) && bounds.1 == char_offset(word, right_margin_start(word.len() as int, minima.1))
            && bounds.0 <= encode_utf8(word).len() && bounds.1 <= encode_utf8(word).len(),
{
    if word.len() >= minima.0 + minima.1 {
        lemma_char_offset_bound(word, minima.0 as int);
        lemma_char_offset_bound(word, right_margin_start(word.len() as int, minima.1));
    }
}

/// No opportunity of a standard dictionary lies beyond the end of the word.
pub proof fn lemma_standard_within_word(dict: &Standard, word: Seq<char>)
    requires
        encode_utf8(word).len() <= usize::MAX,
    ensures
        forall|k: int|
            0 <= k < dict.found(word).len() ==> #[trigger] dict.found(word)[k] <= encode_utf8(
                word,
            ).len(),
{
    let bytes = encode_utf8(word);
    match boundaries_spec(word, dict.minima) {
        None => {},
        Some(bounds) => {
            lemma_boundaries_within(word, dict.minima);
            if dict.exceptions.0@.contains_key(word) {
                let known = dict.exceptions.0@[word]@;
                lemma_kept(known, bounds, known.len() as int);
            } else {
                lemma_breaks_below(
                    dict.score_of(bytes),
                    bytes,
                    bounds,
                    bytes.len() as int,
                );
            }
        },
    }
}

/// The values of an extended score, without the subregions.
pub open spec fn values_of<'h>(score: Seq<(u8, Option<&'h Subregion>)>) -> Seq<u8> {
    score.map_values(|v: (u8, Option<&'h Subregion>)| v.0)
}

/// The breaks that the patterns mark below offset `n`, in ascending order,
/// each with the subregion that the score holds for it.
pub open spec fn breaks_below_ext<'h>(
    score: Seq<(u8, Option<&'h Subregion>)>,
    bytes: Seq<u8>,
    bounds: (usize, usize),
    n: int,
) -> Seq<(usize, Option<&'h Subregion>)>
    decreases n,
{
    if n <= 1 {
        Seq::empty()
    } else if is_break(values_of(score), bytes, bounds, n - 1) {
        breaks_below_ext(score, bytes, bounds, n - 1).push(((n - 1) as usize, score[n - 2].1))
    } else {
        breaks_below_ext(score, bytes, bounds, n - 1)
    }
}

/// The break of an exception as an opportunity: with its subregion lent out.
pub open spec fn lent<'h>(exact: (usize, Option<Subregion>)) -> (usize, Option<&'h Subregion>) {
    (
        exact.0,
        match exact.1 {
            Some(region) => Some(&region),
            None => None,
        },
    )
}

/// Those of the first `n` breaks that lie within the bounds, in their order.
pub open spec fn kept_ext<'h>(
    breaks: Seq<(usize, Option<Subregion>)>,
    bounds: (usize, usize),
    n: int,
) -> Seq<(usize, Option<&'h Subregion>)>
    decreases n,
{
    if n <= 0 {
        Seq::empty()
    } else if bounds.0 <= breaks[n - 1].0 <= bounds.1 {
        kept_ext(breaks, bounds, n - 1).push(lent(breaks[n - 1]))
    } else {
        kept_ext(breaks, bounds, n - 1)
    }
}

/// The known hyphenations of an extended dictionary.
pub open spec fn extended_known(
    exceptions: Map<Seq<char>, Vec<(usize, Option<Subregion>)>>,
) -> Map<Seq<char>, Seq<(usize, Option<Subregion>)>> {
    Map::new(|w: Seq<char>| exceptions.contains_key(w), |w: Seq<char>| exceptions[w]@)
}

/// A copy of the subregion.
fn copy_subregion(region: &Subregion) -> (r: Subregion)
    ensures
        r == *region,
{
    Subregion {
        left: region.left,
        right: region.right,
        substitution: region.substitution.clone(),
        breakpoint: region.breakpoint,
    }
}

/// A copy of the breaks of an exception.
fn copy_exact(known: &Vec<(usize, Option<Subregion>)>) -> (r: Vec<(usize, Option<Subregion>)>)
    ensures
        r@ == known@,
{
    let mut r: Vec<(usize, Option<Subregion>)> = Vec::new();
    let mut n: usize = 0;
    while n < known.len()
        invariant
            n <= known.len(),
            r@ == known@.take(n as int),
        decreases known.len() - n,
    {
        let region = match &known[n].1 {
            Some(region) => Some(copy_subregion(region)),
            None => None,
        };
        r.push((known[n].0, region));
        n = n + 1;
        assert(r@ =~= known@.take(n as int));
    }
    assert(known@.take(known.len() as int) =~= known@);
    r
}

impl<'h> Hyphenator<'h> for Extended {
    type Opportunity = (usize, Option<&'h Subregion>);

    type Exact = (usize, Option<Subregion>);

    open spec fn usable(&self) -> bool {
        self.wf()
    }

    open spec fn margins(&self) -> (usize, usize) {
        self.minima
    }

    open spec fn known(&self) -> Map<Seq<char>, Seq<(usize, Option<Subregion>)>> {
        extended_known(self.exceptions.0@)
    }

    open spec fn by_pattern(&'h self, word: Seq<char>, bounds: (usize, usize)) -> Seq<
        (usize, Option<&'h Subregion>),
    > {
        breaks_below_ext(
            self.score_of(encode_utf8(word)),
            encode_utf8(word),
            bounds,
            encode_utf8(word).len() as int,
        )
    }

    open spec fn by_exception(&'h self, word: Seq<char>, bounds: (usize, usize)) -> Option<
        Seq<(usize, Option<&'h Subregion>)>,
    > {
        if self.exceptions.0@.contains_key(word) {
            Some(kept_ext(self.exceptions.0@[word]@, bounds, self.exceptions.0@[word]@.len() as int))
        } else {
            None
        }
    }

    open spec fn plain(i: usize) -> (usize, Option<&'h Subregion>) {
        (i, None)
    }

    open spec fn moved(o: (usize, Option<&'h Subregion>), shifts: Seq<Shift>) -> (
        usize,
        Option<&'h Subregion>,
    ) {
        (realign_spec(o.0, shifts) as usize, o.1)
    }

    open spec fn found(&'h self, word: Seq<char>) -> Seq<(usize, Option<&'h Subregion>)> {
        found_spec(
            boundaries_spec(word, self.margins()),
            |bounds: (usize, usize)| self.by_exception(word, bounds),
            |bounds: (usize, usize)| self.by_pattern(word, bounds),
        )
    }

    open spec fn hyphenated(&'h self, word: Seq<char>) -> Seq<(usize, Option<&'h Subregion>)> {
        hyphenated_spec(
            word,
            |i: usize| Self::plain(i),
            |w: Seq<char>| self.found(w),
            |o: (usize, Option<&'h Subregion>), shifts: Seq<Shift>| Self::moved(o, shifts),
        )
    }

    fn hyphenate<'t>(&'h self, word: &'t str) -> (r: Word<'t, (usize, Option<&'h Subregion>)>) {
        let breaks = match soft_hyphen_indices(word) {
            Some(ops) => {
                let ghost target = soft_hyphens(word@).map_values(|i: usize| Self::plain(i));
                let mut plain: Vec<(usize, Option<&'h Subregion>)> = Vec::new();
                let mut n: usize = 0;
                while n < ops.len()
                    invariant
                        n <= ops.len(),
                        ops@ == soft_hyphens(word@),
                        target == soft_hyphens(word@).map_values(|i: usize| Self::plain(i)),
                        plain@ == target.take(n as int),
                    decreases ops.len() - n,
                {
                    plain.push((ops[n], None));
                    n = n + 1;
                    assert(plain@ =~= target.take(n as int));
                }
                assert(target.take(ops.len() as int) =~= target);
                assert(target =~= self.hyphenated(word@));
                plain
            },
            None => {
                let prepared = prepare(word);
                let folded = borrowed(&prepared.word);
                let ops = self.opportunities(folded);
                assert(ops@ == self.found(folded@));
                let ghost shifts = prepared.shifts@;
                let ghost target = ops@.map_values(
                    |o: (usize, Option<&'h Subregion>)| Self::moved(o, shifts),
                );
                if !prepared.shifts.is_empty() {
                    let mut moved: Vec<(usize, Option<&'h Subregion>)> = Vec::new();
                    let mut n: usize = 0;
                    let length = folded.as_bytes().len();
                    proof {
                        lemma_extended_within_word(self, folded@);
                    }
                    while n < ops.len()
                        invariant
                            n <= ops.len(),
                            shifts == prepared.shifts@,
                            counts_down(shifts),
                            length + shifts.len() <= usize::MAX,
                            forall|k: int| 0 <= k < ops.len() ==> (#[trigger] ops[k]).0 <= length,
                            target == ops@.map_values(
                                |o: (usize, Option<&'h Subregion>)| Self::moved(o, shifts),
                            ),
                            moved@ == target.take(n as int),
                        decreases ops.len() - n,
                    {
                        proof {
                            lemma_shift_at_range(ops[n as int].0, shifts, shifts.len() as int);
                            assert(shifts.take(shifts.len() as int) =~= shifts);
                        }
                        let (i, subr) = ops[n];
                        moved.push((realign(i, prepared.shifts.as_slice()), subr));
                        n = n + 1;
                        assert(moved@ =~= target.take(n as int));
                    }
                    assert(target.take(ops.len() as int) =~= target);
                    assert(target =~= self.hyphenated(word@));
                    moved
                } else {
                    assert(ops@ =~= target);
                    assert(target =~= self.hyphenated(word@));
                    ops
                }
            },
        };
        Word { breaks, text: word }
    }

    fn opportunities_within(&'h self, word: &str, bounds: (usize, usize)) -> (r: Vec<
        (usize, Option<&'h Subregion>),
    >) {
        let (l, r) = bounds;
        let score = self.score(word);
        let length = word.as_bytes().len();
        let mut found: Vec<(usize, Option<&'h Subregion>)> = Vec::new();
        let mut i: usize = 1;
        while i < length
            invariant
                1 <= i,
                i <= length || i == 1,
                length == word.spec_bytes().len(),
                bounds == (l, r),
                score@ == self.score_of(word.spec_bytes()),
                found@ == breaks_below_ext(score@, word.spec_bytes(), bounds, i as int),
            decreases length - i,
        {
            if i - 1 < score.len() {
                let valid = Self::denotes_opportunity(score[i - 1]);
                let within_bounds = i >= l && i <= r;
                let legal_index = word.is_char_boundary(i);
                if valid && within_bounds && legal_index {
                    found.push((i, score[i - 1].1));
                }
            }
            i = i + 1;
        }
        assert(found@ == breaks_below_ext(score@, word.spec_bytes(), bounds, length as int));
        found
    }

    #[inline]
    fn exception_within(&'h self, w: &str, bounds: (usize, usize)) -> (r: Option<
        Vec<(usize, Option<&'h Subregion>)>,
    >) {
        let (l, r) = bounds;
        match self.exceptions.0.get(w) {
            None => None,
            Some(known) => {
                let mut within: Vec<(usize, Option<&'h Subregion>)> = Vec::new();
                let mut n: usize = 0;
                while n < known.len()
                    invariant
                        n <= known.len(),
                        bounds == (l, r),
                        within@ == kept_ext::<'h>(known@, bounds, n as int),
                    decreases known.len() - n,
                {
                    let i = known[n].0;
                    if i >= l && i <= r {
                        within.push((i, known[n].1.as_ref()));
                    }
                    n = n + 1;
                }
                Some(within)
            },
        }
    }

    fn add_exception(&mut self, w: String, ops: Vec<(usize, Option<Subregion>)>) -> (r: Option<
        Vec<(usize, Option<Subregion>)>,
    >) {
        let before = match self.exceptions.0.get(w.as_str()) {
            Some(known) => Some(copy_exact(known)),
            None => None,
        };
        let ghost word = w@;
        self.exceptions.0.insert(w, ops);
        assert(self.known() =~= old(self).known().insert(word, ops@));
        before
    }

    fn remove_exception(&mut self, w: &str) -> (r: Option<Vec<(usize, Option<Subregion>)>>) {
        let before = match self.exceptions.0.get(w) {
            Some(known) => Some(copy_exact(known)),
            None => None,
        };
        self.exceptions.0.remove(w);
        assert(self.known() =~= old(self).known().remove(w@));
        before
    }

    #[inline]
    fn unbreakable_chars(&self) -> (r: (usize, usize)) {
        self.minima
    }
}

/// The breaks that the patterns mark lie inside the word and within the
/// bounds, on character boundaries, and ascend.
pub proof fn lemma_breaks_below_ext<'h>(
    score: Seq<(u8, Option<&'h Subregion>)>,
    bytes: Seq<u8>,
    bounds: (usize, usize),
    n: int,
)
    requires
        n <= bytes.len() <= usize::MAX,
    ensures
        forall|k: int|
            0 <= k < breaks_below_ext(score, bytes, bounds, n).len() ==> is_break(
                values_of(score),
                bytes,
                bounds,
                (#[trigger] breaks_below_ext(score, bytes, bounds, n)[k]).0 as int,
            ) && breaks_below_ext(score, bytes, bounds, n)[k].0 < n,
        forall|j: int, k: int|
            0 <= j < k < breaks_below_ext(score, bytes, bounds, n).len() ==> (
            #[trigger] breaks_below_ext(score, bytes, bounds, n)[j]).0 < (
            #[trigger] breaks_below_ext(score, bytes, bounds, n)[k]).0,
    decreases n,
{
    if n > 1 {
        lemma_breaks_below_ext(score, bytes, bounds, n - 1);
        let before = breaks_below_ext(score, bytes, bounds, n - 1);
        let now = breaks_below_ext(score, bytes, bounds, n);
        assert forall|k: int| 0 <= k < now.len() implies is_break(
            values_of(score),
            bytes,
            bounds,
            (#[trigger] now[k]).0 as int,
        ) && now[k].0 < n by {
            if k < before.len() {
                assert(now[k] == before[k]);
            }
        }
        assert forall|j: int, k: int| 0 <= j < k < now.len() implies (#[trigger] now[j]).0 < (
        #[trigger] now[k]).0 by {
            assert(now[j] == before[j]);
            if k < before.len() {
                assert(now[k] == before[k]);
            }
        }
    }
}

/// The breaks that are kept lie within the bounds, and each is one of the
/// first `n` breaks.
pub proof fn lemma_kept_ext<'h>(
    breaks: Seq<(usize, Option<Subregion>)>,
    bounds: (usize, usize),
    n: int,
)
    requires
        0 <= n <= breaks.len(),
    ensures
        forall|k: int|
            0 <= k < kept_ext::<'h>(breaks, bounds, n).len() ==> bounds.0 <= (
            #[trigger] kept_ext::<'h>(breaks, bounds, n)[k]).0 <= bounds.1 && exists|j: int|
                0 <= j < n && lent::<'h>(#[trigger] breaks[j]) == kept_ext::<'h>(
                    breaks,
                    bounds,
                    n,
                )[k],
    decreases n,
{
    if n > 0 {
        lemma_kept_ext(breaks, bounds, n - 1);
        let before = kept_ext::<'h>(breaks, bounds, n - 1);
        let now = kept_ext::<'h>(breaks, bounds, n);
        assert forall|k: int| 0 <= k < now.len() implies bounds.0 <= (#[trigger] now[k]).0
            <= bounds.1 && exists|j: int|
            0 <= j < n && lent::<'h>(#[trigger] breaks[j]) == now[k] by {
            if k < before.len() {
                assert(now[k] == before[k]);
                let j = choose|j: int|
                    0 <= j < n - 1 && lent::<'h>(#[trigger] breaks[j]) == before[k];
                assert(lent::<'h>(breaks[j]) == now[k]);
            } else {
                assert(lent::<'h>(breaks[n - 1]) == now[k]);
            }
        }
    }
}

/// No opportunity of an extended dictionary lies beyond the end of the word.
pub proof fn lemma_extended_within_word<'h>(dict: &'h Extended, word: Seq<char>)
    requires
        encode_utf8(word).len() <= usize::MAX,
    ensures
        forall|k: int|
            0 <= k < dict.found(word).len() ==> (#[trigger] dict.found(word)[k]).0 <= encode_utf8(
                word,
            ).len(),
{
    let bytes = encode_utf8(word);
    match boundaries_spec(word, dict.minima) {
        None => {},
        Some(bounds) => {
            lemma_boundaries_within(word, dict.minima);
            if dict.exceptions.0@.contains_key(word) {
                let known = dict.exceptions.0@[word]@;
                lemma_kept_ext(known, bounds, known.len() as int);
            } else {
                lemma_breaks_below_ext(dict.score_of(bytes), bytes, bounds, bytes.len() as int);
            }
        },
    }
}

} // verus!
