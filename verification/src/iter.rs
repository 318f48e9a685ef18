//! Hyphenating iterators over strings.

use crate::dictionary::extended::Subregion;
use crate::hyphenator::Word;
use crate::text::slice;
use std::borrow::Cow;
use vstd::prelude::*;
use vstd::string::*;
use vstd::utf8::*;

verus! {

/// The breaks ascend, lie within the bytes, and fall on character
/// boundaries; and the segments between them can be counted.
pub open spec fn valid_breaks(bytes: Seq<u8>, breaks: Seq<usize>) -> bool {
    &&& breaks.len() < usize::MAX
    &&& forall|k: int|
        0 <= k < breaks.len() ==> #[trigger] breaks[k] <= bytes.len() && is_char_boundary(
            bytes,
            breaks[k] as int,
        )
    &&& forall|j: int, k: int|
        0 <= j <= k < breaks.len() ==> #[trigger] breaks[j] <= #[trigger] breaks[k]
}

/// Where segment `k` starts: at the break before it, the first at 0.
pub open spec fn segment_start(breaks: Seq<usize>, k: int) -> int {
    if k <= 0 {
        0
    } else {
        breaks[k - 1] as int
    }
}

/// Where segment `k` ends: at its break, the last with the bytes.
pub open spec fn segment_end(bytes: Seq<u8>, breaks: Seq<usize>, k: int) -> int {
    if k >= breaks.len() {
        bytes.len() as int
    } else {
        breaks[k] as int
    }
}

/// The segments that the breaks cut the bytes into: one more than there are
/// breaks.
pub open spec fn segments_spec(bytes: Seq<u8>, breaks: Seq<usize>) -> Seq<Seq<u8>> {
    Seq::new(
        breaks.len() + 1,
        |k: int| bytes.subrange(segment_start(breaks, k), segment_end(bytes, breaks, k)),
    )
}

/// The segments, each but the last with the mark behind it.
pub open spec fn marked_spec(segments: Seq<Seq<u8>>, mark: Seq<u8>) -> Seq<Seq<u8>> {
    Seq::new(
        segments.len(),
        |k: int|
            if k < segments.len() - 1 {
                segments[k] + mark
            } else {
                segments[k]
            },
    )
}

/// The first `n` parts joined, in their order.
pub open spec fn joined_upto(parts: Seq<Seq<u8>>, n: int) -> Seq<u8>
    decreases n,
{
    if n <= 0 {
        Seq::empty()
    } else {
        joined_upto(parts, n - 1) + parts[n - 1]
    }
}

/// The parts joined, in their order.
pub open spec fn joined(parts: Seq<Seq<u8>>) -> Seq<u8> {
    joined_upto(parts, parts.len() as int)
}

/// A source of the segments of a word, which knows how many are left.
pub trait SegmentSource {
    /// The source can be asked for its next segment.
    spec fn sound(&self) -> bool;

    /// The segments that are left, as UTF-8.
    spec fn pending(&self) -> Seq<Seq<u8>>;

    /// The next segment as a string of its own, if one is left.
    fn next_owned(&mut self) -> (r: Option<String>)
        requires
            old(self).sound(),
        ensures
            final(self).sound(),
            old(self).pending().len() == 0 ==> r is None && final(self).pending().len() == 0,
            old(self).pending().len() > 0 ==> r is Some && encode_utf8(r->0@) == old(
                self,
            ).pending()[0] && final(self).pending() == old(self).pending().drop_first(),
    ;

    /// The number of segments that are left.
    fn pending_len(&self) -> (n: usize)
        requires
            self.sound(),
        ensures
            n == self.pending().len(),
    ;
}

/// A hyphenating iterator that breaks text into segments delimited by word
/// breaks, and marks them with a hyphen where appropriate.
///
/// Such segments generally coincide with orthographic syllables, albeit
/// within the limited accuracy of Knuth-Liang hyphenation.
#[derive(Clone, Debug)]
pub struct Hyphenating<'m, I> {
    inner: I,
    mark: &'m str,
}

impl<'m, I> Hyphenating<'m, I> {
    /// The source of the segments.
    pub closed spec fn inner(&self) -> I {
        self.inner
    }

    /// The mark that is set behind each segment but the last.
    pub closed spec fn mark(&self) -> Seq<char> {
        self.mark@
    }

    /// Turn into an iterator that yields word segments only, without inserting
    /// a hyphen or other mark before breaks.
    pub fn segments(self) -> (r: I)
        ensures
            r == self.inner(),
    {
        self.inner
    }

    /// Set the mark that will be inserted before word breaks.
    pub fn mark_with(&mut self, mark: &'m str)
        ensures
            final(self).mark() == mark@,
            final(self).inner() == old(self).inner(),
    {
        self.mark = mark;
    }

    /// Build a hyphenating iterator from an iterator over string segments.
    pub fn new(iter: I) -> (r: Self)
        ensures
            r.inner() == iter,
            r.mark() == seq!['-'],
    {
        proof {
            reveal_strlit("-");
            assert("-"@ =~= seq!['-']);
        }
        Hyphenating { inner: iter, mark: "-" }
    }
}

impl<'m, I: SegmentSource> Hyphenating<'m, I> {
    /// The marked segments that are left, as UTF-8.
    pub open spec fn pending(&self) -> Seq<Seq<u8>> {
        marked_spec(self.inner().pending(), encode_utf8(self.mark()))
    }

    /// The next segment, with the mark behind it unless it is the last.
    pub fn next(&mut self) -> (r: Option<String>)
        requires
            old(self).inner().sound(),
        ensures
            final(self).inner().sound(),
            final(self).mark() == old(self).mark(),
            old(self).pending().len() == 0 ==> r is None && final(self).pending().len() == 0,
            old(self).pending().len() > 0 ==> r is Some && encode_utf8(r->0@) == old(
                self,
            ).pending()[0] && final(self).pending() == old(self).pending().drop_first(),
    {
        let ghost before = self.inner.pending();
        match self.inner.next_owned() {
            None => None,
            Some(segment) => {
                assert(self.pending() =~= old(self).pending().drop_first());
                if self.inner.pending_len() > 0 {
                    let mut marked = segment;
                    proof {
                        crate::text::lemma_encode_concat(marked@, self.mark@);
                    }
                    marked.append(self.mark);
                    Some(marked)
                } else {
                    Some(segment)
                }
            },
        }
    }

    /// The number of segments that are left, as the least and the greatest
    /// number that may come.
    pub fn size_hint(&self) -> (r: (usize, Option<usize>))
        requires
            self.inner().sound(),
        ensures
            r.0 == self.pending().len(),
            r.1 == Some(r.0),
    {
        let n = self.inner.pending_len();
        (n, Some(n))
    }

    /// The number of segments that are left.
    pub fn len(&self) -> (n: usize)
        requires
            self.inner().sound(),
        ensures
            n == self.pending().len(),
    {
        self.inner.pending_len()
    }

    /// All the segments that are left, each with the mark behind it but the
    /// last.
    pub fn collect(self) -> (r: Vec<String>)
        requires
            self.inner().sound(),
        ensures
            r.len() == self.pending().len(),
            forall|k: int| 0 <= k < r.len() ==> encode_utf8(#[trigger] r[k]@) == self.pending()[k],
    {
        let mut this = self;
        let mut r: Vec<String> = Vec::new();
        let ghost all = this.pending();
        loop
            invariant
                this.inner().sound(),
                r.len() <= all.len(),
                this.pending() == all.skip(r.len() as int),
                forall|k: int| 0 <= k < r.len() ==> encode_utf8(#[trigger] r[k]@) == all[k],
            ensures
                r.len() == all.len(),
                forall|k: int| 0 <= k < r.len() ==> encode_utf8(#[trigger] r[k]@) == all[k],
            decreases all.len() - r.len(),
        {
            match this.next() {
                None => {
                    break ;
                },
                Some(segment) => {
                    assert(all.skip(r.len() as int).drop_first() =~= all.skip(r.len() + 1));
                    r.push(segment);
                },
            }
        }
        r
    }
}

/// A hyphenating iterator with borrowed data.
pub trait Iter<'t> {
    type Iter;

    /// The iterator is ready and holds the segments of the word.
    spec fn ready(&self, iter: Hyphenating<'t, Self::Iter>) -> bool;

    /// The breaks can be used to cut the text.
    spec fn cuttable(&self) -> bool;

    /// The marked segments of the word, the mark being a hyphen.
    fn iter(&'t self) -> (r: Hyphenating<'t, Self::Iter>)
        requires
            self.cuttable(),
        ensures
            self.ready(r),
    ;
}

impl<'t> Word<'t, usize> {
    /// The breaks ascend, lie within the text, and fall on character
    /// boundaries.
    pub open spec fn valid(&self) -> bool {
        valid_breaks(self.text.spec_bytes(), self.breaks@)
    }

    /// The segments of the word, as UTF-8.
    pub open spec fn segments(&self) -> Seq<Seq<u8>> {
        segments_spec(self.text.spec_bytes(), self.breaks@)
    }

    /// Whether the breaks ascend, lie within the text, and fall on character
    /// boundaries, so that the text can be cut at them.
    pub fn is_valid(&self) -> (r: bool)
        ensures
            r == self.valid(),
    {
        let length = self.text.as_bytes().len();
        let mut last: usize = 0;
        let mut n: usize = 0;
        if self.breaks.len() == usize::MAX {
            return false;
        }
        while n < self.breaks.len()
            invariant
                n <= self.breaks.len(),
                self.breaks.len() < usize::MAX,
                length == self.text.spec_bytes().len(),
                n > 0 ==> last == self.breaks[n - 1],
                n == 0 ==> last == 0,
                valid_breaks(self.text.spec_bytes(), self.breaks@.take(n as int)),
            decreases self.breaks.len() - n,
        {
            let at = self.breaks[n];
            if at > length || at < last || !self.text.is_char_boundary(at) {
                proof {
                    if self.valid() {
                        if n > 0 {
                            assert(self.breaks@[n - 1] <= self.breaks@[n as int]);
                        }
                    }
                }
                return false;
            }
            proof {
                let now = self.breaks@.take(n + 1);
                let was = self.breaks@.take(n as int);
                assert forall|j: int, k: int| 0 <= j <= k < now.len() implies #[trigger] now[j]
                    <= #[trigger] now[k] by {
                    if k < n {
                        assert(was[j] <= was[k]);
                    } else if j < n {
                        if n > 0 {
                            assert(was[j] <= was[n - 1]);
                        }
                    }
                }
                assert forall|k: int| 0 <= k < now.len() implies #[trigger] now[k]
                    <= self.text.spec_bytes().len() && is_char_boundary(
                    self.text.spec_bytes(),
                    now[k] as int,
                ) by {
                    if k < n {
                        assert(was[k] == now[k]);
                    }
                }
            }
            last = at;
            n = n + 1;
        }
        assert(self.breaks@.take(self.breaks.len() as int) =~= self.breaks@);
        true
    }

    /// The marked segments of the word, the mark being a hyphen; the word is
    /// given up.
    pub fn into_iter(self) -> (r: Hyphenating<'t, Segments<'t>>)
        requires
            self.valid(),
        ensures
            r.inner().sound(),
            r.inner().pending() == self.segments(),
            r.mark() == seq!['-'],
    {
        Hyphenating::new(Segments::new(self.text, self.breaks))
    }
}

impl<'t> Iter<'t> for Word<'t, usize> {
    type Iter = Segments<'t>;

    open spec fn ready(&self, iter: Hyphenating<'t, Segments<'t>>) -> bool {
        &&& iter.inner().sound()
        &&& iter.inner().pending() == self.segments()
        &&& iter.mark() == seq!['-']
    }

    open spec fn cuttable(&self) -> bool {
        self.valid()
    }

    fn iter(&'t self) -> (r: Hyphenating<'t, Segments<'t>>) {
        Hyphenating::new(Segments::new(self.text, self.breaks.clone()))
    }
}

/// An iterator over borrowed slices delimited by Standard hyphenation
/// opportunities.
#[derive(Clone, Debug)]
pub struct Segments<'t> {
    text: &'t str,
    breaks: Vec<usize>,
    taken: usize,
    start: Option<usize>,
}

impl<'t> Segments<'t> {
    /// The breaks can be used to cut the text, and the iterator stands where
    /// its next segment starts.
    pub closed spec fn wf(&self) -> bool {
        &&& valid_breaks(self.text.spec_bytes(), self.breaks@)
        &&& self.taken <= self.breaks.len()
        &&& self.start is Some ==> self.start->0 == segment_start(self.breaks@, self.taken as int)
        &&& self.start is None ==> self.taken == self.breaks.len()
    }

    /// The segments that are left, as UTF-8.
    pub closed spec fn remaining(&self) -> Seq<Seq<u8>> {
        if self.start is Some {
            segments_spec(self.text.spec_bytes(), self.breaks@).skip(self.taken as int)
        } else {
            Seq::empty()
        }
    }

    /// The segments that the breaks cut the text into.
    pub fn new(text: &'t str, breaks: Vec<usize>) -> (r: Self)
        requires
            valid_breaks(text.spec_bytes(), breaks@),
        ensures
            r.wf(),
            r.remaining() == segments_spec(text.spec_bytes(), breaks@),
    {
        let r = Segments { text, breaks, taken: 0, start: Some(0) };
        assert(segments_spec(text.spec_bytes(), breaks@).skip(0) =~= segments_spec(
            text.spec_bytes(),
            breaks@,
        ));
        r
    }

    /// The next segment of the text, if one is left.
    pub fn next(&mut self) -> (r: Option<&'t str>)
        requires
            old(self).wf(),
        ensures
            final(self).wf(),
            old(self).remaining().len() == 0 ==> r is None && final(self).remaining().len() == 0,
            old(self).remaining().len() > 0 ==> r is Some && r->0.spec_bytes() == old(
                self,
            ).remaining()[0] && final(self).remaining() == old(self).remaining().drop_first(),
    {
        let ghost bytes = self.text.spec_bytes();
        let ghost all = segments_spec(bytes, self.breaks@);
        proof {
            encode_utf8_valid_utf8(self.text@);
            is_char_boundary_start_end_of_seq(bytes);
        }
        if self.taken < self.breaks.len() {
            let index = self.breaks[self.taken];
            proof {
                if self.taken > 0 {
                    assert(self.breaks@[self.taken - 1] <= self.breaks@[self.taken as int]);
                }
            }
            let start = self.start.unwrap();
            let segment = slice(self.text, start, index);
            self.taken = self.taken + 1;
            self.start = Some(index);
            assert(all.skip(self.taken - 1).drop_first() =~= all.skip(self.taken as int));
            Some(segment)
        } else {
            match self.start.take() {
                None => None,
                Some(start) => {
                    let length = self.text.as_bytes().len();
                    let segment = slice(self.text, start, length);
                    assert(all.skip(self.taken as int).drop_first() =~= Seq::<Seq<u8>>::empty());
                    Some(segment)
                },
            }
        }
    }

    /// The number of segments that are left, as the least and the greatest
    /// number that may come.
    #[inline]
    pub fn size_hint(&self) -> (r: (usize, Option<usize>))
        requires
            self.wf(),
        ensures
            r.0 == self.remaining().len(),
            r.1 == Some(r.0),
    {
        let n = self.len();
        (n, Some(n))
    }

    /// The number of segments that are left.
    pub fn len(&self) -> (n: usize)
        requires
            self.wf(),
        ensures
            n == self.remaining().len(),
    {
        let left = self.breaks.len() - self.taken;
        match self.start {
            Some(_) => left + 1,
            None => 0,
        }
    }

    /// All the segments that are left.
    pub fn collect(self) -> (r: Vec<&'t str>)
        requires
            self.wf(),
        ensures
            r.len() == self.remaining().len(),
            forall|k: int|
                0 <= k < r.len() ==> (#[trigger] r[k]).spec_bytes() == self.remaining()[k],
    {
        let mut this = self;
        let mut r: Vec<&'t str> = Vec::new();
        let ghost all = this.remaining();
        loop
            invariant
                this.wf(),
                r.len() <= all.len(),
                this.remaining() == all.skip(r.len() as int),
                forall|k: int| 0 <= k < r.len() ==> (#[trigger] r[k]).spec_bytes() == all[k],
            ensures
                r.len() == all.len(),
                forall|k: int| 0 <= k < r.len() ==> (#[trigger] r[k]).spec_bytes() == all[k],
            decreases all.len() - r.len(),
        {
            match this.next() {
                None => {
                    break ;
                },
                Some(segment) => {
                    assert(all.skip(r.len() as int).drop_first() =~= all.skip(r.len() + 1));
                    r.push(segment);
                },
            }
        }
        r
    }
}

impl<'t> SegmentSource for Segments<'t> {
    open spec fn sound(&self) -> bool {
        self.wf()
    }

    open spec fn pending(&self) -> Seq<Seq<u8>> {
        self.remaining()
    }

    fn next_owned(&mut self) -> (r: Option<String>) {
        match self.next() {
            None => None,
            Some(segment) => Some(segment.to_owned()),
        }
    }

    fn pending_len(&self) -> (n: usize) {
        self.len()
    }
}

/// What is held back for the next segment: the number of bytes of the text
/// that it leaves out at its start, and what it starts with in their place.
pub type Queued = Option<(usize, Seq<u8>)>;

/// Where the next segment starts in the text: behind the bytes that the
/// substitution before it stands for.
pub open spec fn cut_from(start: int, queued: Queued) -> int {
    match queued {
        None => start,
        Some((skip, _)) => start + skip,
    }
}

/// What the next segment starts with, before any of the text.
pub open spec fn cut_fore(queued: Queued) -> Seq<u8> {
    match queued {
        None => Seq::empty(),
        Some((_, tail)) => tail,
    }
}

/// The text can be cut for a segment that ends at `end`.
pub open spec fn cut_ok(bytes: Seq<u8>, start: int, queued: Queued, end: int) -> bool {
    &&& 0 <= start <= cut_from(start, queued) <= end <= bytes.len()
    &&& is_char_boundary(bytes, cut_from(start, queued))
    &&& is_char_boundary(bytes, end)
}

/// The substitution of the subregion can be split at its breakpoint.
pub open spec fn region_ok(region: &Subregion) -> bool {
    &&& region.breakpoint <= encode_utf8(region.substitution@).len()
    &&& is_char_boundary(encode_utf8(region.substitution@), region.breakpoint as int)
}

/// A segment without a subregion at its end: the text from where it starts to
/// `end`, behind what was held back for it.
pub open spec fn plain_segment(bytes: Seq<u8>, start: int, queued: Queued, end: int) -> Seq<u8> {
    cut_fore(queued) + bytes.subrange(cut_from(start, queued), end)
}

/// A segment with a subregion at its end: the text up to the bytes that the
/// substitution replaces, then the substitution up to its breakpoint.
pub open spec fn region_segment(
    bytes: Seq<u8>,
    start: int,
    queued: Queued,
    index: int,
    region: &Subregion,
) -> Seq<u8> {
    plain_segment(bytes, start, queued, index - region.left) + encode_utf8(
        region.substitution@,
    ).subrange(0, region.breakpoint as int)
}

/// What a subregion holds back for the segment behind it: the rest of its
/// substitution, if there is any, in place of the bytes that it replaces
/// behind the break.
pub open spec fn region_queue(region: &Subregion) -> Queued {
    let substitution = encode_utf8(region.substitution@);
    if region.breakpoint < substitution.len() {
        Some(
            (
                region.right,
                substitution.subrange(region.breakpoint as int, substitution.len() as int),
            ),
        )
    } else {
        None
    }
}

/// The text can be cut at the breaks from break `k` on.
pub open spec fn ext_valid<'t>(
    bytes: Seq<u8>,
    breaks: Seq<(usize, Option<&'t Subregion>)>,
    k: int,
    start: int,
    queued: Queued,
) -> bool
    decreases breaks.len() - k,
{
    if k < 0 || k >= breaks.len() {
        cut_ok(bytes, start, queued, bytes.len() as int)
    } else {
        let index = breaks[k].0 as int;
        match breaks[k].1 {
            None => cut_ok(bytes, start, queued, index) && ext_valid(
                bytes,
                breaks,
                k + 1,
                index,
                None,
            ),
            Some(region) => region_ok(region) && cut_ok(bytes, start, queued, index - region.left)
                && ext_valid(bytes, breaks, k + 1, index, region_queue(region)),
        }
    }
}

/// The segments from break `k` on, as UTF-8.
pub open spec fn ext_segments<'t>(
    bytes: Seq<u8>,
    breaks: Seq<(usize, Option<&'t Subregion>)>,
    k: int,
    start: int,
    queued: Queued,
) -> Seq<Seq<u8>>
    decreases breaks.len() - k,
{
    if k < 0 || k >= breaks.len() {
        seq![plain_segment(bytes, start, queued, bytes.len() as int)]
    } else {
        let index = breaks[k].0 as int;
        match breaks[k].1 {
            None => seq![plain_segment(bytes, start, queued, index)] + ext_segments(
                bytes,
                breaks,
                k + 1,
                index,
                None,
            ),
            Some(region) => seq![region_segment(bytes, start, queued, index, region)]
                + ext_segments(bytes, breaks, k + 1, index, region_queue(region)),
        }
    }
}

/// There is one segment more than there are breaks.
pub proof fn lemma_ext_segments_len<'t>(
    bytes: Seq<u8>,
    breaks: Seq<(usize, Option<&'t Subregion>)>,
    k: int,
    start: int,
    queued: Queued,
)
    requires
        0 <= k <= breaks.len(),
    ensures
        ext_segments(bytes, breaks, k, start, queued).len() == breaks.len() - k + 1,
    decreases breaks.len() - k,
{
    if k < breaks.len() {
        let index = breaks[k].0 as int;
        match breaks[k].1 {
            None => lemma_ext_segments_len(bytes, breaks, k + 1, index, None),
            Some(region) => lemma_ext_segments_len(
                bytes,
                breaks,
                k + 1,
                index,
                region_queue(region),
            ),
        }
    }
}

/// An iterator over string segments delimited by Extended hyphenation
/// opportunities. A segment may be borrowed or owned, depending on whether
/// the break requires changes to neighboring letters.
#[derive(Clone, Debug)]
pub struct SegmentsExt<'t> {
    text: &'t str,
    breaks: Vec<(usize, Option<&'t Subregion>)>,
    taken: usize,
    start: Option<usize>,
    queued: Option<(usize, &'t str)>,
}

impl<'t> SegmentsExt<'t> {
    /// What is held back for the next segment.
    pub closed spec fn held(&self) -> Queued {
        match self.queued {
            None => None,
            Some((skip, tail)) => Some((skip, tail.spec_bytes())),
        }
    }

    /// The text can be cut at the breaks that are left.
    pub closed spec fn wf(&self) -> bool {
        &&& self.breaks.len() < usize::MAX
        &&& self.taken <= self.breaks.len()
        &&& self.start is Some ==> ext_valid(
            self.text.spec_bytes(),
            self.breaks@,
            self.taken as int,
            self.start->0 as int,
            self.held(),
        )
        &&& self.start is None ==> self.taken == self.breaks.len()
    }

    /// The segments that are left, as UTF-8.
    pub closed spec fn remaining(&self) -> Seq<Seq<u8>> {
        if self.start is Some {
            ext_segments(
                self.text.spec_bytes(),
                self.breaks@,
                self.taken as int,
                self.start->0 as int,
                self.held(),
            )
        } else {
            Seq::empty()
        }
    }

    /// The segments that the breaks cut the text into, with the letters
    /// around each break as its subregion gives them.
    pub fn new(text: &'t str, breaks: Vec<(usize, Option<&'t Subregion>)>) -> (r: Self)
        requires
            breaks.len() < usize::MAX,
            ext_valid(text.spec_bytes(), breaks@, 0, 0, None),
        ensures
            r.wf(),
            r.remaining() == ext_segments(text.spec_bytes(), breaks@, 0, 0, None),
    {
        SegmentsExt { text, breaks, taken: 0, start: Some(0), queued: None }
    }

    /// The text from `start` to `end`, behind what was held back for it.
    fn substitute(&mut self, start: usize, end: usize) -> (r: Cow<'t, str>)
        requires
            cut_ok(old(self).text.spec_bytes(), start as int, old(self).held(), end as int),
        ensures
            encode_utf8(r@) == plain_segment(
                old(self).text.spec_bytes(),
                start as int,
                old(self).held(),
                end as int,
            ),
            final(self).text == old(self).text,
            final(self).breaks == old(self).breaks,
            final(self).taken == old(self).taken,
            final(self).start == old(self).start,
            final(self).queued is None,
    {
        match self.queued.take() {
            None => {
                let piece = slice(self.text, start, end);
                assert(Seq::<u8>::empty() + piece.spec_bytes() =~= piece.spec_bytes());
                Cow::Borrowed(piece)
            },
            Some((skip, subst)) => {
                let piece = slice(self.text, start + skip, end);
                let mut owned = subst.to_owned();
                proof {
                    crate::text::lemma_encode_concat(owned@, piece@);
                }
                owned.append(piece);
                Cow::Owned(owned)
            },
        }
    }

    /// The next segment, if one is left.
    pub fn next(&mut self) -> (r: Option<Cow<'t, str>>)
        requires
            old(self).wf(),
        ensures
            final(self).wf(),
            old(self).remaining().len() == 0 ==> r is None && final(self).remaining().len() == 0,
            old(self).remaining().len() > 0 ==> r is Some && encode_utf8(r->0@) == old(
                self,
            ).remaining()[0] && final(self).remaining() == old(self).remaining().drop_first(),
    {
        let ghost bytes = self.text.spec_bytes();
        let ghost before = self.remaining();
        if self.taken < self.breaks.len() {
            let (index, region) = self.breaks[self.taken];
            let start = self.start.unwrap();
            match region {
                None => {
                    let segment = self.substitute(start, index);
                    self.start = Some(index);
                    self.taken = self.taken + 1;
                    assert(before.drop_first() =~= self.remaining());
                    Some(segment)
                },
                Some(subr) => {
                    let fore = self.substitute(start, index - subr.left);
                    let (subst, queued) = subr.substitution.as_str().split_at(subr.breakpoint);
                    if queued.as_bytes().len() > 0 {
                        self.queued = Some((subr.right, queued));
                    }
                    let mut segment = match fore {
                        Cow::Borrowed(b) => b.to_owned(),
                        Cow::Owned(o) => o,
                    };
                    proof {
                        crate::text::lemma_encode_concat(segment@, subst@);
                    }
                    segment.append(subst);
                    self.start = Some(index);
                    self.taken = self.taken + 1;
                    assert(before.drop_first() =~= self.remaining());
                    Some(Cow::Owned(segment))
                },
            }
        } else {
            match self.start {
                None => None,
                Some(start) => {
                    let length = self.text.as_bytes().len();
                    let segment = self.substitute(start, length);
                    self.start = None;
                    assert(before.drop_first() =~= self.remaining());
                    Some(segment)
                },
            }
        }
    }

    /// The number of segments that are left, as the least and the greatest
    /// number that may come.
    #[inline]
    pub fn size_hint(&self) -> (r: (usize, Option<usize>))
        requires
            self.wf(),
        ensures
            r.0 == self.remaining().len(),
            r.1 == Some(r.0),
    {
        let n = self.len();
        (n, Some(n))
    }

    /// The number of segments that are left.
    pub fn len(&self) -> (n: usize)
        requires
            self.wf(),
        ensures
            n == self.remaining().len(),
    {
        let left = self.breaks.len() - self.taken;
        match self.start {
            Some(start) => {
                proof {
                    lemma_ext_segments_len(
                        self.text.spec_bytes(),
                        self.breaks@,
                        self.taken as int,
                        start as int,
                        self.held(),
                    );
                }
                left + 1
            },
            None => 0,
        }
    }

    /// All the segments that are left.
    pub fn collect(self) -> (r: Vec<Cow<'t, str>>)
        requires
            self.wf(),
        ensures
            r.len() == self.remaining().len(),
            forall|k: int| 0 <= k < r.len() ==> encode_utf8(#[trigger] r[k]@) == self.remaining()[k],
    {
        let mut this = self;
        let mut r: Vec<Cow<'t, str>> = Vec::new();
        let ghost all = this.remaining();
        loop
            invariant
                this.wf(),
                r.len() <= all.len(),
                this.remaining() == all.skip(r.len() as int),
                forall|k: int| 0 <= k < r.len() ==> encode_utf8(#[trigger] r[k]@) == all[k],
            ensures
                r.len() == all.len(),
                forall|k: int| 0 <= k < r.len() ==> encode_utf8(#[trigger] r[k]@) == all[k],
            decreases all.len() - r.len(),
        {
            match this.next() {
                None => {
                    break ;
                },
                Some(segment) => {
                    assert(all.skip(r.len() as int).drop_first() =~= all.skip(r.len() + 1));
                    r.push(segment);
                },
            }
        }
        r
    }
}

impl<'t> SegmentSource for SegmentsExt<'t> {
    open spec fn sound(&self) -> bool {
        self.wf()
    }

    open spec fn pending(&self) -> Seq<Seq<u8>> {
        self.remaining()
    }

    fn next_owned(&mut self) -> (r: Option<String>) {
        match self.next() {
            None => None,
            Some(Cow::Borrowed(segment)) => Some(segment.to_owned()),
            Some(Cow::Owned(segment)) => Some(segment),
        }
    }

    fn pending_len(&self) -> (n: usize) {
        self.len()
    }
}

impl<'t> Word<'t, (usize, Option<&'t Subregion>)> {
    /// The text can be cut at the breaks, each with its subregion.
    pub open spec fn valid_ext(&self) -> bool {
        &&& self.breaks.len() < usize::MAX
        &&& ext_valid(self.text.spec_bytes(), self.breaks@, 0, 0, None)
    }

    /// The segments of the word, as UTF-8.
    pub open spec fn segments_ext(&self) -> Seq<Seq<u8>> {
        ext_segments(self.text.spec_bytes(), self.breaks@, 0, 0, None)
    }

    /// Whether the text can be cut at the breaks, each with its subregion.
    pub fn is_valid(&self) -> (r: bool)
        ensures
            r == self.valid_ext(),
    {
        if self.breaks.len() == usize::MAX {
            return false;
        }
        let length = self.text.as_bytes().len();
        let ghost bytes = self.text.spec_bytes();
        let mut start: usize = 0;
        let mut skip: Option<usize> = None;
        let ghost mut queued: Queued = None;
        let mut k: usize = 0;
        while k < self.breaks.len()
            invariant
                k <= self.breaks.len(),
                length == bytes.len(),
                bytes == self.text.spec_bytes(),
                skip is Some <==> queued is Some,
                skip matches Some(n) ==> cut_from(0, queued) == n,
                ext_valid(bytes, self.breaks@, 0, 0, None) == ext_valid(
                    bytes,
                    self.breaks@,
                    k as int,
                    start as int,
                    queued,
                ),
            decreases self.breaks.len() - k,
        {
            let (index, region) = self.breaks[k];
            let end = match region {
                None => index,
                Some(region) => {
                    let substitution = region.substitution.as_str();
                    if region.breakpoint > substitution.as_bytes().len()
                        || !substitution.is_char_boundary(region.breakpoint) || region.left
                        > index {
                        return false;
                    }
                    index - region.left
                },
            };
            if !self.can_cut(start, skip, end, Ghost(queued)) {
                return false;
            }
            start = index;
            match region {
                None => {
                    skip = None;
                    proof {
                        queued = None;
                    }
                },
                Some(region) => {
                    if region.breakpoint < region.substitution.as_str().as_bytes().len() {
                        skip = Some(region.right);
                    } else {
                        skip = None;
                    }
                    proof {
                        queued = region_queue(region);
                    }
                },
            }
            k = k + 1;
        }
        self.can_cut(start, skip, length, Ghost(queued))
    }

    /// Whether the text can be cut for a segment that ends at `end`.
    fn can_cut(&self, start: usize, skip: Option<usize>, end: usize, Ghost(queued): Ghost<Queued>) -> (r:
        bool)
        requires
            skip is Some <==> queued is Some,
            skip matches Some(n) ==> cut_from(0, queued) == n,
        ensures
            r == cut_ok(self.text.spec_bytes(), start as int, queued, end as int),
    {
        let length = self.text.as_bytes().len();
        let from = match skip {
            None => start,
            Some(skip) => match start.checked_add(skip) {
                Some(from) => from,
                None => {
                    return false;
                },
            },
        };
        from <= end && end <= length && self.text.is_char_boundary(from)
            && self.text.is_char_boundary(end)
    }

    /// The marked segments of the word, the mark being a hyphen; the word is
    /// given up.
    pub fn into_iter(self) -> (r: Hyphenating<'t, SegmentsExt<'t>>)
        requires
            self.valid_ext(),
        ensures
            r.inner().sound(),
            r.inner().pending() == self.segments_ext(),
            r.mark() == seq!['-'],
    {
        Hyphenating::new(SegmentsExt::new(self.text, self.breaks))
    }
}

} // verus!
