//! Data structures and methods for parsing and applying Knuth-Liang
//! hyphenation patterns, kept as a trie of characters.

use crate::case_folding::{any_uppercase, has_uppercase, lowercase, to_lowercase};
use vstd::prelude::*;
use vstd::string::*;

verus! {

/// A pair representing a Knuth-Liang hyphenation pattern. It comprises
/// alphabetical characters for subword matching and the score of each
/// hyphenation point.
pub type KLPair = (String, Vec<u8>);

/// A basic trie, used to associate patterns to their hyphenation scores.
#[derive(Debug)]
pub struct Patterns {
    pub tally: Option<Vec<u8>>,
    pub descendants: Vec<(char, Patterns)>,
}

/// The index of the first among the first `n` descendants that stands under
/// the character.
pub open spec fn descendant_index(descendants: Seq<(char, Patterns)>, c: char, n: int) -> Option<
    int,
>
    decreases n,
{
    if n <= 0 {
        None
    } else {
        match descendant_index(descendants, c, n - 1) {
            Some(i) => Some(i),
            None => if descendants[n - 1].0 == c {
                Some(n - 1)
            } else {
                None
            },
        }
    }
}

/// The points with the values of a tally that matched at character `at` of
/// the dotted word laid over them: each of the first `n` values bears on the
/// position as many characters behind `at` as it stands in the tally, and the
/// greater value stays.
pub open spec fn laid_over(points: Seq<u8>, tally: Seq<u8>, at: int, n: int) -> Seq<u8>
    decreases n,
{
    if n <= 0 {
        points
    } else {
        let before = laid_over(points, tally, at, n - 1);
        let k = at + n - 1;
        if 2 <= k <= points.len() + 1 && tally[n - 1] > before[k - 2] {
            before.update(k - 2, tally[n - 1])
        } else {
            before
        }
    }
}

impl Patterns {
    /// The node under the character, if there is one.
    pub open spec fn descendant(&self, c: char) -> Option<Patterns> {
        match descendant_index(self.descendants@, c, self.descendants@.len() as int) {
            Some(i) => Some(self.descendants@[i].1),
            None => None,
        }
    }

    /// The tally of the pattern, if the trie holds it.
    pub open spec fn tally_of(&self, pattern: Seq<char>) -> Option<Vec<u8>>
        decreases pattern.len(),
    {
        if pattern.len() == 0 {
            self.tally
        } else {
            match self.descendant(pattern[0]) {
                Some(node) => node.tally_of(pattern.drop_first()),
                None => None,
            }
        }
    }

    /// The points after the patterns that start at character `at` of the
    /// dotted word and go on from this node with character `next`.
    pub open spec fn laid_along(&self, word: Seq<char>, at: int, next: int, points: Seq<u8>) -> Seq<
        u8,
    >
        decreases word.len() - next,
    {
        if next < 0 || next >= word.len() {
            points
        } else {
            match self.descendant(word[next]) {
                None => points,
                Some(node) => node.laid_along(
                    word,
                    at,
                    next + 1,
                    match node.tally {
                        Some(tally) => laid_over(points, tally@, at, tally@.len() as int),
                        None => points,
                    },
                ),
            }
        }
    }

    /// The points after the patterns that start at the first `n` characters
    /// of the dotted word.
    pub open spec fn laid_upto(&self, word: Seq<char>, n: int, points: Seq<u8>) -> Seq<u8>
        decreases n,
    {
        if n <= 0 {
            points
        } else {
            self.laid_along(word, n - 1, n - 1, self.laid_upto(word, n - 1, points))
        }
    }

    /// The score of a word: for each position between two of its characters
    /// the greatest value that a pattern matching somewhere in the lowercase
    /// word, set between two dots, gives to it. A word of one character has
    /// none.
    pub open spec fn score_of(&self, word: Seq<char>) -> Seq<u8> {
        let folded = if has_uppercase(word) {
            lowercase(word)
        } else {
            word
        };
        let dotted = seq!['.'] + folded + seq!['.'];
        if dotted.len() <= 3 {
            Seq::empty()
        } else {
            self.laid_upto(
                dotted,
                dotted.len() as int,
                Seq::new((dotted.len() - 3) as nat, |i: int| 0u8),
            )
        }
    }

    /// Creates an empty `Patterns` trie.
    pub fn empty() -> (r: Patterns)
        ensures
            r.tally is None,
            r.descendants@.len() == 0,
            forall|pattern: Seq<char>| (#[trigger] r.tally_of(pattern)) is None,
    {
        let r = Patterns { tally: None, descendants: Vec::new() };
        assert forall|pattern: Seq<char>| (#[trigger] r.tally_of(pattern)) is None by {
            if pattern.len() > 0 {
                assert(r.descendant(pattern[0]) is None);
            }
        }
        r
    }

    /// The index of the node under the character.
    fn find(&self, c: char) -> (r: Option<usize>)
        ensures
            r is Some <==> self.descendant(c) is Some,
            r matches Some(i) ==> i < self.descendants.len() && self.descendants@[i as int].0 == c
                && descendant_index(self.descendants@, c, self.descendants@.len() as int) == Some(
                i as int,
            ),
    {
        let mut n: usize = 0;
        while n < self.descendants.len()
            invariant
                n <= self.descendants.len(),
                descendant_index(self.descendants@, c, n as int) is None,
            decreases self.descendants.len() - n,
        {
            if self.descendants[n].0 == c {
                proof {
                    lemma_index_stays(self.descendants@, c, n + 1, self.descendants@.len() as int);
                }
                return Some(n);
            }
            n = n + 1;
        }
        None
    }

    /// Inserts a Knuth-Liang hyphenation pair into the trie.
    ///
    /// If the pattern already existed, the old tally is returned; if not,
    /// `None` is.
    pub fn insert(&mut self, klpair: KLPair) -> (r: Option<Vec<u8>>)
        ensures
            r == old(self).tally_of(klpair.0@),
            final(self).tally_of(klpair.0@) == Some(klpair.1),
            forall|pattern: Seq<char>|
                pattern != klpair.0@ ==> #[trigger] final(self).tally_of(pattern) == old(
                    self,
                ).tally_of(pattern),
    {
        let (p, tally) = klpair;
        let mut letters: Vec<char> = Vec::new();
        for c in it: p.as_str().chars()
            invariant
                it.seq() == p@,
                letters@ == p@.take(it.index() as int),
        {
            letters.push(c);
            assert(letters@ =~= p@.take(it.index() + 1));
        }
        assert(p@.take(p@.len() as int) =~= p@);
        assert(letters@.skip(0) =~= p@);
        self.insert_from(&letters, 0, tally)
    }

    /// Puts the tally under what is left of the letters from `from` on.
    fn insert_from(&mut self, letters: &Vec<char>, from: usize, tally: Vec<u8>) -> (r: Option<
        Vec<u8>,
    >)
        requires
            from <= letters.len(),
        ensures
            r == old(self).tally_of(letters@.skip(from as int)),
            final(self).tally_of(letters@.skip(from as int)) == Some(tally),
            forall|pattern: Seq<char>|
                pattern != letters@.skip(from as int) ==> #[trigger] final(self).tally_of(pattern)
                    == old(self).tally_of(pattern),
        decreases letters.len() - from,
    {
        let ghost rest = letters@.skip(from as int);
        if from == letters.len() {
            let before = self.tally.take();
            self.tally = Some(tally);
            assert forall|pattern: Seq<char>| pattern != rest implies #[trigger] self.tally_of(
                pattern,
            ) == old(self).tally_of(pattern) by {
                if pattern.len() == 0 {
                    assert(pattern =~= rest);
                } else {
                    assert(self.descendant(pattern[0]) == old(self).descendant(pattern[0]));
                }
            }
            return before;
        }
        let c = letters[from];
        let i = match self.find(c) {
            Some(i) => i,
            None => {
                let node = Patterns::empty();
                self.descendants.push((c, node));
                proof {
                    lemma_index_of_new(old(self).descendants@, (c, node));
                }
                self.descendants.len() - 1
            },
        };
        let ghost grown = self.descendants@;
        let ghost was: Patterns = grown[i as int].1;
        assert(rest.drop_first() =~= letters@.skip(from + 1));
        assert(rest[0] == c);
        assert(was.tally_of(rest.drop_first()) == old(self).tally_of(rest));
        let (_, mut node) = self.descendants.remove(i);
        let before = node.insert_from(letters, from + 1, tally);
        self.descendants.insert(i, (c, node));
        proof {
            assert(self.descendants@ =~= grown.update(i as int, (c, node)));
            assert forall|x: char|
                descendant_index(self.descendants@, x, self.descendants@.len() as int)
                    == descendant_index(grown, x, grown.len() as int) by {
                lemma_index_by_letters(self.descendants@, grown, x, grown.len() as int);
            }
            assert forall|x: char|
                x != c implies descendant_index(grown, x, grown.len() as int) == descendant_index(
                old(self).descendants@,
                x,
                old(self).descendants@.len() as int,
            ) && (#[trigger] self.descendant(x)) == old(self).descendant(x) by {
                let first = old(self).descendants@;
                lemma_index_by_letters(grown, first, x, first.len() as int);
                if grown.len() != first.len() {
                    assert(grown.len() == first.len() + 1);
                    assert(grown[first.len() as int].0 == c);
                }
                lemma_index_by_letters(self.descendants@, grown, x, grown.len() as int);
                match descendant_index(grown, x, grown.len() as int) {
                    Some(at) => {
                        assert(at != i);
                        assert(self.descendants@[at] == grown[at]);
                        assert(grown[at] == first[at]);
                    },
                    None => {},
                }
            }
            assert(self.descendant(c) == Some(node));
            assert forall|pattern: Seq<char>| pattern != rest implies #[trigger] self.tally_of(
                pattern,
            ) == old(self).tally_of(pattern) by {
                if pattern.len() > 0 {
                    if pattern[0] == c {
                        if pattern.drop_first() == rest.drop_first() {
                            assert(pattern =~= seq![c] + pattern.drop_first());
                            assert(rest =~= seq![c] + rest.drop_first());
                        }
                        assert(node.tally_of(pattern.drop_first()) == was.tally_of(
                            pattern.drop_first(),
                        ));
                        if old(self).descendant(c) is None {
                            assert(was.tally_of(pattern.drop_first()) is None);
                        }
                    } else {
                        assert(self.descendant(pattern[0]) == old(self).descendant(pattern[0]));
                    }
                }
            }
        }
        before
    }

    /// Assigns a score to each potential hyphenation point.
    ///
    /// All patterns matching a substring of `word` are compounded, and for
    /// each hyphenation point, the highest competing value is selected.
    pub fn score(&self, word: &str) -> (r: Vec<u8>)
        ensures
            r@ == self.score_of(word@),
    {
        let cs = if any_uppercase(word) {
            let lower = to_lowercase(word);
            dotted_letters(lower.as_str())
        } else {
            dotted_letters(word)
        };
        let match_length = cs.len();
        if match_length <= 3 {
            return Vec::new();
        }
        let hyphenable_length = match_length - 2;
        let mut points: Vec<u8> = Vec::new();
        while points.len() < hyphenable_length - 1
            invariant
                points@ == Seq::new(points.len() as nat, |i: int| 0u8),
                points.len() <= hyphenable_length - 1,
            decreases hyphenable_length - points.len(),
        {
            points.push(0u8);
            assert(points@ =~= Seq::new(points.len() as nat, |i: int| 0u8));
        }
        let ghost zero = points@;
        let mut i: usize = 0;
        while i < match_length
            invariant
                i <= match_length,
                match_length == cs.len(),
                hyphenable_length == match_length - 2,
                points.len() == hyphenable_length - 1,
                points@ == self.laid_upto(cs@, i as int, zero),
            decreases match_length - i,
        {
            let ghost start = points@;
            let mut node: &Patterns = self;
            let mut next = i;
            while next < match_length
                invariant
                    i <= next <= match_length,
                    match_length == cs.len(),
                    hyphenable_length == match_length - 2,
                    points.len() == hyphenable_length - 1,
                    self.laid_along(cs@, i as int, i as int, start) == node.laid_along(
                        cs@,
                        i as int,
                        next as int,
                        points@,
                    ),
                ensures
                    points.len() == hyphenable_length - 1,
                    points@ == self.laid_along(cs@, i as int, i as int, start),
                decreases match_length - next,
            {
                match node.find(cs[next]) {
                    None => {
                        break ;
                    },
                    Some(at) => {
                        let below = &node.descendants[at].1;
                        match &below.tally {
                            Some(t) => {
                                let ghost before = points@;
                                let mut j: usize = 0;
                                while j < t.len()
                                    invariant
                                        j <= t.len(),
                                        i < match_length,
                                        hyphenable_length == match_length - 2,
                                        points.len() == hyphenable_length - 1,
                                        before.len() == hyphenable_length - 1,
                                        points@ == laid_over(before, t@, i as int, j as int),
                                    decreases t.len() - j,
                                {
                                    if j <= hyphenable_length && i <= hyphenable_length - j {
                                        let k = i + j;
                                        if k > 1 && t[j] > points[k - 2] {
                                            points.set(k - 2, t[j]);
                                        }
                                    }
                                    j = j + 1;
                                }
                            },
                            None => {},
                        }
                        node = below;
                        next = next + 1;
                    },
                }
            }
            i = i + 1;
        }
        points
    }
}

/// The characters of the word between two dots.
fn dotted_letters(w: &str) -> (cs: Vec<char>)
    ensures
        cs@ == seq!['.'] + w@ + seq!['.'],
{
    let mut cs: Vec<char> = Vec::new();
    cs.push('.');
    for c in it: w.chars()
        invariant
            it.seq() == w@,
            cs@ == seq!['.'] + w@.take(it.index() as int),
    {
        cs.push(c);
        assert(cs@ =~= seq!['.'] + w@.take(it.index() + 1));
    }
    assert(w@.take(w@.len() as int) =~= w@);
    cs.push('.');
    cs
}

/// Once a descendant under the character is found, it stays the first.
proof fn lemma_index_stays(descendants: Seq<(char, Patterns)>, c: char, n: int, m: int)
    requires
        0 <= n <= m,
        descendant_index(descendants, c, n) is Some,
    ensures
        descendant_index(descendants, c, m) == descendant_index(descendants, c, n),
    decreases m - n,
{
    if n < m {
        lemma_index_stays(descendants, c, n, m - 1);
    }
}

/// Which descendant stands under a character depends on the characters of
/// the descendants alone.
proof fn lemma_index_by_letters(
    a: Seq<(char, Patterns)>,
    b: Seq<(char, Patterns)>,
    c: char,
    n: int,
)
    requires
        0 <= n <= a.len(),
        n <= b.len(),
        forall|i: int| 0 <= i < n ==> (#[trigger] a[i]).0 == b[i].0,
    ensures
        descendant_index(a, c, n) == descendant_index(b, c, n),
        descendant_index(a, c, n) matches Some(i) ==> 0 <= i < n && a[i].0 == c,
    decreases n,
{
    if n > 0 {
        lemma_index_by_letters(a, b, c, n - 1);
    }
}

/// A descendant that is added under a character that had none becomes the
/// descendant under it, and the others stay what they are.
proof fn lemma_index_of_new(descendants: Seq<(char, Patterns)>, added: (char, Patterns))
    requires
        descendant_index(descendants, added.0, descendants.len() as int) is None,
    ensures
        descendant_index(descendants.push(added), added.0, descendants.len() as int + 1) == Some(
            descendants.len() as int,
        ),
{
    lemma_index_by_letters(
        descendants.push(added),
        descendants,
        added.0,
        descendants.len() as int,
    );
}

} // verus!
