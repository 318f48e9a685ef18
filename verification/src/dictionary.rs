//! Data structures for the storage of hyphenation patterns and exceptions.

pub mod extended;
pub mod trie;

use crate::dictionary::trie::{
    bytes_lt, pair_keys, pairs_map, prefix_ids, strictly_ascending, PrefixMatches, Trie, TrieError,
};
use crate::case_folding::{lowercase, to_lowercase};
use crate::language::Language;
use vstd::hash_map::*;
use vstd::prelude::*;
use vstd::string::*;
use vstd::utf8::*;

verus! {

/// A position within a pattern, and the Knuth–Liang digit found there.
#[derive(Copy, Clone, Debug, Default, PartialEq, Eq, Hash, Structural)]
pub struct Locus {
    pub index: u8,
    pub value: u8,
}

/// The tallies that the identifiers select, up to the first identifier that
/// selects none.
pub open spec fn tallies_for<T>(ids: Seq<u64>, tallies: Seq<T>) -> Seq<T>
    decreases ids.len(),
{
    if ids.len() == 0 || ids[0] >= tallies.len() {
        Seq::empty()
    } else {
        seq![tallies[ids[0] as int]] + tallies_for(ids.drop_first(), tallies)
    }
}

/// A trie mapping hyphenation patterns to their tallies.
pub struct Patterns {
    /// The tallies, each under its identifier.
    pub tallies: Vec<Vec<Locus>>,
    /// The trie that maps each pattern to the identifier of its tally.
    pub automaton: Trie,
}

impl Patterns {
    /// The trie can be walked.
    pub open spec fn wf(&self) -> bool {
        self.automaton.wf()
    }

    /// The tallies of the patterns that are prefixes of the query, shortest
    /// pattern first. The walk ends at the first identifier without a tally.
    pub open spec fn matching(&self, query: Seq<u8>) -> Seq<Vec<Locus>> {
        tallies_for(prefix_ids(self.automaton.entries(), query, 0), self.tallies@)
    }
}

/// A specialized hashmap associating words to their known hyphenation.
pub struct Exceptions(pub StringHashMap<Vec<usize>>);

/// A dictionary for standard Knuth–Liang hyphenation.
///
/// It comprises the working language, the pattern and exception sets,
/// and the character boundaries for hyphenation.
pub struct Standard {
    pub language: Language,
    pub patterns: Patterns,
    pub exceptions: Exceptions,
    /// The minimum number of `char`s from the start and end of a word where
    /// breaks may not occur.
    pub minima: (usize, usize),
}

impl Standard {
    /// The trie of the patterns can be walked.
    pub open spec fn wf(&self) -> bool {
        self.patterns.wf()
    }

    /// The language for which this dictionary can provide hyphenation.
    pub fn language(&self) -> (r: Language)
        ensures
            r == self.language,
    {
        self.language
    }

    /// An iterator over the tallies associated to all prefixes of the query,
    /// including the query itself.
    pub fn prefix_tallies<'f, 'q>(&'f self, query: &'q [u8]) -> (r: PrefixTallies<
        'f,
        'q,
        Vec<Locus>,
    >)
        requires
            self.wf(),
        ensures
            r.wf(),
            r.remaining() == self.patterns.matching(query@),
    {
        PrefixTallies::new(self.patterns.tallies.as_slice(), self.patterns.automaton.get_prefixes(query))
    }
}

/// The tallies of the keys that a walk through the trie stops at.
pub struct PrefixTallies<'f, 'q, T> {
    tallies: &'f [T],
    matches: PrefixMatches<'f, 'q>,
    open: bool,
}

impl<'f, 'q, T> PrefixTallies<'f, 'q, T> {
    /// The walk beneath is sound.
    pub closed spec fn wf(&self) -> bool {
        self.matches.wf()
    }

    /// The tallies that are yet to come.
    pub closed spec fn remaining(&self) -> Seq<T> {
        if self.open {
            tallies_for(self.matches.remaining(), self.tallies@)
        } else {
            Seq::empty()
        }
    }

    /// The tallies that the identifiers of the walk select.
    pub fn new(tallies: &'f [T], matches: PrefixMatches<'f, 'q>) -> (r: Self)
        requires
            matches.wf(),
        ensures
            r.wf(),
            r.remaining() == tallies_for(matches.remaining(), tallies@),
    {
        PrefixTallies { tallies, matches, open: true }
    }

    /// The next tally, if the walk stops at another key and its identifier
    /// selects a tally.
    pub fn next(&mut self) -> (r: Option<&'f T>)
        requires
            old(self).wf(),
        ensures
            final(self).wf(),
            old(self).remaining().len() == 0 ==> r is None && final(self).remaining().len() == 0,
            old(self).remaining().len() > 0 ==> r == Some(&old(self).remaining()[0]),
            old(self).remaining().len() > 0 ==> final(self).remaining() == old(
                self,
            ).remaining().drop_first(),
    {
        if !self.open {
            return None;
        }
        match self.matches.next() {
            None => {
                self.open = false;
                None
            },
            Some(id) => {
                if id < self.tallies.len() as u64 {
                    Some(&self.tallies[id as usize])
                } else {
                    self.open = false;
                    None
                }
            },
        }
    }
}

/// An intermediate dictionary builder, primarily to retain field privacy in the
/// dictionary.
pub struct Builder {
    pub language: Language,
    pub patterns: Patterns,
    pub exceptions: Exceptions,
}

impl From<Builder> for Standard {
    /// The dictionary of the builder's parts, with the margins of its language.
    fn from(b: Builder) -> (r: Standard) {
        let minima = b.language.minima();
        Standard { language: b.language, patterns: b.patterns, exceptions: b.exceptions, minima }
    }
}

impl vstd::std_specs::convert::FromSpecImpl<Builder> for Standard {
    open spec fn obeys_from_spec() -> bool {
        true
    }

    open spec fn from_spec(b: Builder) -> Standard {
        Standard {
            language: b.language,
            patterns: b.patterns,
            exceptions: b.exceptions,
            minima: b.language.spec_minima(),
        }
    }
}

impl Default for Patterns {
    /// No patterns.
    fn default() -> (r: Patterns)
        ensures
            r.wf(),
            r.tallies@.len() == 0,
            r.automaton.entries() == Map::<Seq<u8>, u64>::empty(),
    {
        Patterns { tallies: Vec::new(), automaton: Trie::default() }
    }
}

impl Default for Exceptions {
    fn default() -> (r: Exceptions)
        ensures
            r.0@ == Map::<Seq<char>, Vec<usize>>::empty(),
    {
        Exceptions(StringHashMap::new())
    }
}

/// Tallies that can be told apart.
pub trait Distinct: Sized {
    /// Whether the two tallies say the same.
    spec fn same(&self, other: &Self) -> bool;

    /// Whether the two tallies say the same.
    fn is_same(&self, other: &Self) -> (r: bool)
        ensures
            r == self.same(other),
    ;
}

impl Distinct for Vec<Locus> {
    open spec fn same(&self, other: &Self) -> bool {
        self@ == other@
    }

    fn is_same(&self, other: &Self) -> (r: bool) {
        if self.len() != other.len() {
            return false;
        }
        let mut n: usize = 0;
        while n < self.len()
            invariant
                n <= self.len(),
                self.len() == other.len(),
                self@.take(n as int) == other@.take(n as int),
            decreases self.len() - n,
        {
            if self[n].index != other[n].index || self[n].value != other[n].value {
                assert(self@[n as int] != other@[n as int]);
                return false;
            }
            n = n + 1;
            assert(self@.take(n as int) =~= self@.take(n - 1).push(self@[n - 1]));
            assert(other@.take(n as int) =~= other@.take(n - 1).push(other@[n - 1]));
        }
        assert(self@.take(self.len() as int) =~= self@);
        assert(other@.take(other.len() as int) =~= other@);
        true
    }
}

/// The index of the first among the first `n` tallies that says the same as
/// the tally.
pub open spec fn first_same<T: Distinct>(tallies: Seq<T>, tally: T, n: int) -> Option<int>
    decreases n,
{
    if n <= 0 {
        None
    } else {
        match first_same(tallies, tally, n - 1) {
            Some(j) => Some(j),
            None => if tallies[n - 1].same(&tally) {
                Some(n - 1)
            } else {
                None
            },
        }
    }
}

/// The tallies of the first `n` pairs, each once: a tally that says the same
/// as one before it is left out.
pub open spec fn distinct_upto<T: Distinct>(pairs: Seq<(String, T)>, n: int) -> Seq<T>
    decreases n,
{
    if n <= 0 {
        Seq::empty()
    } else {
        let before = distinct_upto(pairs, n - 1);
        match first_same(before, pairs[n - 1].1, before.len() as int) {
            Some(_) => before,
            None => before.push(pairs[n - 1].1),
        }
    }
}

/// The identifier of the tally of pair `i`: the index of the first tally
/// that says the same, among the tallies told apart.
pub open spec fn id_of<T: Distinct>(pairs: Seq<(String, T)>, i: int) -> int {
    let before = distinct_upto(pairs, i);
    match first_same(before, pairs[i].1, before.len() as int) {
        Some(j) => j,
        None => before.len() as int,
    }
}

/// No pair before pair `i` has its key.
pub open spec fn first_with_key<T>(pairs: Seq<(String, T)>, i: int) -> bool {
    forall|h: int| 0 <= h < i ==> (#[trigger] pairs[h]).0@ != pairs[i].0@
}

/// The pair stands for one of the first `n` pairs: it has the key of one that
/// is the first with its key, and the identifier of its tally.
pub open spec fn stands_for<T: Distinct>(pair: (String, u64), pairs: Seq<(String, T)>, n: int) -> bool {
    exists|i: int|
        0 <= i < n && first_with_key(pairs, i) && (#[trigger] pairs[i]).0@ == pair.0@ && pair.1
            == id_of(pairs, i)
}

/// Whether one byte string comes before the other in lexicographic order.
fn bytes_less(a: &[u8], b: &[u8]) -> (r: bool)
    ensures
        r == bytes_lt(a@, b@),
{
    let mut i: usize = 0;
    assert(a@.skip(0) =~= a@);
    assert(b@.skip(0) =~= b@);
    while i < a.len() && i < b.len()
        invariant
            i <= a.len(),
            i <= b.len(),
            bytes_lt(a@, b@) == bytes_lt(a@.skip(i as int), b@.skip(i as int)),
        decreases a.len() - i,
    {
        assert(a@.skip(i as int)[0] == a@[i as int]);
        assert(b@.skip(i as int)[0] == b@[i as int]);
        if a[i] != b[i] {
            return a[i] < b[i];
        }
        assert(a@.skip(i as int).drop_first() =~= a@.skip(i + 1));
        assert(b@.skip(i as int).drop_first() =~= b@.skip(i + 1));
        i = i + 1;
    }
    i < b.len()
}

/// Whether the two byte strings are the same.
fn bytes_same(a: &[u8], b: &[u8]) -> (r: bool)
    ensures
        r == (a@ == b@),
{
    if a.len() != b.len() {
        return false;
    }
    let mut i: usize = 0;
    while i < a.len()
        invariant
            i <= a.len(),
            a.len() == b.len(),
            a@.take(i as int) == b@.take(i as int),
        decreases a.len() - i,
    {
        if a[i] != b[i] {
            return false;
        }
        i = i + 1;
        assert(a@.take(i as int) =~= a@.take(i - 1).push(a@[i - 1]));
        assert(b@.take(i as int) =~= b@.take(i - 1).push(b@[i - 1]));
    }
    assert(a@.take(a.len() as int) =~= a@);
    assert(b@.take(b.len() as int) =~= b@);
    true
}

/// No byte string comes before itself.
pub proof fn lemma_bytes_lt_self(a: Seq<u8>)
    ensures
        !bytes_lt(a, a),
    decreases a.len(),
{
    if a.len() > 0 {
        lemma_bytes_lt_self(a.drop_first());
    }
}

/// Of two byte strings that differ, one comes before the other.
pub proof fn lemma_bytes_lt_total(a: Seq<u8>, b: Seq<u8>)
    ensures
        a == b || bytes_lt(a, b) || bytes_lt(b, a),
    decreases a.len(),
{
    if a.len() > 0 && b.len() > 0 && a[0] == b[0] {
        lemma_bytes_lt_total(a.drop_first(), b.drop_first());
        if a.drop_first() == b.drop_first() {
            assert(a =~= seq![a[0]] + a.drop_first());
            assert(b =~= seq![b[0]] + b.drop_first());
        }
    } else if a.len() == 0 && b.len() == 0 {
        assert(a =~= b);
    }
}

/// Lexicographic order is transitive.
pub proof fn lemma_bytes_lt_chain(a: Seq<u8>, b: Seq<u8>, c: Seq<u8>)
    requires
        bytes_lt(a, b),
        bytes_lt(b, c),
    ensures
        bytes_lt(a, c),
    decreases a.len(),
{
    if a.len() > 0 && b.len() > 0 && c.len() > 0 && a[0] == b[0] && b[0] == c[0] {
        lemma_bytes_lt_chain(a.drop_first(), b.drop_first(), c.drop_first());
    }
}

/// The index of the first tally that says the same as the given one.
fn find_same<T: Distinct>(tallies: &Vec<T>, tally: &T) -> (r: Option<usize>)
    ensures
        r is Some <==> first_same(tallies@, *tally, tallies@.len() as int) is Some,
        r matches Some(j) ==> first_same(tallies@, *tally, tallies@.len() as int) == Some(j as int)
            && j < tallies.len(),
{
    let mut n: usize = 0;
    while n < tallies.len()
        invariant
            n <= tallies.len(),
            first_same(tallies@, *tally, n as int) is None,
        decreases tallies.len() - n,
    {
        if tallies[n].is_same(tally) {
            proof {
                lemma_first_same_stays(tallies@, *tally, n + 1, tallies.len() as int);
            }
            return Some(n);
        }
        n = n + 1;
    }
    None
}

/// Once a tally that says the same is found, it stays the first.
proof fn lemma_first_same_stays<T: Distinct>(tallies: Seq<T>, tally: T, n: int, m: int)
    requires
        0 <= n <= m,
        first_same(tallies, tally, n) is Some,
    ensures
        first_same(tallies, tally, m) == first_same(tallies, tally, n),
    decreases m - n,
{
    if n < m {
        lemma_first_same_stays(tallies, tally, n, m - 1);
    }
}

/// The keys stay in ascending order where a key is put between a lesser and
/// a greater neighbour.
proof fn lemma_insert_ascending(keys: Seq<Seq<u8>>, pos: int, key: Seq<u8>)
    requires
        strictly_ascending(keys),
        0 <= pos <= keys.len(),
        pos < keys.len() ==> bytes_lt(key, keys[pos]),
        pos > 0 ==> bytes_lt(keys[pos - 1], key),
    ensures
        strictly_ascending(keys.insert(pos, key)),
        forall|j: int| 0 <= j < keys.len() ==> #[trigger] keys[j] != key,
{
    let now = keys.insert(pos, key);
    assert forall|j: int| 0 <= j < keys.len() implies (if j < pos {
        bytes_lt(#[trigger] keys[j], key)
    } else {
        bytes_lt(key, keys[j])
    }) by {
        if j < pos {
            if j < pos - 1 {
                lemma_bytes_lt_chain(keys[j], keys[pos - 1], key);
            }
        } else if j > pos {
            lemma_bytes_lt_chain(key, keys[pos], keys[j]);
        }
    }
    lemma_bytes_lt_self(key);
    assert forall|i: int, j: int| 0 <= i < j < now.len() implies bytes_lt(
        #[trigger] now[i],
        #[trigger] now[j],
    ) by {
        let a = if i < pos {
            i
        } else {
            i - 1
        };
        let b = if j < pos {
            j
        } else {
            j - 1
        };
        if i == pos {
            assert(now[j] == keys[b]);
        } else if j == pos {
            assert(now[i] == keys[a]);
        } else {
            assert(now[i] == keys[a] && now[j] == keys[b]);
        }
    }
}

/// The keys of pairs with a pair put in are the keys with its key put in.
proof fn lemma_pair_keys_insert(pairs: Seq<(String, u64)>, pos: int, pair: (String, u64))
    requires
        0 <= pos <= pairs.len(),
    ensures
        pair_keys(pairs.insert(pos, pair)) == pair_keys(pairs).insert(pos, encode_utf8(pair.0@)),
{
    assert(pair_keys(pairs.insert(pos, pair)) =~= pair_keys(pairs).insert(
        pos,
        encode_utf8(pair.0@),
    ));
}

/// Pair `j` of the sorted pairs stands for pair `origin[j]` of the first `n`
/// pairs, and pair `i` of these is found at `place[i]` of the sorted pairs.
pub open spec fn told_apart<T: Distinct>(
    sorted: Seq<(String, u64)>,
    pairs: Seq<(String, T)>,
    n: int,
    origin: Seq<int>,
    place: Seq<int>,
) -> bool {
    &&& origin.len() == sorted.len()
    &&& place.len() == n
    &&& forall|j: int|
        0 <= j < sorted.len() ==> {
            &&& 0 <= #[trigger] origin[j] < n
            &&& first_with_key(pairs, origin[j])
            &&& pairs[origin[j]].0@ == sorted[j].0@
            &&& sorted[j].1 == id_of(pairs, origin[j])
        }
    &&& forall|i: int|
        0 <= i < n ==> 0 <= #[trigger] place[i] < sorted.len() && sorted[place[i]].0@ == pairs[i].0@
}

/// The pairs told apart: the keys in ascending order, each once, with the
/// identifier of the tally that the first pair with this key has; and the
/// tallies, each once, under their identifiers.
pub fn uniques<T: Distinct>(pairs: Vec<(String, T)>) -> (r: (Vec<(String, u64)>, Vec<T>))
    ensures
        strictly_ascending(pair_keys(r.0@)),
        r.1@ == distinct_upto(pairs@, pairs@.len() as int),
        forall|j: int|
            0 <= j < r.0.len() ==> stands_for(#[trigger] r.0[j], pairs@, pairs@.len() as int),
        forall|i: int|
            0 <= i < pairs.len() ==> exists|j: int|
                0 <= j < r.0.len() && (#[trigger] r.0[j]).0@ == (#[trigger] pairs[i]).0@,
{
    let mut sorted: Vec<(String, u64)> = Vec::new();
    let mut tallies: Vec<T> = Vec::new();
    let ghost all = pairs@;
    let ghost mut origin: Seq<int> = Seq::empty();
    let ghost mut place: Seq<int> = Seq::empty();
    for pair in it: pairs
        invariant
            it.seq() == all,
            strictly_ascending(pair_keys(sorted@)),
            tallies@ == distinct_upto(all, it.index() as int),
            told_apart(sorted@, all, it.index() as int, origin, place),
    {
        let ghost n = it.index() as int;
        let ghost was = sorted@;
        let (pattern, tally) = pair;
        let id = match find_same(&tallies, &tally) {
            Some(id) => id,
            None => {
                let id = tallies.len();
                tallies.push(tally);
                id
            },
        };
        assert(id == id_of(all, n));
        let key = pattern.as_str().as_bytes();
        let mut pos = sorted.len();
        while pos > 0 && bytes_less(key, sorted[pos - 1].0.as_str().as_bytes())
            invariant
                pos <= sorted.len(),
                key@ == encode_utf8(pattern@),
                pos < sorted.len() ==> bytes_lt(key@, pair_keys(sorted@)[pos as int]),
            decreases pos,
        {
            pos = pos - 1;
        }
        let known = pos > 0 && bytes_same(key, sorted[pos - 1].0.as_str().as_bytes());
        if known {
            proof {
                encode_utf8_decode_utf8(pattern@);
                encode_utf8_decode_utf8(sorted@[pos - 1].0@);
                assert(sorted@[pos - 1].0@ == pattern@);
                place = place.push(pos - 1);
            }
        } else {
            proof {
                if pos > 0 {
                    lemma_bytes_lt_total(key@, pair_keys(was)[pos - 1]);
                }
                lemma_insert_ascending(pair_keys(was), pos as int, key@);
                lemma_pair_keys_insert(was, pos as int, (pattern, id as u64));
                assert forall|h: int| 0 <= h < n implies (#[trigger] all[h]).0@ != all[n].0@ by {
                    assert(pair_keys(was)[place[h]] != key@);
                }
                origin = origin.insert(pos as int, n);
                place = Seq::new(
                    n as nat,
                    |i: int|
                        if place[i] < pos {
                            place[i]
                        } else {
                            place[i] + 1
                        },
                ).push(pos as int);
            }
            sorted.insert(pos, (pattern, id as u64));
            proof {
                let now = sorted@;
                assert forall|j: int| 0 <= j < now.len() implies {
                    &&& 0 <= #[trigger] origin[j] < n + 1
                    &&& first_with_key(all, origin[j])
                    &&& all[origin[j]].0@ == now[j].0@
                    &&& now[j].1 == id_of(all, origin[j])
                } by {
                    if j < pos {
                        assert(now[j] == was[j]);
                    } else if j > pos {
                        assert(now[j] == was[j - 1]);
                    }
                }
                assert forall|i: int| 0 <= i < n + 1 implies 0 <= #[trigger] place[i] < now.len()
                    && now[place[i]].0@ == all[i].0@ by {
                    if i < n {
                        let before = if place[i] < pos {
                            place[i]
                        } else {
                            place[i] - 1
                        };
                        assert(now[place[i]] == was[before]);
                    }
                }
            }
        }
    }
    proof {
        let n = all.len() as int;
        assert forall|j: int| 0 <= j < sorted.len() implies stands_for(
            #[trigger] sorted[j],
            all,
            n,
        ) by {
            let i = origin[j];
            assert(0 <= i < n && first_with_key(all, i) && all[i].0@ == sorted[j].0@ && sorted[j].1
                == id_of(all, i));
        }
        assert forall|i: int| 0 <= i < n implies exists|j: int|
            0 <= j < sorted.len() && (#[trigger] sorted[j]).0@ == (#[trigger] all[i]).0@ by {
            let j = place[i];
            assert(0 <= j < sorted.len() && sorted[j].0@ == all[i].0@);
        }
    }
    (sorted, tallies)
}

impl Patterns {
    /// The patterns of the pairs: each key is mapped to the identifier of the
    /// tally that the first pair with this key has, and the tallies are kept
    /// once each.
    pub fn from_iter(pairs: Vec<(String, Vec<Locus>)>) -> (r: Result<Self, TrieError>)
        ensures
            r is Ok,
            r matches Ok(patterns) ==> patterns.wf() && patterns.tallies@ == distinct_upto(
                pairs@,
                pairs@.len() as int,
            ) && forall|i: int|
                0 <= i < pairs.len() && first_with_key(pairs@, i)
                    ==> patterns.automaton.entries().contains_key(
                    encode_utf8((#[trigger] pairs[i]).0@),
                ) && patterns.automaton.entries()[encode_utf8(pairs[i].0@)] == id_of(pairs@, i),
            r matches Ok(patterns) ==> forall|key: Seq<u8>| #[trigger]
                patterns.automaton.entries().contains_key(key) ==> has_key(pairs@, key),
    {
        let (kvs, tallies) = uniques(pairs);
        let ghost keyed = kvs@;
        match Trie::from_iter(kvs) {
            Ok(automaton) => {
                proof {
                    assert forall|i: int|
                        0 <= i < pairs.len() && first_with_key(
                            pairs@,
                            i,
                        ) implies automaton.entries().contains_key(
                        encode_utf8((#[trigger] pairs[i]).0@),
                    ) && automaton.entries()[encode_utf8(pairs[i].0@)] == id_of(pairs@, i) by {
                        lemma_pairs_map(keyed, pairs@, i);
                    }
                    assert forall|key: Seq<u8>| #[trigger]
                        automaton.entries().contains_key(key) implies has_key(pairs@, key) by {
                        lemma_pairs_map_keys(keyed, pairs@, key);
                    }
                }
                Ok(Patterns { tallies, automaton })
            },
            Err(e) => Err(e),
        }
    }
}

/// One of the pairs has the key.
pub open spec fn has_key<T>(pairs: Seq<(String, T)>, key: Seq<u8>) -> bool {
    exists|i: int| 0 <= i < pairs.len() && encode_utf8((#[trigger] pairs[i]).0@) == key
}

/// The map of the pairs told apart holds no key but those of the pairs.
pub proof fn lemma_pairs_map_keys<T: Distinct>(
    kvs: Seq<(String, u64)>,
    pairs: Seq<(String, T)>,
    key: Seq<u8>,
)
    requires
        forall|j: int| 0 <= j < kvs.len() ==> stands_for(#[trigger] kvs[j], pairs, pairs.len() as int),
        pairs_map(kvs).contains_key(key),
    ensures
        has_key(pairs, key),
{
    let j = choose|j: int| 0 <= j < kvs.len() && #[trigger] pair_keys(kvs)[j] == key;
    assert(stands_for(kvs[j], pairs, pairs.len() as int));
    let i = choose|i: int|
        0 <= i < pairs.len() && first_with_key(pairs, i) && (#[trigger] pairs[i]).0@ == kvs[j].0@
            && kvs[j].1 == id_of(pairs, i);
    assert(encode_utf8(pairs[i].0@) == key);
}

/// What the map of the pairs told apart holds for a key: the identifier of
/// the tally of the first pair with this key.
pub proof fn lemma_pairs_map<T: Distinct>(kvs: Seq<(String, u64)>, pairs: Seq<(String, T)>, i: int)
    requires
        strictly_ascending(pair_keys(kvs)),
        forall|j: int| 0 <= j < kvs.len() ==> stands_for(#[trigger] kvs[j], pairs, pairs.len() as int),
        forall|i: int|
            0 <= i < pairs.len() ==> exists|j: int|
                0 <= j < kvs.len() && (#[trigger] kvs[j]).0@ == (#[trigger] pairs[i]).0@,
        0 <= i < pairs.len(),
        first_with_key(pairs, i),
    ensures
        pairs_map(kvs).contains_key(encode_utf8(pairs[i].0@)),
        pairs_map(kvs)[encode_utf8(pairs[i].0@)] == id_of(pairs, i),
{
    let key = encode_utf8(pairs[i].0@);
    let keys = pair_keys(kvs);
    let j = choose|j: int| 0 <= j < kvs.len() && (#[trigger] kvs[j]).0@ == (#[trigger] pairs[i]).0@;
    assert(keys[j] == key);
    let chosen = choose|c: int| 0 <= c < kvs.len() && #[trigger] pair_keys(kvs)[c] == key;
    lemma_bytes_lt_self(key);
    if chosen < j {
        assert(bytes_lt(keys[chosen], keys[j]));
    } else if j < chosen {
        assert(bytes_lt(keys[j], keys[chosen]));
    }
    assert(chosen == j);
    assert(stands_for(kvs[j], pairs, pairs.len() as int));
    let h = choose|h: int|
        0 <= h < pairs.len() && first_with_key(pairs, h) && (#[trigger] pairs[h]).0@ == kvs[j].0@
            && kvs[j].1 == id_of(pairs, h);
    if h < i {
        assert(pairs[h].0@ != pairs[i].0@);
    } else if i < h {
        assert(pairs[i].0@ != pairs[h].0@);
    }
}

impl Exceptions {
    /// Creates an empty `Exceptions` map.
    pub fn empty() -> (r: Exceptions)
        ensures
            r.0@ == Map::<Seq<char>, Vec<usize>>::empty(),
    {
        Exceptions(StringHashMap::new())
    }

    /// Inserts a word with its breaks into the map.
    ///
    /// If the word is already known, its old breaks are returned; if not,
    /// `None` is.
    pub fn insert(&mut self, klpair: (String, Vec<usize>)) -> (r: Option<Vec<usize>>)
        ensures
            final(self).0@ == old(self).0@.insert(klpair.0@, klpair.1),
            r is Some <==> old(self).0@.contains_key(klpair.0@),
            r matches Some(before) ==> before@ == old(self).0@[klpair.0@]@,
    {
        let (word, breaks) = klpair;
        let before = match self.0.get(word.as_str()) {
            Some(known) => Some(known.clone()),
            None => None,
        };
        self.0.insert(word, breaks);
        before
    }

    /// Retrieves the breaks that are known for the word in lowercase.
    pub fn score(&self, word: &str) -> (r: Option<&Vec<usize>>)
        ensures
            r is Some <==> self.0@.contains_key(lowercase(word@)),
            r matches Some(known) ==> *known == self.0@[lowercase(word@)],
    {
        let w = to_lowercase(word);
        self.0.get(w.as_str())
    }
}

} // verus!
