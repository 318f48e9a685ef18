//! Data structures for extended hyphenation, where letters may change around
//! a break.

use crate::dictionary::trie::{prefix_ids, Trie, TrieError};
use crate::dictionary::{
    distinct_upto, first_with_key, has_key, id_of, lemma_pairs_map, lemma_pairs_map_keys,
    tallies_for, uniques, Distinct, Locus,
    PrefixTallies,
};
use crate::language::Language;
use vstd::hash_map::*;
use vstd::prelude::*;
use vstd::string::*;
use vstd::utf8::*;

verus! {

/// The partial score carried by an extended hyphenation pattern.
#[derive(Clone, Debug, Default, PartialEq, Eq, Hash)]
pub struct Tally {
    /// The pattern tally, equivalent to that found in standard patterns.
    pub standard: Vec<Locus>,
    /// An optional subregion which may replace part of the string around the
    /// opportunity.
    pub subregion: Option<(Locus, Subregion)>,
}

/// Word alterations extending a standard Knuth–Liang pattern.
#[derive(Clone, Debug, Default, PartialEq, Eq, Hash)]
pub struct Subregion {
    /// The number of bytes that the substitution will replace before the break.
    pub left: usize,
    /// The number of bytes that the substitution will replace after the break.
    pub right: usize,
    /// The replacement for the substring to be altered around the break, as
    /// delimited by the `left` and `right` subregion boundaries.
    pub substitution: String,
    /// An index into the substitution, denoting the hyphenation opportunity
    /// within this subregion.
    pub breakpoint: usize,
}

/// A trie mapping hyphenation patterns to their extended tallies.
pub struct Patterns {
    /// The tallies, each under its identifier.
    pub tallies: Vec<Tally>,
    /// The trie that maps each pattern to the identifier of its tally.
    pub automaton: Trie,
}

impl Patterns {
    /// The trie can be walked.
    pub open spec fn wf(&self) -> bool {
        self.automaton.wf()
    }

    /// The tallies of the patterns that are prefixes of the query, shortest
    /// pattern first. The walk ends at the first identifier without a tally.
    pub open spec fn matching(&self, query: Seq<u8>) -> Seq<Tally> {
        tallies_for(prefix_ids(self.automaton.entries(), query, 0), self.tallies@)
    }
}

/// A specialized hashmap associating words to their known hyphenation.
pub struct Exceptions(pub StringHashMap<Vec<(usize, Option<Subregion>)>>);

/// A dictionary for extended Knuth–Liang hyphenation, based on the strategy
/// described by Németh in "Automatic non-standard hyphenation in
/// OpenOffice.org".
///
/// It comprises the working language, the set of extended patterns and
/// exceptions, and the character boundaries for hyphenation.
pub struct Extended {
    pub language: Language,
    pub patterns: Patterns,
    pub exceptions: Exceptions,
    /// The minimum number of `char`s from the start and end of a word where
    /// breaks may not occur.
    pub minima: (usize, usize),
}

impl Extended {
    /// The trie of the patterns can be walked.
    pub open spec fn wf(&self) -> bool {
        self.patterns.wf()
    }

    /// The language for which this dictionary can provide hyphenation.
    pub fn language(&self) -> (r: Language)
        ensures
            r == self.language,
    {
        self.language
    }

    /// An iterator over the tallies associated to all prefixes of the query,
    /// including the query itself.
    pub fn prefix_tallies<'f, 'q>(&'f self, query: &'q [u8]) -> (r: PrefixTallies<'f, 'q, Tally>)
        requires
            self.wf(),
        ensures
            r.wf(),
            r.remaining() == self.patterns.matching(query@),
    {
        PrefixTallies::new(
            self.patterns.tallies.as_slice(),
            self.patterns.automaton.get_prefixes(query),
        )
    }
}

/// An intermediate dictionary builder, its primary purpose is visibility
/// hygiene.
pub struct Builder {
    pub language: Language,
    pub patterns: Patterns,
    pub exceptions: Exceptions,
}

impl From<Builder> for Extended {
    /// The dictionary of the builder's parts, with the margins of its language.
    fn from(b: Builder) -> (r: Extended) {
        let minima = b.language.minima();
        Extended { language: b.language, patterns: b.patterns, exceptions: b.exceptions, minima }
    }
}

impl vstd::std_specs::convert::FromSpecImpl<Builder> for Extended {
    open spec fn obeys_from_spec() -> bool {
        true
    }

    open spec fn from_spec(b: Builder) -> Extended {
        Extended {
            language: b.language,
            patterns: b.patterns,
            exceptions: b.exceptions,
            minima: b.language.spec_minima(),
        }
    }
}

impl Default for Patterns {
    /// No patterns.
    fn default() -> (r: Patterns)
        ensures
            r.wf(),
            r.tallies@.len() == 0,
            r.automaton.entries() == Map::<Seq<u8>, u64>::empty(),
    {
        Patterns { tallies: Vec::new(), automaton: Trie::default() }
    }
}

impl Default for Exceptions {
    fn default() -> (r: Exceptions)
        ensures
            r.0@ == Map::<Seq<char>, Vec<(usize, Option<Subregion>)>>::empty(),
    {
        Exceptions(StringHashMap::new())
    }
}

/// Whether the two subregions, each with its locus, say the same.
pub open spec fn same_region(a: Option<(Locus, Subregion)>, b: Option<(Locus, Subregion)>) -> bool {
    match (a, b) {
        (None, None) => true,
        (Some((locus, region)), Some((other_locus, other))) => {
            &&& locus == other_locus
            &&& region.left == other.left
            &&& region.right == other.right
            &&& region.substitution@ == other.substitution@
            &&& region.breakpoint == other.breakpoint
        },
        _ => false,
    }
}

impl Distinct for Tally {
    open spec fn same(&self, other: &Self) -> bool {
        self.standard@ == other.standard@ && same_region(self.subregion, other.subregion)
    }

    fn is_same(&self, other: &Self) -> (r: bool) {
        if !self.standard.is_same(&other.standard) {
            return false;
        }
        match (&self.subregion, &other.subregion) {
            (None, None) => true,
            (Some((locus, region)), Some((other_locus, other))) => {
                locus.index == other_locus.index && locus.value == other_locus.value
                    && region.left == other.left && region.right == other.right
                    && region.substitution == other.substitution && region.breakpoint
                    == other.breakpoint
            },
            _ => false,
        }
    }
}

impl Patterns {
    /// The patterns of the pairs: each key is mapped to the identifier of the
    /// tally that the first pair with this key has, and the tallies are kept
    /// once each.
    pub fn from_iter(pairs: Vec<(String, Tally)>) -> (r: Result<Self, TrieError>)
        ensures
            r is Ok,
            r matches Ok(patterns) ==> patterns.wf() && patterns.tallies@ == distinct_upto(
                pairs@,
                pairs@.len() as int,
            ) && forall|i: int|
                0 <= i < pairs.len() && first_with_key(pairs@, i)
                    ==> patterns.automaton.entries().contains_key(
                    encode_utf8((#[trigger] pairs[i]).0@),
                ) && patterns.automaton.entries()[encode_utf8(pairs[i].0@)] == id_of(pairs@, i),
            r matches Ok(patterns) ==> forall|key: Seq<u8>| #[trigger]
                patterns.automaton.entries().contains_key(key) ==> has_key(pairs@, key),
    {
        let (kvs, tallies) = uniques(pairs);
        let ghost keyed = kvs@;
        match Trie::from_iter(kvs) {
            Ok(automaton) => {
                proof {
                    assert forall|i: int|
                        0 <= i < pairs.len() && first_with_key(
                            pairs@,
                            i,
                        ) implies automaton.entries().contains_key(
                        encode_utf8((#[trigger] pairs[i]).0@),
                    ) && automaton.entries()[encode_utf8(pairs[i].0@)] == id_of(pairs@, i) by {
                        lemma_pairs_map(keyed, pairs@, i);
                    }
                    assert forall|key: Seq<u8>| #[trigger]
                        automaton.entries().contains_key(key) implies has_key(pairs@, key) by {
                        lemma_pairs_map_keys(keyed, pairs@, key);
                    }
                }
                Ok(Patterns { tallies, automaton })
            },
            Err(e) => Err(e),
        }
    }
}

impl Exceptions {
    /// No exceptions.
    pub fn empty() -> (r: Exceptions)
        ensures
            r.0@ == Map::<Seq<char>, Vec<(usize, Option<Subregion>)>>::empty(),
    {
        Exceptions(StringHashMap::new())
    }
}

} // verus!
