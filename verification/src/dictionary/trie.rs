//! The pattern trie: an ordered map from byte strings to tally identifiers,
//! kept as a finite state transducer, and the walk that finds every key
//! which is a prefix of a query.

use vstd::prelude::*;
use vstd::string::*;
use vstd::utf8::*;

verus! {

#[verifier::external_type_specification]
#[verifier::external_body]
#[verifier::reject_recursive_types(D)]
pub struct ExMap<D>(fst::Map<D>);

#[verifier::external_type_specification]
#[verifier::external_body]
pub struct ExFstError(fst::Error);

/// The key-value pairs that a transducer holds.
pub uninterp spec fn map_entries(m: fst::Map<Vec<u8>>) -> Map<Seq<u8>, u64>;

/// Whether the bytes of a transducer are those that a builder wrote.
pub uninterp spec fn map_intact(m: fst::Map<Vec<u8>>) -> bool;

/// The bytes that a transducer is stored as.
pub uninterp spec fn map_image(m: fst::Map<Vec<u8>>) -> Seq<u8>;

/// Whether a node stands at the address.
pub uninterp spec fn map_has_node(m: fst::Map<Vec<u8>>, addr: usize) -> bool;

/// What can be read from the node at the address on: each byte string that
/// leads from it to a match, with the sum of the outputs on that way, the
/// final output included.
pub uninterp spec fn map_entries_from(m: fst::Map<Vec<u8>>, addr: usize) -> Map<Seq<u8>, u64>;

/// The input byte of the transition with the given index of the node at the
/// address, if the node has that many transitions.
pub uninterp spec fn map_label(m: fst::Map<Vec<u8>>, addr: usize, i: usize) -> Option<u8>;

/// The key-value pairs that a transducer stored as these bytes holds.
pub uninterp spec fn stored_entries(bytes: Seq<u8>) -> Map<Seq<u8>, u64>;

/// Whether the bytes are those that a builder wrote as a transducer.
pub uninterp spec fn stored_intact(bytes: Seq<u8>) -> bool;

/// The number that `n` bytes from `at` on spell, the least byte first.
pub open spec fn little_endian(bytes: Seq<u8>, at: int, n: int) -> nat
    decreases n,
{
    if n <= 0 {
        0
    } else {
        bytes[at] as nat + 256 * little_endian(bytes, at + 1, n - 1)
    }
}

/// The version that stored bytes claim: their first eight bytes.
pub open spec fn stored_version(bytes: Seq<u8>) -> nat {
    little_endian(bytes, 0, 8)
}

/// The address of the root that stored bytes claim: their last eight bytes,
/// or, from version 3 on, the eight bytes before the checksum of four.
pub open spec fn stored_root(bytes: Seq<u8>) -> nat {
    if stored_version(bytes) <= 2 {
        little_endian(bytes, bytes.len() - 8, 8)
    } else {
        little_endian(bytes, bytes.len() - 12, 8)
    }
}

/// Whether stored bytes are taken for a transducer: there are 36 of them at
/// least, their version is 1, 2 or 3, and the address of their root is not 0,
/// unless they are of version 3 and 36 in all.
pub open spec fn opens(bytes: Seq<u8>) -> bool {
    let empty_total: int = if stored_version(bytes) <= 2 {
        32
    } else {
        36
    };
    let addr_offset: int = if stored_version(bytes) <= 2 {
        17
    } else {
        21
    };
    &&& bytes.len() >= 36
    &&& 1 <= stored_version(bytes) <= 3
    &&& !(stored_root(bytes) == 0 && bytes.len() != empty_total && stored_root(bytes) + addr_offset
        != bytes.len())
}

/// Lexicographic order on byte strings.
pub open spec fn bytes_lt(a: Seq<u8>, b: Seq<u8>) -> bool
    decreases a.len(),
{
    if b.len() == 0 {
        false
    } else if a.len() == 0 {
        true
    } else if a[0] != b[0] {
        a[0] < b[0]
    } else {
        bytes_lt(a.drop_first(), b.drop_first())
    }
}

/// The keys of the pairs, as bytes.
pub open spec fn pair_keys(pairs: Seq<(String, u64)>) -> Seq<Seq<u8>> {
    Seq::new(pairs.len(), |i: int| encode_utf8(pairs[i].0@))
}

/// Each key is greater than those before it.
pub open spec fn strictly_ascending(keys: Seq<Seq<u8>>) -> bool {
    forall|i: int, j: int|
        0 <= i < j < keys.len() ==> bytes_lt(#[trigger] keys[i], #[trigger] keys[j])
}

/// The map that holds each pair under its key.
pub open spec fn pairs_map(pairs: Seq<(String, u64)>) -> Map<Seq<u8>, u64> {
    Map::new(
        |k: Seq<u8>| exists|i: int| 0 <= i < pairs.len() && #[trigger] pair_keys(pairs)[i] == k,
        |k: Seq<u8>|
            pairs[choose|i: int| 0 <= i < pairs.len() && #[trigger] pair_keys(pairs)[i] == k].1,
    )
}

/// No key of the node goes on with the byte.
pub open spec fn no_way(from: Map<Seq<u8>, u64>, b: u8) -> bool {
    forall|s: Seq<u8>| !from.contains_key(#[trigger] (seq![b] + s))
}

/// The keys of `from` that go on with the byte are those of `to`, each with
/// `out` more on its way.
pub open spec fn leads(from: Map<Seq<u8>, u64>, b: u8, out: u64, to: Map<Seq<u8>, u64>) -> bool {
    &&& forall|s: Seq<u8>|
        #![trigger to.contains_key(s)]
        #![trigger from.contains_key(seq![b] + s)]
        from.contains_key(seq![b] + s) <==> to.contains_key(s)
    &&& forall|s: Seq<u8>| #[trigger]
        to.contains_key(s) ==> from[seq![b] + s] == out + to[s]
    &&& exists|s: Seq<u8>| to.contains_key(s)
}

/// `fst::Map::from_iter`: builds a transducer from pairs. The builder takes
/// the keys one by one and refuses a key that is not greater than the one
/// before it; of what it took it makes a transducer that holds each pair.
#[verifier::external_body]
fn map_build(pairs: Vec<(String, u64)>) -> (r: Result<fst::Map<Vec<u8>>, fst::Error>)
    ensures
        r is Ok <==> strictly_ascending(pair_keys(pairs@)),
        r matches Ok(m) ==> map_intact(m) && map_entries(m) == pairs_map(pairs@),
{
    fst::Map::from_iter(pairs)
}

/// `fst::Map::new`: takes the bytes as a transducer after a look at their
/// head and their end, and keeps them as they are. What the transducer holds
/// is read from its bytes alone.
#[verifier::external_body]
fn map_open(bytes: Vec<u8>) -> (r: Result<fst::Map<Vec<u8>>, fst::Error>)
    ensures
        r is Ok <==> opens(bytes@),
        r matches Ok(m) ==> map_image(m) == bytes@ && map_intact(m) == stored_intact(bytes@)
            && map_entries(m) == stored_entries(bytes@),
{
    fst::Map::new(bytes)
}

/// `fst::raw::Fst::as_bytes`: the bytes that the transducer is stored as.
/// They are bytes that were taken for a transducer, since none is made in
/// another way; and what the transducer holds is read from them alone.
#[verifier::external_body]
fn map_bytes(m: &fst::Map<Vec<u8>>) -> (r: &[u8])
    ensures
        r@ == map_image(*m),
        opens(r@),
        stored_intact(r@) == map_intact(*m),
        stored_entries(r@) == map_entries(*m),
{
    m.as_fst().as_bytes()
}

/// `fst::raw::Fst::root` and `fst::raw::Node::addr`: the address of the node
/// at which every key starts.
#[verifier::external_body]
fn map_root(m: &fst::Map<Vec<u8>>) -> (addr: usize)
    requires
        map_intact(*m),
    ensures
        map_has_node(*m, addr),
        map_entries_from(*m, addr) == map_entries(*m),
{
    m.as_fst().root().addr()
}

/// `fst::raw::Node::is_final`: whether a key ends at the node.
#[verifier::external_body]
fn map_is_final(m: &fst::Map<Vec<u8>>, addr: usize) -> (r: bool)
    requires
        map_intact(*m),
        map_has_node(*m, addr),
    ensures
        r == map_entries_from(*m, addr).contains_key(Seq::<u8>::empty()),
{
    m.as_fst().node(addr).is_final()
}

/// `fst::raw::Node::final_output`: the output that belongs to the key which
/// ends at the node.
#[verifier::external_body]
fn map_final_output(m: &fst::Map<Vec<u8>>, addr: usize) -> (r: u64)
    requires
        map_intact(*m),
        map_has_node(*m, addr),
    ensures
        map_entries_from(*m, addr).contains_key(Seq::<u8>::empty()) ==> r == map_entries_from(
            *m,
            addr,
        )[Seq::<u8>::empty()],
{
    m.as_fst().node(addr).final_output().value()
}

/// `fst::raw::Node::find_input`: the index of the transition that leaves the
/// node with the byte, if there is one. A builder writes a transition only on
/// the way of a key.
#[verifier::external_body]
fn map_find_input(m: &fst::Map<Vec<u8>>, addr: usize, b: u8) -> (r: Option<usize>)
    requires
        map_intact(*m),
        map_has_node(*m, addr),
    ensures
        r is None ==> no_way(map_entries_from(*m, addr), b),
        r matches Some(i) ==> map_label(*m, addr, i) == Some(b),
{
    m.as_fst().node(addr).find_input(b)
}

/// `fst::raw::Node::transition`: the transition of the given index, as its
/// input byte, its output and the address that it points to.
#[verifier::external_body]
fn map_transition(m: &fst::Map<Vec<u8>>, addr: usize, i: usize) -> (r: (u8, u64, usize))
    requires
        map_intact(*m),
        map_has_node(*m, addr),
        map_label(*m, addr, i) is Some,
    ensures
        map_label(*m, addr, i) == Some(r.0),
        map_has_node(*m, r.2),
        leads(map_entries_from(*m, addr), r.0, r.1, map_entries_from(*m, r.2)),
{
    let t = m.as_fst().node(addr).transition(i);
    (t.inp, t.out.value(), t.addr)
}

/// The trie could not be built.
#[derive(Debug)]
pub struct TrieError(pub fst::Error);

/// An ordered map from byte strings to tally identifiers.
pub struct Trie {
    map: fst::Map<Vec<u8>>,
}

/// The identifiers of the keys that are prefixes of the query longer than
/// `from` bytes, shortest first.
pub open spec fn prefix_ids(entries: Map<Seq<u8>, u64>, query: Seq<u8>, from: int) -> Seq<u64>
    decreases query.len() - from,
{
    if from < 0 || from >= query.len() {
        Seq::empty()
    } else {
        let key = query.take(from + 1);
        let found = if entries.contains_key(key) {
            seq![entries[key]]
        } else {
            Seq::empty()
        };
        found + prefix_ids(entries, query, from + 1)
    }
}

impl Trie {
    /// The key-value pairs of the trie.
    pub closed spec fn entries(&self) -> Map<Seq<u8>, u64> {
        map_entries(self.map)
    }

    /// The bytes that the trie is stored as.
    pub closed spec fn image(&self) -> Seq<u8> {
        map_image(self.map)
    }

    /// The trie is as a builder wrote it, so that it can be walked.
    pub closed spec fn wf(&self) -> bool {
        map_intact(self.map)
    }

    /// The bytes that the trie is stored as. They can be taken as a trie
    /// again, which is then the same as this one.
    pub fn as_bytes(&self) -> (r: &[u8])
        ensures
            r@ == self.image(),
            opens(r@),
            stored_intact(r@) == self.wf(),
            stored_entries(r@) == self.entries(),
    {
        map_bytes(&self.map)
    }

    /// Takes the bytes as a trie. Only their head and their end are looked
    /// at, and bytes that pass are kept as they are. Whether the trie can be
    /// walked, and what it holds, lies in the bytes alone: the bytes of a trie
    /// that can be walked give such a trie again, with the same pairs.
    pub fn from_bytes(bs: Vec<u8>) -> (r: Result<Trie, TrieError>)
        ensures
            r is Ok <==> opens(bs@),
            r matches Ok(t) ==> t.image() == bs@ && t.wf() == stored_intact(bs@) && t.entries()
                == stored_entries(bs@),
    {
        match map_open(bs) {
            Ok(map) => Ok(Trie { map }),
            Err(e) => Err(TrieError(e)),
        }
    }

    /// Builds a trie from pairs whose keys are strictly ascending in byte
    /// order. Any other sequence of pairs is refused.
    pub fn from_iter(pairs: Vec<(String, u64)>) -> (r: Result<Trie, TrieError>)
        ensures
            r is Ok <==> strictly_ascending(pair_keys(pairs@)),
            r matches Ok(t) ==> t.wf() && t.entries() == pairs_map(pairs@),
    {
        match map_build(pairs) {
            Ok(map) => Ok(Trie { map }),
            Err(e) => Err(TrieError(e)),
        }
    }

    /// The walk over the keys that are prefixes of the query.
    pub fn get_prefixes<'f, 'q>(&'f self, query: &'q [u8]) -> (r: PrefixMatches<'f, 'q>)
        requires
            self.wf(),
        ensures
            r.wf(),
            r.remaining() == prefix_ids(self.entries(), query@, 0),
    {
        let addr = map_root(&self.map);
        let r = PrefixMatches { trie: self, addr, output: 0, query, pos: 0, open: true };
        proof {
            assert forall|s: Seq<u8>|
                #![trigger map_entries_from(self.map, addr).contains_key(s)]
                map_entries_from(self.map, addr).contains_key(s) implies map_entries(
                self.map,
            ).contains_key(query@.take(0) + s) && map_entries(self.map)[query@.take(0) + s] == 0
                + map_entries_from(self.map, addr)[s] by {
                assert(query@.take(0) + s =~= s);
            }
            assert forall|s: Seq<u8>|
                #![trigger map_entries(self.map).contains_key(query@.take(0) + s)]
                map_entries(self.map).contains_key(query@.take(0) + s) implies map_entries_from(
                self.map,
                addr,
            ).contains_key(s) by {
                assert(query@.take(0) + s =~= s);
            }
        }
        r
    }
}

impl Default for Trie {
    /// The trie without a key.
    fn default() -> (r: Trie)
        ensures
            r.wf(),
            r.entries() == Map::<Seq<u8>, u64>::empty(),
    {
        let none: Vec<(String, u64)> = Vec::new();
        let r = Trie::from_iter(none).unwrap();
        assert(r.entries() =~= Map::<Seq<u8>, u64>::empty());
        r
    }
}

/// A walk along the query through the trie, which stops at each key.
pub struct PrefixMatches<'f, 'q> {
    trie: &'f Trie,
    addr: usize,
    output: u64,
    query: &'q [u8],
    pos: usize,
    open: bool,
}

impl<'f, 'q> PrefixMatches<'f, 'q> {
    /// The walk stands at a node of its trie, and has collected the outputs
    /// on the way there.
    pub closed spec fn wf(&self) -> bool {
        let m = self.trie.map;
        let here = map_entries_from(m, self.addr);
        let done = self.query@.take(self.pos as int);
        &&& map_intact(m)
        &&& map_has_node(m, self.addr)
        &&& self.pos <= self.query@.len()
        &&& self.open ==> {
            &&& forall|s: Seq<u8>|
                #![trigger here.contains_key(s)]
                here.contains_key(s) ==> map_entries(m).contains_key(done + s) && map_entries(
                    m,
                )[done + s] == self.output + here[s]
            &&& forall|s: Seq<u8>|
                #![trigger map_entries(m).contains_key(done + s)]
                map_entries(m).contains_key(done + s) ==> here.contains_key(s)
        }
    }

    /// The identifiers that the walk has yet to give out.
    pub closed spec fn remaining(&self) -> Seq<u64> {
        if self.open {
            prefix_ids(map_entries(self.trie.map), self.query@, self.pos as int)
        } else {
            Seq::empty()
        }
    }

    /// The identifier of the next key that is a prefix of the query, if
    /// there is one.
    pub fn next(&mut self) -> (r: Option<u64>)
        requires
            old(self).wf(),
        ensures
            final(self).wf(),
            old(self).remaining().len() == 0 ==> r is None && final(self).remaining().len() == 0,
            old(self).remaining().len() > 0 ==> r == Some(old(self).remaining()[0]),
            old(self).remaining().len() > 0 ==> final(self).remaining() == old(self).remaining().drop_first(),
    {
        if !self.open {
            return None;
        }
        let ghost m = self.trie.map;
        let ghost all = map_entries(m);
        let ghost q = self.query@;
        while self.pos < self.query.len()
            invariant
                self.wf(),
                self.open,
                self.trie.map == m,
                self.query@ == q,
                all == map_entries(m),
                self.remaining() == old(self).remaining(),
            decreases self.query.len() - self.pos,
        {
            let b = self.query[self.pos];
            let ghost here = map_entries_from(m, self.addr);
            let ghost done = q.take(self.pos as int);
            let ghost more = q.take(self.pos + 1);
            assert(more =~= done + seq![b]);
            let way = match map_find_input(&self.trie.map, self.addr, b) {
                None => None,
                Some(i) => {
                    let (_, out, next) = map_transition(&self.trie.map, self.addr, i);
                    Some((out, next))
                },
            };
            match way {
                None => {
                    proof {
                        lemma_no_more(all, q, here, done, self.pos as int, self.pos as int);
                    }
                    self.open = false;
                    return None;
                },
                Some((out, next)) => {
                    let ghost there = map_entries_from(m, next);
                    proof {
                        let s0 = choose|s: Seq<u8>| there.contains_key(s);
                        assert(here.contains_key(seq![b] + s0));
                        assert(all[done + (seq![b] + s0)] == self.output + here[seq![b] + s0]);
                        assert forall|s: Seq<u8>|
                            #![trigger there.contains_key(s)]
                            there.contains_key(s) implies all.contains_key(more + s) && all[more
                                + s] == self.output + out + there[s] by {
                            assert(here.contains_key(seq![b] + s));
                            assert(more + s =~= done + (seq![b] + s));
                        }
                        assert forall|s: Seq<u8>|
                            #![trigger all.contains_key(more + s)]
                            all.contains_key(more + s) implies there.contains_key(s) by {
                            assert(more + s =~= done + (seq![b] + s));
                            assert(here.contains_key(seq![b] + s));
                        }
                    }
                    self.output = self.output + out;
                    self.addr = next;
                    self.pos = self.pos + 1;
                    let hit = map_is_final(&self.trie.map, self.addr);
                    proof {
                        assert(more + Seq::<u8>::empty() =~= more);
                        if hit {
                            assert(all.contains_key(more + Seq::<u8>::empty()));
                        } else if all.contains_key(more) {
                            assert(all.contains_key(more + Seq::<u8>::empty()));
                        }
                        assert(hit == all.contains_key(more));
                    }
                    if hit {
                        let last = map_final_output(&self.trie.map, self.addr);
                        return Some(self.output + last);
                    }
                },
            }
        }
        None
    }
}

/// Where no key of the node goes on with the next byte of the query, no longer
/// prefix of the query is a key.
proof fn lemma_no_more(
    all: Map<Seq<u8>, u64>,
    q: Seq<u8>,
    here: Map<Seq<u8>, u64>,
    done: Seq<u8>,
    pos: int,
    from: int,
)
    requires
        0 <= pos <= from,
        pos < q.len(),
        done == q.take(pos),
        no_way(here, q[pos]),
        forall|s: Seq<u8>|
            #![trigger all.contains_key(done + s)]
            all.contains_key(done + s) ==> here.contains_key(s),
    ensures
        prefix_ids(all, q, from) == Seq::<u64>::empty(),
    decreases q.len() - from,
{
    if from < q.len() {
        let key = q.take(from + 1);
        let rest = q.subrange(pos + 1, from + 1);
        assert(key =~= done + (seq![q[pos]] + rest));
        if all.contains_key(key) {
            assert(all.contains_key(done + (seq![q[pos]] + rest)));
            assert(here.contains_key(seq![q[pos]] + rest));
        }
        lemma_no_more(all, q, here, done, pos, from + 1);
    }
}

} // verus!
