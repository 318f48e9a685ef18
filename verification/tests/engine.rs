use hyphenation::case_folding::{realign, refold};
use hyphenation::dictionary::extended as ext;
use hyphenation::dictionary::trie::Trie;
use hyphenation::dictionary::{uniques, Builder, Exceptions, Locus, Patterns};
use hyphenation::hyphenator::{soft_hyphen_indices, Word};
use hyphenation::iter::{Hyphenating, Segments, SegmentsExt};
use hyphenation::load::LoadError;
use hyphenation::parse::{try_tally, Parse};
use hyphenation::pattern;
use hyphenation::score::Score;
use hyphenation::{Extended, Hyphenator, Iter, Language, Load, Standard};
use std::borrow::Cow;

fn as_is(s: &str) -> String {
    s.to_owned()
}

fn dictionary(lang: Language, patterns: &[&str], exceptions: &[&str]) -> Standard {
    let pairs: Vec<(String, Vec<Locus>)> =
        patterns.iter().map(|p| <Patterns as Parse>::pair(p, as_is)).collect();
    let patterns = Patterns::from_iter(pairs).ok().unwrap();
    let mut known = Exceptions::empty();
    for e in exceptions {
        known.insert(<Exceptions as Parse>::pair(e, as_is));
    }
    Standard::from(Builder { language: lang, patterns, exceptions: known })
}

fn extended_dictionary(lang: Language, patterns: &[&str]) -> Extended {
    let pairs: Vec<(String, ext::Tally)> =
        patterns.iter().map(|p| <ext::Patterns as Parse>::pair(p, as_is)).collect();
    let patterns = ext::Patterns::from_iter(pairs).ok().unwrap();
    Extended::from(ext::Builder { language: lang, patterns, exceptions: ext::Exceptions::empty() })
}

fn english() -> Standard {
    dictionary(
        Language::EnglishUS,
        &[
            "hy3ph", "y2p", "n1fr", "c1tu", "u1ou", "ap1i", "pi1t", "u1ci", "gi1no", "i1cr",
            "d1io", "i1bo", "u1cl", "e1as", "a1b", "pa2bl", "n1es", "é1l",
        ],
        &["hy-phen-a-tion", "bevies", "project", "an-iso-trop-ic"],
    )
}

fn british_firkin() -> Standard {
    dictionary(Language::EnglishGB, &[".fi2", "i2r", "r2k", "r5kin", "k1in", "k2in."], &[])
}

fn trie(pairs: &[(&str, u64)]) -> Trie {
    Trie::from_iter(pairs.iter().map(|(k, v)| (k.to_string(), *v)).collect()).ok().unwrap()
}

fn prefixes(trie: &Trie, query: &[u8]) -> Vec<u64> {
    let mut walk = trie.get_prefixes(query);
    let mut found = vec![];
    while let Some(id) = walk.next() {
        found.push(id);
    }
    found
}

fn locus(index: u8, value: u8) -> Locus {
    Locus { index, value }
}

#[test]
fn trie_yields_every_prefix_shortest_first() {
    let t = trie(&[("a", 7), ("ab", 1), ("abc", 20), ("abd", 3), ("b", 4)]);
    assert_eq!(prefixes(&t, b"abcd"), vec![7, 1, 20]);
    assert_eq!(prefixes(&t, b"abd"), vec![7, 1, 3]);
    assert_eq!(prefixes(&t, b"b"), vec![4]);
}

#[test]
fn trie_skips_prefixes_that_are_no_keys() {
    let t = trie(&[("abc", 5), ("abcde", 6)]);
    assert_eq!(prefixes(&t, b"abcdef"), vec![5, 6]);
    assert_eq!(prefixes(&t, b"ab"), Vec::<u64>::new());
}

#[test]
fn trie_of_empty_query_yields_nothing() {
    let t = trie(&[("a", 1)]);
    assert_eq!(prefixes(&t, b""), Vec::<u64>::new());
}

#[test]
fn trie_without_transition_ends_the_walk() {
    let t = trie(&[("a", 1), ("abc", 2)]);
    assert_eq!(prefixes(&t, b"x"), Vec::<u64>::new());
    assert_eq!(prefixes(&t, b"axc"), vec![1]);
}

#[test]
fn trie_walk_stays_finished() {
    let t = trie(&[("a", 1)]);
    let mut walk = t.get_prefixes(b"ab");
    assert_eq!(walk.next(), Some(1));
    assert_eq!(walk.next(), None);
    assert_eq!(walk.next(), None);
}

#[test]
fn trie_refuses_duplicate_keys() {
    let pairs = vec![("a".to_string(), 1), ("a".to_string(), 2)];
    assert!(Trie::from_iter(pairs).is_err());
}

#[test]
fn trie_refuses_keys_out_of_order() {
    let pairs = vec![("b".to_string(), 1), ("a".to_string(), 2)];
    assert!(Trie::from_iter(pairs).is_err());
}

#[test]
fn trie_of_nothing_is_built() {
    let t = Trie::from_iter(vec![]).ok().unwrap();
    assert_eq!(prefixes(&t, b"abc"), Vec::<u64>::new());
}

#[test]
fn trie_bytes_round_trip() {
    let t = trie(&[("a", 7), ("ab", 1)]);
    let bytes = t.as_bytes().to_vec();
    assert!(!bytes.is_empty());
    let again = Trie::from_bytes(bytes.clone()).ok().unwrap();
    assert_eq!(again.as_bytes(), &bytes[..]);
    assert_eq!(prefixes(&again, b"abc"), vec![7, 1]);
}

#[test]
fn trie_refuses_bytes_that_are_too_few() {
    assert!(Trie::from_bytes(vec![1, 2, 3]).is_err());
    assert!(Trie::from_bytes(stored(3, 0, 35)).is_err());
}

fn stored(version: u64, root: u64, length: usize) -> Vec<u8> {
    let mut bytes = vec![0u8; length];
    let head = length.min(8);
    bytes[..head].copy_from_slice(&version.to_le_bytes()[..head]);
    if length >= 36 {
        let end = if version <= 2 { length } else { length - 4 };
        bytes[end - 8..end].copy_from_slice(&root.to_le_bytes());
    }
    bytes
}

#[test]
fn trie_takes_bytes_by_their_version() {
    assert!(Trie::from_bytes(stored(0, 7, 40)).is_err());
    assert!(Trie::from_bytes(stored(1, 7, 40)).is_ok());
    assert!(Trie::from_bytes(stored(2, 7, 40)).is_ok());
    assert!(Trie::from_bytes(stored(3, 7, 40)).is_ok());
    assert!(Trie::from_bytes(stored(4, 7, 40)).is_err());
    assert!(Trie::from_bytes(stored(1 << 32, 7, 40)).is_err());
}

#[test]
fn trie_takes_bytes_without_a_root_only_where_there_is_no_key() {
    assert!(Trie::from_bytes(stored(3, 0, 36)).is_ok());
    assert!(Trie::from_bytes(stored(3, 0, 37)).is_err());
    assert!(Trie::from_bytes(stored(3, 0, 40)).is_err());
    assert!(Trie::from_bytes(stored(3, 1 << 40, 37)).is_ok());
    assert!(Trie::from_bytes(stored(2, 0, 36)).is_err());
    assert!(Trie::from_bytes(stored(1, 0, 40)).is_err());
    assert!(Trie::from_bytes(stored(2, 256, 36)).is_ok());
}

#[test]
fn trie_keeps_the_bytes_that_it_takes() {
    let bytes = stored(3, 0, 36);
    let taken = Trie::from_bytes(bytes.clone()).ok().unwrap();
    assert_eq!(taken.as_bytes(), &bytes[..]);
    let none = Trie::from_bytes(Trie::default().as_bytes().to_vec()).ok().unwrap();
    assert_eq!(prefixes(&none, b"abc"), Vec::<u64>::new());
    let kept = trie(&[("ab", 1), ("abc", 300), ("b", 2)]);
    let again = Trie::from_bytes(kept.as_bytes().to_vec()).ok().unwrap();
    assert_eq!(prefixes(&again, b"abcd"), vec![1, 300]);
    assert_eq!(prefixes(&again, b"b"), vec![2]);
    assert_eq!(prefixes(&again, b"c"), Vec::<u64>::new());
}

#[test]
fn uniques_sorts_keys_and_shares_tallies() {
    let pairs = vec![
        ("b".to_string(), vec![locus(1, 1)]),
        ("a".to_string(), vec![locus(0, 2)]),
        ("c".to_string(), vec![locus(1, 1)]),
    ];
    let (kvs, tallies) = uniques(pairs);
    assert_eq!(kvs, vec![("a".to_string(), 1), ("b".to_string(), 0), ("c".to_string(), 0)]);
    assert_eq!(tallies, vec![vec![locus(1, 1)], vec![locus(0, 2)]]);
}

#[test]
fn uniques_keeps_the_first_of_equal_keys() {
    let pairs = vec![
        ("a".to_string(), vec![locus(0, 1)]),
        ("a".to_string(), vec![locus(0, 3)]),
    ];
    let (kvs, tallies) = uniques(pairs);
    assert_eq!(kvs, vec![("a".to_string(), 0)]);
    assert_eq!(tallies, vec![vec![locus(0, 1)], vec![locus(0, 3)]]);
}

#[test]
fn pattern_tally_places_digits_between_letters() {
    assert_eq!(<Patterns as Parse>::tally("hy3ph"), vec![locus(2, 3)]);
    assert_eq!(<Patterns as Parse>::tally(".fi2"), vec![locus(3, 2)]);
    assert_eq!(<Patterns as Parse>::tally("1a2b3"), vec![locus(0, 1), locus(1, 2), locus(2, 3)]);
    assert_eq!(<Patterns as Parse>::tally("abc"), vec![]);
}

#[test]
fn pattern_letters_are_what_is_no_digit() {
    assert_eq!(<Patterns as Parse>::alphabetical("hy3ph"), "hyph");
    assert_eq!(<Patterns as Parse>::alphabetical(".é1l4"), ".él");
    assert_eq!(<Patterns as Parse>::value('7'), Some(7));
    assert_eq!(<Patterns as Parse>::value('a'), None);
}

#[test]
fn exception_tally_gives_byte_offsets() {
    assert_eq!(<Exceptions as Parse>::tally("hy-phen-a-tion"), vec![2, 6, 7]);
    assert_eq!(<Exceptions as Parse>::tally("bevies"), Vec::<usize>::new());
    assert_eq!(<Exceptions as Parse>::alphabetical("an-iso-trop-ic"), "anisotropic");
    assert_eq!(<Exceptions as Parse>::value('-'), Some(2));
    assert_eq!(<Exceptions as Parse>::value('1'), None);
}

#[test]
fn pair_reads_the_normalized_line() {
    let upper = |s: &str| s.to_uppercase();
    let (key, tally) = <Patterns as Parse>::pair("a1b", upper);
    assert_eq!(key, "AB");
    assert_eq!(tally, vec![locus(1, 1)]);
}

#[test]
fn extended_tally_reads_the_subregion() {
    let tally = <ext::Patterns as Parse>::tally("s1szo/sz=sz,1,3");
    assert_eq!(tally.standard, vec![locus(1, 1)]);
    let (at, region) = tally.subregion.unwrap();
    assert_eq!(at, locus(1, 1));
    assert_eq!(region.left, 1);
    assert_eq!(region.right, 2);
    assert_eq!(region.substitution, "szsz");
    assert_eq!(region.breakpoint, 2);
    assert_eq!(<ext::Patterns as Parse>::alphabetical("s1szo/sz=sz,1,3"), "sszo");
}

#[test]
fn extended_tally_counts_behind_a_leading_dot() {
    let tally = <ext::Patterns as Parse>::tally(".as1szo/sz=sz,2,3");
    let (at, region) = tally.subregion.unwrap();
    assert_eq!(at, locus(3, 1));
    assert_eq!((region.left, region.right), (1, 2));
}

#[test]
fn extended_tally_counts_bytes_of_wide_letters() {
    let tally = <ext::Patterns as Parse>::tally("é1ééa/e=e,1,3");
    let (at, region) = tally.subregion.unwrap();
    assert_eq!(at, locus(2, 1));
    assert_eq!((region.left, region.right), (2, 4));
    assert_eq!(region.substitution, "ee");
    assert_eq!(region.breakpoint, 1);
}

#[test]
fn extended_tally_without_extension_is_standard() {
    let tally = <ext::Patterns as Parse>::tally("a1la");
    assert_eq!(tally.standard, vec![locus(1, 1)]);
    assert_eq!(tally.subregion, None);
}

#[test]
fn extended_tally_is_none_for_what_cannot_be_read() {
    assert!(try_tally("s1szo/sz=sz,1,3").is_some());
    assert!(try_tally("s1szo/szsz,1,3").is_none());
    assert!(try_tally("s1szo/sz=sz").is_none());
    assert!(try_tally("s1szo/sz=sz,1").is_none());
    assert!(try_tally("s1szo/sz=sz,1,2,3").is_none());
    assert!(try_tally("s1szo/sz=sz,x,3").is_none());
    assert!(try_tally("s1szo/sz=sz,1,").is_none());
    assert!(try_tally("s1szo/sz=sz,1,4").is_none());
    assert!(try_tally("s1szo/sz=sz,9,1").is_none());
    assert!(try_tally("ss1zo/sz=sz,1,3").is_none());
    assert!(try_tally("s1szo/sz=sz,+1,3").is_some());
    assert!(try_tally("s1szo/sz=sz,1,99999999999999999999999999").is_none());
}

#[test]
fn score_takes_the_greatest_value_at_each_position() {
    let dict = british_firkin();
    assert_eq!(dict.score("firkin"), vec![0, 2, 5, 2, 0]);
    assert_eq!(dict.opportunities("firkin"), vec![3]);
}

#[test]
fn score_of_short_words_is_empty() {
    let dict = british_firkin();
    assert_eq!(dict.score(""), Vec::<u8>::new());
    assert_eq!(dict.score("k"), Vec::<u8>::new());
    assert_eq!(dict.score("ki"), vec![0]);
}

#[test]
fn score_leaves_the_dots_out() {
    let dict = dictionary(Language::EnglishUS, &["1ab", "ab1", ".a2", "2b."], &[]);
    assert_eq!(dict.score("ab"), vec![2]);
    assert_eq!(dict.score("abab"), vec![2, 1, 2]);
}

#[test]
fn odd_values_denote_opportunities() {
    assert!(<Standard as Score>::denotes_opportunity(1));
    assert!(<Standard as Score>::denotes_opportunity(5));
    assert!(!<Standard as Score>::denotes_opportunity(0));
    assert!(!<Standard as Score>::denotes_opportunity(4));
    assert!(<Extended as Score>::denotes_opportunity((3, None)));
    assert!(!<Extended as Score>::denotes_opportunity((2, None)));
}

#[test]
fn extended_score_keeps_a_subregion_against_an_equal_value() {
    let dict = extended_dictionary(Language::Hungarian, &["s1szo/sz=sz,1,3", "s1szon"]);
    let score = dict.score("asszony");
    assert_eq!(score[1].0, 1);
    assert_eq!(score[1].1.map(|r| r.substitution.as_str()), Some("szsz"));
    let dict = extended_dictionary(Language::Hungarian, &["s1szo/sz=sz,1,3", "s1s"]);
    let score = dict.score("asszony");
    assert_eq!(score[1].0, 1);
    assert!(score[1].1.is_none());
}

#[test]
fn extended_score_gives_way_to_a_greater_standard_value() {
    let dict = extended_dictionary(Language::Hungarian, &["s1szo/sz=sz,1,3", "s3s"]);
    let score = dict.score("asszony");
    assert_eq!(score[1].0, 3);
    assert!(score[1].1.is_none());
}

#[test]
fn extended_score_prefers_a_greater_subregion() {
    let dict = extended_dictionary(Language::Hungarian, &["s3szo/sz=sz,1,3", "s1s"]);
    let score = dict.score("asszony");
    assert_eq!(score[1].0, 3);
    assert_eq!(score[1].1.map(|r| r.right), Some(2));
}

#[test]
fn boundaries_are_byte_offsets_of_characters() {
    let dict = english();
    assert_eq!(dict.boundaries("hypha"), Some((2, 2)));
    assert_eq!(dict.boundaries("hyphenation"), Some((2, 8)));
    assert_eq!(dict.boundaries("éééééé"), Some((4, 6)));
    assert_eq!(dict.unbreakable_chars(), (2, 3));
}

#[test]
fn boundaries_of_short_words_are_none() {
    let dict = english();
    assert_eq!(dict.boundaries("hyph"), None);
    assert_eq!(dict.boundaries(""), None);
    assert_eq!(dict.opportunities("hyph"), Vec::<usize>::new());
    assert_eq!(dict.hyphenate("hyph").breaks, Vec::<usize>::new());
    assert_eq!(dict.exception("hyph"), None);
}

#[test]
fn boundaries_count_a_right_margin_of_none_as_one() {
    let mut dict = english();
    dict.minima = (1, 0);
    assert_eq!(dict.boundaries("abc"), Some((1, 2)));
    assert_eq!(dict.boundaries("a"), Some((1, 0)));
    dict.minima = (usize::MAX, 2);
    assert_eq!(dict.boundaries("abc"), None);
}

#[test]
fn opportunities_lie_within_the_margins() {
    let dict = dictionary(Language::EnglishUS, &["1a", "1b", "1é"], &[]);
    assert_eq!(dict.opportunities("ababab"), vec![2, 3]);
    assert_eq!(dict.opportunities("éaéaéa"), vec![3, 5]);
    assert_eq!(dict.opportunities_within("ababab", (0, 6)), vec![1, 2, 3, 4, 5]);
    assert_eq!(dict.opportunities_within("ababab", (4, 2)), Vec::<usize>::new());
}

#[test]
fn opportunities_fall_on_character_boundaries() {
    let dict = dictionary(Language::EnglishUS, &["é1l", "l1é"], &[]);
    let word = "aélélé";
    let found = dict.opportunities(word);
    assert_eq!(found, vec![3, 4]);
    assert!(found.iter().all(|&i| word.is_char_boundary(i) && 0 < i && i < word.len()));
}

#[test]
fn exceptions_take_the_place_of_patterns() {
    let dict = english();
    assert_eq!(dict.opportunities("project"), Vec::<usize>::new());
    assert_eq!(dict.hyphenate("project").breaks, Vec::<usize>::new());
    let segments: Vec<&str> = dict.hyphenate("project").into_iter().segments().collect();
    assert_eq!(segments, vec!["project"]);
    assert_eq!(dict.opportunities("anisotropic"), vec![2, 5]);
    assert_eq!(dict.exception("anfractuous"), None);
}

#[test]
fn exceptions_can_be_added_and_removed() {
    let mut dict = english();
    assert_eq!(dict.hyphenate("anfractuous").breaks, vec![2, 6, 8]);
    assert_eq!(dict.add_exception("anfractuous".to_string(), vec![4]), None);
    assert_eq!(dict.hyphenate("anfractuous").breaks, vec![4]);
    assert_eq!(dict.hyphenate("ANFRACTUOUS").breaks, vec![4]);
    assert_eq!(dict.add_exception("anfractuous".to_string(), vec![2, 4]), Some(vec![4]));
    assert_eq!(dict.remove_exception("anfractuous"), Some(vec![2, 4]));
    assert_eq!(dict.remove_exception("anfractuous"), None);
    assert_eq!(dict.hyphenate("anfractuous").breaks, vec![2, 6, 8]);
}

#[test]
fn extended_exceptions_can_be_added_and_removed() {
    let mut dict = extended_dictionary(Language::Hungarian, &["s1szo/sz=sz,1,3"]);
    let region = ext::Subregion {
        left: 1,
        right: 2,
        substitution: "szsz".to_string(),
        breakpoint: 2,
    };
    let known = vec![(2, Some(region.clone())), (9, None)];
    assert_eq!(dict.add_exception("asszony".to_string(), known.clone()), None);
    assert_eq!(dict.exception_within("asszony", (0, 7)), Some(vec![(2, Some(&region))]));
    assert_eq!(dict.opportunities("asszony"), vec![(2, Some(&region))]);
    assert_eq!(dict.remove_exception("asszony"), Some(known));
    assert_eq!(dict.exception_within("asszony", (0, 7)), None);
}

#[test]
fn exception_map_keeps_the_last_breaks() {
    let mut known = Exceptions::empty();
    assert_eq!(known.insert(("table".to_string(), vec![2])), None);
    assert_eq!(known.insert(("table".to_string(), vec![3])), Some(vec![2]));
    assert_eq!(known.score("TABLE"), Some(&vec![3]));
    assert_eq!(known.score("chair"), None);
}

#[test]
fn soft_hyphens_are_found_at_their_byte_offsets() {
    assert_eq!(soft_hyphen_indices("ribonuclease"), None);
    assert_eq!(soft_hyphen_indices(""), None);
    assert_eq!(
        soft_hyphen_indices("ri\u{ad}bo\u{ad}nu\u{ad}cle\u{ad}ase"),
        Some(vec![2, 6, 10, 15])
    );
    assert_eq!(soft_hyphen_indices("\u{ad}é\u{ad}"), Some(vec![0, 4]));
}

#[test]
fn soft_hyphens_take_priority() {
    let dict = english();
    let word = "ribonuclease";
    let word_shy = "ri\u{00ad}bo\u{00ad}nu\u{00ad}cle\u{00ad}ase";

    let by_dictionary: Vec<&str> = dict.hyphenate(word).into_iter().segments().collect();
    let by_shy: Vec<&str> = dict.hyphenate(word_shy).into_iter().segments().collect();

    assert_eq!(by_dictionary, vec!["ri", "bonu", "cle", "ase"]);
    assert_eq!(by_shy, vec!["ri", "\u{00ad}bo", "\u{00ad}nu", "\u{00ad}cle", "\u{00ad}ase"]);
    assert_eq!(dict.hyphenate(word_shy).breaks, vec![2, 6, 10, 15]);
}

#[test]
fn soft_hyphens_carry_no_subregion() {
    let dict = extended_dictionary(Language::Hungarian, &["s1szo/sz=sz,1,3"]);
    let word = dict.hyphenate("asz\u{ad}szony");
    assert_eq!(word.breaks, vec![(3, None)]);
    let segments: Vec<_> = word.into_iter().segments().collect();
    assert_eq!(segments, vec!["asz", "\u{ad}szony"]);
}

#[test]
fn refold_leaves_lowercase_words_alone() {
    let (folded, shifts) = refold("hyphenation");
    assert!(matches!(folded, Cow::Borrowed("hyphenation")));
    assert!(shifts.is_empty());
}

#[test]
fn refold_lowercases_words_of_the_same_length() {
    let (folded, shifts) = refold("CAPITAL");
    assert_eq!(folded, "capital");
    assert!(shifts.is_empty());
    let (folded, shifts) = refold("Ärger");
    assert_eq!(folded, "ärger");
    assert!(shifts.is_empty());
}

#[test]
fn refold_replaces_the_dotted_capital() {
    let (folded, shifts) = refold("İDİOM");
    assert_eq!(folded, "idiom");
    assert_eq!(shifts.len(), 2);
    assert_eq!((shifts[0].index, shifts[0].delta), (0, -1));
    assert_eq!((shifts[1].index, shifts[1].delta), (2, -2));
}

#[test]
fn realign_brings_offsets_back() {
    let (_, shifts) = refold("MUCİLAGİNOUS");
    assert_eq!(realign(0, &shifts), 0);
    assert_eq!(realign(2, &shifts), 2);
    assert_eq!(realign(3, &shifts), 3);
    assert_eq!(realign(4, &shifts), 5);
    assert_eq!(realign(7, &shifts), 8);
    assert_eq!(realign(8, &shifts), 10);
    assert_eq!(realign(12, &shifts), 14);
    assert_eq!(realign(5, &[]), 5);
}

#[test]
fn try_hyphenate_agrees_with_hyphenate() {
    let dict = english();
    for word in ["anfractuous", "MUCİLAGİNOUS", "ri\u{ad}bo", "", "project"] {
        let tried = dict.try_hyphenate(word).unwrap();
        assert_eq!(tried, dict.hyphenate(word));
    }
}

#[test]
fn segments_of_a_word_without_breaks_are_the_word() {
    let word = Word { text: "", breaks: Vec::<usize>::new() };
    let segments: Vec<&str> = word.iter().segments().collect();
    assert_eq!(segments, vec![""]);
    let mut marked = word.iter();
    assert_eq!(marked.size_hint(), (1, Some(1)));
    assert_eq!(marked.next(), Some("".to_string()));
    assert_eq!(marked.next(), None);
    assert_eq!(marked.size_hint(), (0, Some(0)));
}

#[test]
fn segments_join_to_the_word() {
    let dict = english();
    for word in ["anfractuous", "hyphenation", "ri\u{ad}bo\u{ad}nu", "MUCİLAGİNOUS", "a", ""] {
        let hyphenated = dict.hyphenate(word);
        assert!(hyphenated.is_valid());
        let joined: String = hyphenated.iter().segments().collect().concat();
        assert_eq!(joined, word);
    }
}

#[test]
fn segments_can_be_taken_one_by_one() {
    let mut segments = Segments::new("anfractuous", vec![2, 6, 8]);
    assert_eq!(segments.len(), 4);
    assert_eq!(segments.next(), Some("an"));
    assert_eq!(segments.next(), Some("frac"));
    assert_eq!(segments.size_hint(), (2, Some(2)));
    assert_eq!(segments.next(), Some("tu"));
    assert_eq!(segments.next(), Some("ous"));
    assert_eq!(segments.next(), None);
    assert_eq!(segments.next(), None);
}

#[test]
fn breaks_at_the_ends_give_empty_segments() {
    let segments: Vec<&str> = Segments::new("abc", vec![0, 3, 3]).collect();
    assert_eq!(segments, vec!["", "abc", "", ""]);
}

#[test]
fn words_tell_whether_their_breaks_can_cut_them() {
    assert!(Word { text: "aéb", breaks: vec![1, 3] }.is_valid());
    assert!(Word { text: "aéb", breaks: vec![0, 4] }.is_valid());
    assert!(!Word { text: "aéb", breaks: vec![2] }.is_valid());
    assert!(!Word { text: "aéb", breaks: vec![3, 1] }.is_valid());
    assert!(!Word { text: "aéb", breaks: vec![5] }.is_valid());
}

#[test]
fn breaks_of_words_that_change_length_in_lowercase_may_miss_the_boundaries() {
    let dict = dictionary(Language::EnglishUS, &["k1n"], &[]);
    let word = "a\u{212a}nfrac";
    let hyphenated = dict.hyphenate(word);
    assert_eq!(hyphenated.breaks, vec![2]);
    assert!(!hyphenated.is_valid());
}

#[test]
fn extended_words_tell_whether_their_breaks_can_cut_them() {
    let ssz = ext::Subregion { left: 1, right: 2, substitution: "szsz".to_string(), breakpoint: 2 };
    assert!(Word { text: "asszony", breaks: vec![(2, Some(&ssz))] }.is_valid());
    assert!(Word { text: "asszony", breaks: vec![(2, Some(&ssz)), (5, None)] }.is_valid());
    assert!(!Word { text: "asszony", breaks: vec![(2, Some(&ssz)), (3, None)] }.is_valid());
    assert!(!Word { text: "asszony", breaks: vec![(0, Some(&ssz))] }.is_valid());
    assert!(!Word { text: "asszony", breaks: vec![(6, Some(&ssz))] }.is_valid());
    assert!(!Word { text: "aßzony", breaks: vec![(3, Some(&ssz))] }.is_valid());
    let odd = ext::Subregion { left: 0, right: 0, substitution: "é".to_string(), breakpoint: 1 };
    assert!(!Word { text: "asszony", breaks: vec![(2, Some(&odd))] }.is_valid());
    assert!(Word { text: "", breaks: Vec::<(usize, Option<&ext::Subregion>)>::new() }.is_valid());
}

#[test]
fn empty_tries_and_patterns_come_by_default() {
    assert_eq!(prefixes(&Trie::default(), b"abc"), Vec::<u64>::new());
    let dict = Standard::from(Builder {
        language: Language::Latin,
        patterns: Patterns::default(),
        exceptions: Exceptions::default(),
    });
    assert_eq!(dict.hyphenate("lorem").breaks, Vec::<usize>::new());
    assert_eq!(dict.score("lorem"), vec![0, 0, 0, 0]);
}

#[test]
fn marks_follow_every_segment_but_the_last() {
    let dict = english();
    let hyphenated = dict.hyphenate("hyphenation");
    let mut marked = hyphenated.iter();
    marked.mark_with("\u{ad}");
    assert_eq!(marked.len(), 4);
    let punctuated: String = marked.collect().concat();
    assert_eq!(punctuated, "hy\u{ad}phen\u{ad}a\u{ad}tion");
}

#[test]
fn marked_length_counts_one_mark_for_each_break() {
    let dict = english();
    for word in ["anfractuous", "hyphenation", "project", "MUCİLAGİNOUS", "aélélé"] {
        let hyphenated = dict.hyphenate(word);
        let mut marked = hyphenated.iter();
        marked.mark_with("\u{ad}");
        let punctuated: String = marked.collect().concat();
        assert_eq!(punctuated.chars().count(), word.chars().count() + hyphenated.breaks.len());
        let mut marked = hyphenated.iter();
        marked.mark_with("=·=");
        let punctuated: String = marked.collect().concat();
        assert_eq!(
            punctuated.chars().count(),
            word.chars().count() + 3 * hyphenated.breaks.len()
        );
    }
}

#[test]
fn marking_twice_can_be_undone() {
    let dict = english();
    let word = "anfractuous";
    let mut first = dict.hyphenate(word).into_iter();
    first.mark_with("·");
    let once: String = first.collect().concat();
    assert_eq!(once, "an·frac·tu·ous");
    let mut second = dict.hyphenate(&once).into_iter();
    second.mark_with("\u{ad}");
    let twice: String = second.collect().concat();
    assert_eq!(twice.replace('\u{ad}', "").replace('·', ""), word);
}

#[test]
fn hyphenating_gives_its_segments_back() {
    let marked = Hyphenating::new(Segments::new("abcd", vec![2]));
    let plain: Vec<&str> = marked.segments().collect();
    assert_eq!(plain, vec!["ab", "cd"]);
    let marked: Vec<String> = Hyphenating::new(Segments::new("abcd", vec![2])).collect();
    assert_eq!(marked, vec!["ab-", "cd"]);
}

#[test]
fn extended_segments_change_letters_around_a_break() {
    let ssz = ext::Subregion { left: 1, right: 2, substitution: "szsz".to_string(), breakpoint: 2 };
    let mut segments = SegmentsExt::new("asszony", vec![(2, Some(&ssz))]);
    assert_eq!(segments.size_hint(), (2, Some(2)));
    assert_eq!(segments.next(), Some(Cow::Borrowed("asz")));
    assert_eq!(segments.size_hint(), (1, Some(1)));
    assert_eq!(segments.next(), Some(Cow::Borrowed("szony")));
    assert_eq!(segments.next(), None);
    assert_eq!(segments.size_hint(), (0, Some(0)));
}

#[test]
fn extended_segments_without_subregion_are_borrowed() {
    let mut segments = SegmentsExt::new("alma", vec![(2, None)]);
    assert!(matches!(segments.next(), Some(Cow::Borrowed("al"))));
    assert!(matches!(segments.next(), Some(Cow::Borrowed("ma"))));
    assert_eq!(segments.next(), None);
}

#[test]
fn extended_segments_queue_nothing_behind_the_breakpoint() {
    let cut = ext::Subregion { left: 1, right: 1, substitution: "x".to_string(), breakpoint: 1 };
    let segments: Vec<_> = SegmentsExt::new("abcd", vec![(2, Some(&cut)), (3, None)]).collect();
    assert_eq!(segments, vec!["ax", "c", "d"]);
}

#[test]
fn extended_marks_follow_every_segment_but_the_last() {
    let dict = extended_dictionary(
        Language::Hungarian,
        &["s1szo/sz=sz,1,3", "n1nya/ny=ny,1,3"],
    );
    let marked: Vec<String> = dict.hyphenate("asszonnyal").into_iter().collect();
    assert_eq!(marked, vec!["asz-", "szony-", "nyal"]);
    let upper: Vec<_> = dict.hyphenate("ASSZONNYAL").into_iter().segments().collect();
    assert_eq!(upper, vec!["Asz", "szOny", "nyAL"]);
}

#[test]
fn languages_have_codes_and_margins() {
    assert_eq!(Language::EnglishUS.code(), "en-us");
    assert_eq!(Language::EnglishUS.minima(), (2, 3));
    assert_eq!(Language::GreekAncient.code(), "grc");
    assert_eq!(Language::GreekAncient.minima(), (1, 1));
    assert_eq!(Language::Hungarian.code(), "hu");
    assert_eq!(Language::Hungarian.minima(), (2, 2));
    assert_eq!(Language::Sanskrit.minima(), (1, 3));
    assert_eq!(Language::Chinese.code(), "zh-latn-pinyin");
    assert_eq!(Language::Welsh.name(), "Welsh");
    assert_eq!(english().language(), Language::EnglishUS);
}

#[test]
fn dictionaries_take_the_margins_of_their_language() {
    let dict = dictionary(Language::Sanskrit, &["1a"], &[]);
    assert_eq!(dict.minima, (1, 3));
    assert_eq!(dict.unbreakable_chars(), (1, 3));
    let dict = extended_dictionary(Language::Catalan, &["1a"]);
    assert_eq!(dict.minima, (2, 2));
    assert_eq!(dict.language(), Language::Catalan);
}

#[test]
fn expected_language_is_checked() {
    let dict = dictionary(Language::Ethiopic, &["1a"], &[]);
    match Standard::expecting(Language::EnglishUS, dict) {
        Err(LoadError::LanguageMismatch { expected, found }) => {
            assert_eq!(expected, Language::EnglishUS);
            assert_eq!(found, Language::Ethiopic);
        }
        _ => panic!("the mismatch went unnoticed"),
    }
    let dict = dictionary(Language::Ethiopic, &["1a"], &[]);
    assert!(Standard::expecting(Language::Ethiopic, dict).is_ok());
    let dict = extended_dictionary(Language::Hungarian, &["1a"]);
    assert!(Extended::expecting(Language::Catalan, dict).is_err());
}

#[test]
fn load_errors_say_what_went_wrong() {
    let mismatch =
        LoadError::LanguageMismatch { expected: Language::EnglishUS, found: Language::Ethiopic };
    assert_eq!(
        mismatch.message(),
        "Language mismatch: attempted to load a dictionary for `EnglishUS`, but found\n\
         a dictionary for `Ethiopic` instead."
    );
    assert_eq!(LoadError::Resource.message(), "the embedded dictionary could not be retrieved");
    assert_eq!(LoadError::IO.message(), "the dictionary could not be read");
    assert_eq!(LoadError::Deserialization.message(), "the dictionary could not be deserialized");
}

#[test]
fn dictionaries_are_kept_under_the_code_of_their_language() {
    assert_eq!(Standard::resource_name(Language::EnglishUS), "en-us.standard.bincode");
    assert_eq!(Extended::resource_name(Language::Hungarian), "hu.extended.bincode");
}

fn letter_trie(pairs: &[(&str, &[u8])]) -> pattern::Patterns {
    let mut trie = pattern::Patterns::empty();
    for (letters, tally) in pairs {
        trie.insert((letters.to_string(), tally.to_vec()));
    }
    trie
}

#[test]
fn letter_trie_gives_the_old_tally_back() {
    let mut trie = pattern::Patterns::empty();
    assert_eq!(trie.insert(("ab".to_string(), vec![0, 1, 0])), None);
    assert_eq!(trie.insert(("a".to_string(), vec![2, 0])), None);
    assert_eq!(trie.insert(("ab".to_string(), vec![0, 3, 0])), Some(vec![0, 1, 0]));
    assert_eq!(trie.insert(("".to_string(), vec![9])), None);
    assert_eq!(trie.insert(("".to_string(), vec![8])), Some(vec![9]));
    assert_eq!(trie.tally, Some(vec![8]));
    assert_eq!(trie.descendants.len(), 1);
    assert_eq!(trie.descendants[0].0, 'a');
    assert_eq!(trie.descendants[0].1.tally, Some(vec![2, 0]));
    assert_eq!(trie.descendants[0].1.descendants[0].1.tally, Some(vec![0, 3, 0]));
}

#[test]
fn letter_trie_scores_by_the_greatest_value() {
    let trie = letter_trie(&[
        (".fi", &[0, 0, 0, 2]),
        ("ir", &[0, 2, 0]),
        ("rk", &[0, 2, 0]),
        ("rkin", &[0, 5, 0, 0, 0]),
        ("kin", &[0, 1, 0, 0]),
        ("kin.", &[0, 2, 0, 0, 0]),
    ]);
    assert_eq!(trie.score("firkin"), vec![0, 2, 5, 2, 0]);
    assert_eq!(trie.score("FIRKIN"), vec![0, 2, 5, 2, 0]);
    assert_eq!(trie.score("kin"), vec![2, 0]);
    assert_eq!(trie.score("k"), Vec::<u8>::new());
    assert_eq!(trie.score(""), Vec::<u8>::new());
}

#[test]
fn letter_trie_counts_characters() {
    let trie = letter_trie(&[("é", &[0, 1]), ("lé", &[3, 0, 0])]);
    assert_eq!(trie.score("été"), vec![1, 0]);
    assert_eq!(trie.score("élé"), vec![3, 0]);
}
