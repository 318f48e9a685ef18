use hyphenation::dictionary::extended as ext;
use hyphenation::dictionary::{Builder, Exceptions, Locus, Patterns};
use hyphenation::parse::Parse;
use hyphenation::{Extended, Hyphenator, Iter, Language, Load, Standard};
use quickcheck::{quickcheck, TestResult};
use unicode_segmentation::UnicodeSegmentation;

fn verbatim(s: &str) -> String {
    s.to_owned()
}

fn standard(lang: Language, patterns: &[&str], exceptions: &[&str]) -> Standard {
    let pairs: Vec<(String, Vec<Locus>)> =
        patterns.iter().map(|p| <Patterns as Parse>::pair(p, verbatim)).collect();
    let patterns = Patterns::from_iter(pairs).ok().unwrap();
    let mut known = Exceptions::empty();
    for e in exceptions {
        known.insert(<Exceptions as Parse>::pair(e, verbatim));
    }
    Standard::from(Builder { language: lang, patterns, exceptions: known })
}

fn extended(lang: Language, patterns: &[&str]) -> Extended {
    let pairs: Vec<(String, ext::Tally)> =
        patterns.iter().map(|p| <ext::Patterns as Parse>::pair(p, verbatim)).collect();
    let patterns = ext::Patterns::from_iter(pairs).ok().unwrap();
    Extended::from(ext::Builder { language: lang, patterns, exceptions: ext::Exceptions::empty() })
}

fn en_us() -> Standard {
    standard(
        Language::EnglishUS,
        &[
            "hy3ph", "y2p", "n1fr", "c1tu", "u1ou", "ap1i", "pi1t", "u1ci", "gi1no", "i1cr",
            "d1io", "o1bl", "c1ce", "n1es", "a1b", "pa2bl", "rn1in", "l1ph", "n1co", "n1su",
            "i1bo", "u1cl", "e1as", "4m1p", "1tio", "e2ve",
        ],
        &[
            "as-so-ciate", "as-so-ciates", "dec-li-na-tion", "oblig-a-tory", "phil-an-thropic",
            "present", "presents", "project", "projects", "reci-procity", "re-cog-ni-zance",
            "ref-or-ma-tion", "ret-ri-bu-tion", "ta-ble", "hy-phen-a-tion", "bevies",
            "an-iso-trop-ic",
        ],
    )
}

fn hu() -> Extended {
    extended(
        Language::Hungarian,
        &["s1szo/sz=sz,1,3", "s1szé/sz=sz,1,3", "n1nya/ny=ny,1,3", "a1la", "2l."],
    )
}

fn tr() -> Standard {
    standard(Language::Turkish, &["b1r", "a1h", "l1g", "2h."], &[])
}

#[test]
fn collected_equals_original() {
    fn property(original: String) -> bool {
        let en_us = en_us();
        let collected: String = en_us.hyphenate(&original).iter().segments().collect().concat();

        collected == original
    }

    quickcheck(property as fn(String) -> bool);
}

#[test]
fn opportunities_within_bounds() {
    fn property(s: String) -> TestResult {
        let en_us = en_us();
        let ci: Vec<_> = s.char_indices().collect();
        let (l_min, r_min) = Language::EnglishUS.minima();
        let s_len = ci.len();
        if s_len < l_min + r_min {
            return TestResult::discard();
        }

        let os: Vec<_> = en_us.opportunities(&s);
        let ((l, _), (r, _)) = (ci[l_min], ci[s_len - r_min]);
        let within_bounds = |&i: &usize| i >= l && i <= r;

        TestResult::from_bool(os.iter().all(within_bounds))
    }

    quickcheck(property as fn(String) -> TestResult);
}

#[test]
fn basics_standard() {
    let en_us = en_us();
    // Standard hyphenation
    let w0 = "anfractuous";
    let w1 = "hypha"; // minimum hyphenable length
    // Exceptions
    let ex0 = "hyphenation";
    let ex1 = "bevies"; // unhyphenable (by exception)

    let h_w0 = en_us.hyphenate(w0);
    let h_w1 = en_us.hyphenate(w1);
    let h_ex0 = en_us.hyphenate(ex0);
    let h_ex1 = en_us.hyphenate(ex1);

    let seg0 = h_w0.iter().segments();
    let seg1 = h_ex0.iter().segments();
    let seg2 = h_ex1.iter().segments();
    let seg3 = h_w1.iter().segments();

    assert_eq!(seg0.size_hint(), (4, Some(4)));
    assert_eq!(seg1.size_hint(), (4, Some(4)));
    assert_eq!(seg2.size_hint(), (1, Some(1)));
    assert_eq!(seg3.size_hint(), (2, Some(2)));

    let v0: Vec<&str> = seg0.clone().collect();
    let v1: Vec<&str> = seg1.clone().collect();
    let v2: Vec<&str> = seg2.clone().collect();
    let v3: Vec<&str> = seg3.clone().collect();

    assert_eq!(v0, vec!["an", "frac", "tu", "ous"]);
    assert_eq!(v1, vec!["hy", "phen", "a", "tion"]);
    assert_eq!(v2, vec!["bevies"]);
    assert_eq!(v3, vec!["hy", "pha"]);

    // Additional size checks for partially consumed iterators.
    let mut seg2 = seg2;
    seg2.next();
    assert_eq!(seg2.size_hint(), (0, Some(0)));
    seg2.next();
    assert_eq!(seg2.size_hint(), (0, Some(0)));

    let mut seg3 = seg3;
    seg3.next();
    assert_eq!(seg3.size_hint(), (1, Some(1)));
    seg3.next();
    assert_eq!(seg3.size_hint(), (0, Some(0)));
}

#[test]
fn basics_extended() {
    let hu = hu();
    let w0 = "asszonnyal";
    let w1 = "esszé";

    let v0: Vec<_> = hu.hyphenate(w0).into_iter().segments().collect();
    let v1: Vec<_> = hu.hyphenate(w1).into_iter().segments().collect();

    assert_eq!(v0, vec!["asz", "szony", "nyal"]);
    assert_eq!(v1, vec!["esz", "szé"]);
}

#[test]
fn special_casing() {
    let en_us = en_us();
    let tr = tr();
    let w0 = "İbrahim";
    let v0: Vec<_> = tr.hyphenate(&w0).into_iter().segments().collect();
    assert_eq!(v0, vec!["İb", "ra", "him"]);

    let w1 = "İLGİNÇ";
    let v1: Vec<_> = tr.hyphenate(w1).into_iter().segments().collect();
    assert_eq!(v1, vec!["İL", "GİNÇ"]);

    let w2 = "MİCRO";
    let v2: Vec<_> = en_us.hyphenate(w2).into_iter().segments().collect();
    assert_eq!(v2, vec!["Mİ", "CRO"]);

    let w4 = "İDİOM";
    let v4: Vec<_> = en_us.hyphenate(w4).into_iter().segments().collect();
    assert_eq!(v4, vec!["İD", "İOM"]);

    let w3 = "MUCİLAGİNOUS";
    let v3: Vec<_> = en_us.hyphenate(w3).into_iter().segments().collect();
    assert_eq!(v3, vec!["MU", "CİLAGİ", "NOUS"]);
}

#[test]
fn language_mismatch_on_load() {
    let ethiopic = standard(Language::Ethiopic, &["1a"], &[]);
    assert!(Standard::expecting(Language::EnglishUS, ethiopic).is_err());
}

#[test]
fn text() {
    let en_us = en_us();
    let hyphenate_text = |text: &str| -> String {
        text.split_word_bounds()
            .flat_map(|word| en_us.hyphenate(word).into_iter().collect())
            .collect()
    };

    let t0 = "I know noble accents / And lucid, inescapable rhythms; […]";
    let expect0 = "I know no-ble ac-cents / And lu-cid, in-escapable rhythms; […]";
    let seg0 = hyphenate_text(t0);
    assert_eq!(seg0, expect0);

    let t1 = "ever-burning sulphur unconsumed";
    let expect1 = "ever-burn-ing sul-phur un-con-sumed";
    let seg1 = hyphenate_text(t1);
    assert_eq!(seg1, expect1);
}

#[test]
fn bounded_exception() {
    let en_us = en_us();
    let e = "anisotropic"; // an-iso-trop-ic, by exception

    let bounded = en_us.exception(e);
    let unbounded = en_us.exception_within(e, (0, e.len()));

    assert_eq!(bounded, Some(vec![2, 5]));
    assert_eq!(unbounded, Some(vec![2, 5, 9]));
}

#[test]
fn readme_examples() {
    let en_us = en_us();
    let hyphenated = en_us.hyphenate("hyphenation");

    let break_indices = &hyphenated.breaks;
    assert_eq!(break_indices, &[2, 6, 7]);

    let marked = hyphenated.iter();
    let collected: Vec<String> = marked.collect();
    assert_eq!(collected, vec!["hy-", "phen-", "a-", "tion"]);

    let unmarked = hyphenated.iter().segments();
    let collected: Vec<&str> = unmarked.collect();
    assert_eq!(collected, vec!["hy", "phen", "a", "tion"]);

    let uppercase: Vec<_> = en_us.hyphenate("CAPITAL").into_iter().segments().collect();
    assert_eq!(uppercase, vec!["CAP", "I", "TAL"]);
}
