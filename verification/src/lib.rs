//! A library for the hyphenation of UTF-8 strings
//!
//! Words are hyphenated by Knuth–Liang patterns, with Németh's extension
//! for orthographies whose letters change around a break. What each function
//! returns is stated in its contract and proved with Verus.
//!
//! ## Usage
//!
//! A typical import comprises the [`Hyphenator`] trait, the [`Standard`]
//! dictionary type, and the [`Language`] enum. A dictionary is built from
//! patterns and exceptions, or taken from its stored parts.
//!
//! ```ignore
//! use hyphenation::dictionary::{Builder, Exceptions, Patterns};
//! use hyphenation::parse::Parse;
//! use hyphenation::{Hyphenator, Iter, Language, Standard};
//!
//! let pairs = ["n1fr", "c1tu", "u1ou"].iter().map(|p| Patterns::pair(p, str::to_owned));
//! let en_us = Standard::from(Builder {
//!     language: Language::EnglishUS,
//!     patterns: Patterns::from_iter(pairs.collect()).unwrap(),
//!     exceptions: Exceptions::empty(),
//! });
//! ```
//!
//! ### Hyphenators
//!
//! As the primary interface of this library, hyphenators take care of seeking
//! out opportunities for hyphenation within individual words.
//!
//! ```ignore
//! let hyphenated = en_us.hyphenate("anfractuous");
//! assert_eq!(hyphenated.breaks, &[2, 6, 8]);
//!
//! let segments: Vec<String> = hyphenated.iter().collect();
//! assert_eq!(segments, &["an-", "frac-", "tu-", "ous"]);
//! ```
//!
//! The [`hyphenate`] method computes the byte offsets of valid word breaks and
//! wraps them in a small intermediate structure that can be cut into word
//! segments. Both the [`Standard`] and [`Extended`] hyphenators are
//! case-insensitive and prioritize existing soft hyphens (U+00AD) over
//! dictionary hyphenation.
//!
//! ## Identifying "words"
//!
//! Knuth–Liang hyphenation operates at the level of individual words, but there
//! can be ambiguity as to what constitutes a *word*. It is generally preferable
//! to handle punctuation at the level of segmentation, as it affords greater
//! control over the final result (such as where to break hyphen-joined
//! compounds, or whether to set a leading hyphen on new lines).
//!
//! [`hyphenate`]: hyphenator::Hyphenator::hyphenate

pub mod case_folding;
pub mod dictionary;
pub mod hyphenator;
pub mod iter;
pub mod language;
pub mod laws;
pub mod load;
pub mod parse;
pub mod pattern;
pub mod score;
pub mod text;

pub use dictionary::extended::Extended;
pub use dictionary::Standard;
pub use hyphenator::Hyphenator;
pub use iter::Iter;
pub use language::Language;
pub use load::Load;
