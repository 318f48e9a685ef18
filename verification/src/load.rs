//! # Reading and loading hyphenation dictionaries
//!
//! To hyphenate words in a given language, it is first necessary to load
//! the relevant hyphenation dictionary into memory. What is decided on the
//! way is decided here: whether a dictionary that was read is the one that
//! was asked for, and under which name a dictionary is kept.

use crate::dictionary::extended::Extended;
use crate::dictionary::Standard;
use crate::language::Language;
use vstd::prelude::*;
use vstd::string::*;

verus! {

/// Failure modes of dictionary loading.
#[derive(Debug)]
pub enum LoadError {
    /// The dictionary could not be deserialized.
    Deserialization,
    /// The dictionary could not be read.
    IO,
    /// The loaded dictionary is for the wrong language.
    LanguageMismatch { expected: Language, found: Language },
    /// The embedded dictionary could not be retrieved.
    Resource,
}

/// What the error says of a dictionary for the wrong language.
pub open spec fn mismatch_message(expected: Language, found: Language) -> Seq<char> {
    "Language mismatch: attempted to load a dictionary for `"@ + expected.spec_name()
        + "`, but found\na dictionary for `"@ + found.spec_name() + "` instead."@
}

impl LoadError {
    /// What the error says.
    pub open spec fn spec_message(&self) -> Seq<char> {
        match *self {
            LoadError::Deserialization => "the dictionary could not be deserialized"@,
            LoadError::IO => "the dictionary could not be read"@,
            LoadError::LanguageMismatch { expected, found } => mismatch_message(expected, found),
            LoadError::Resource => "the embedded dictionary could not be retrieved"@,
        }
    }

    /// What the error says.
    pub fn message(&self) -> (r: String)
        ensures
            r@ == self.spec_message(),
    {
        match *self {
            LoadError::Deserialization => "the dictionary could not be deserialized".to_owned(),
            LoadError::IO => "the dictionary could not be read".to_owned(),
            LoadError::LanguageMismatch { expected, found } => {
                let mut r = "Language mismatch: attempted to load a dictionary for `".to_owned();
                r.append(expected.name());
                r.append("`, but found\na dictionary for `");
                r.append(found.name());
                r.append("` instead.");
                r
            },
            LoadError::Resource => "the embedded dictionary could not be retrieved".to_owned(),
        }
    }
}

/// Convenience methods for the retrieval of hyphenation dictionaries.
pub trait Load: Sized {
    /// The language of the dictionary.
    spec fn speaks(&self) -> Language;

    /// The dictionary as it was read, if it belongs to the expected language.
    fn expecting(lang: Language, dict: Self) -> (r: Result<Self, LoadError>)
        ensures
            dict.speaks() == lang ==> r == Ok::<Self, LoadError>(dict),
            dict.speaks() != lang ==> r == Err::<Self, LoadError>(
                LoadError::LanguageMismatch { expected: lang, found: dict.speaks() },
            ),
    ;

    /// The kind of the dictionary, as the names of dictionaries give it.
    spec fn spec_suffix() -> Seq<char>;

    /// The kind of the dictionary, as the names of dictionaries give it.
    fn suffix() -> (r: &'static str)
        ensures
            r@ == Self::spec_suffix(),
    ;

    /// The name under which the dictionary of the language is kept.
    fn resource_name(lang: Language) -> (r: String)
        ensures
            r@ == lang.spec_code() + "."@ + Self::spec_suffix() + ".bincode"@,
    {
        let mut r = lang.code().to_owned();
        r.append(".");
        r.append(Self::suffix());
        r.append(".bincode");
        r
    }
}

impl Load for Standard {
    open spec fn speaks(&self) -> Language {
        self.language
    }

    fn expecting(lang: Language, dict: Self) -> (r: Result<Self, LoadError>) {
        let (found, expected) = (dict.language(), lang);
        if found != expected {
            Err(LoadError::LanguageMismatch { expected, found })
        } else {
            Ok(dict)
        }
    }

    open spec fn spec_suffix() -> Seq<char> {
        "standard"@
    }

    fn suffix() -> (r: &'static str) {
        "standard"
    }
}

impl Load for Extended {
    open spec fn speaks(&self) -> Language {
        self.language
    }

    fn expecting(lang: Language, dict: Self) -> (r: Result<Self, LoadError>) {
        let (found, expected) = (dict.language(), lang);
        if found != expected {
            Err(LoadError::LanguageMismatch { expected, found })
        } else {
            Ok(dict)
        }
    }

    open spec fn spec_suffix() -> Seq<char> {
        "extended"@
    }

    fn suffix() -> (r: &'static str) {
        "extended"
    }
}

} // verus!
