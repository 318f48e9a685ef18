//! Languages for which hyphenation dictionaries exist, with the margins and
//! the TeX language tag that belong to each.

use vstd::prelude::*;

verus! {

/// The set of languages available for hyphenation.
#[derive(Copy, Clone, Debug, PartialEq, Eq, PartialOrd, Ord, Hash, Structural)]
pub enum Language {
    Afrikaans,
    Armenian,
    Assamese,
    Basque,
    Belarusian,
    Bengali,
    Bulgarian,
    Catalan,
    Chinese,
    Coptic,
    Croatian,
    Czech,
    Danish,
    Dutch,
    EnglishGB,
    EnglishUS,
    Esperanto,
    Estonian,
    Ethiopic,
    Finnish,
    French,
    Friulan,
    Galician,
    Georgian,
    German1901,
    German1996,
    GermanSwiss,
    GreekAncient,
    GreekMono,
    GreekPoly,
    Gujarati,
    Hindi,
    Hungarian,
    Icelandic,
    Indonesian,
    Interlingua,
    Irish,
    Italian,
    Kannada,
    Kurmanji,
    Latin,
    LatinClassic,
    LatinLiturgical,
    Latvian,
    Lithuanian,
    Malayalam,
    Marathi,
    Mongolian,
    NorwegianBokmal,
    NorwegianNynorsk,
    Occitan,
    Oriya,
    Pali,
    Panjabi,
    Piedmontese,
    Polish,
    Portuguese,
    Romanian,
    Romansh,
    Russian,
    Sanskrit,
    SerbianCyrillic,
    SerbocroatianCyrillic,
    SerbocroatianLatin,
    SlavonicChurch,
    Slovak,
    Slovenian,
    Spanish,
    Swedish,
    Tamil,
    Telugu,
    Thai,
    Turkish,
    Turkmen,
    Ukrainian,
    Uppersorbian,
    Welsh,
}

impl Language {
    /// The default margins of the language: the number of characters from the
    /// start and from the end of a word where breaks may not occur.
    pub open spec fn spec_minima(&self) -> (usize, usize) {
        match *self {
            Language::Afrikaans => (1, 2),
            Language::Armenian => (1, 2),
            Language::Assamese => (1, 1),
            Language::Basque => (2, 2),
            Language::Belarusian => (2, 2),
            Language::Bengali => (1, 1),
            Language::Bulgarian => (2, 2),
            Language::Catalan => (2, 2),
            Language::Chinese => (1, 1),
            Language::Coptic => (1, 1),
            Language::Croatian => (2, 2),
            Language::Czech => (2, 3),
            Language::Danish => (2, 2),
            Language::Dutch => (2, 2),
            Language::EnglishGB => (2, 3),
            Language::EnglishUS => (2, 3),
            Language::Esperanto => (2, 2),
            Language::Estonian => (2, 3),
            Language::Ethiopic => (1, 1),
            Language::Finnish => (2, 2),
            Language::French => (2, 3),
            Language::Friulan => (2, 2),
            Language::Galician => (2, 2),
            Language::Georgian => (1, 2),
            Language::German1901 => (2, 2),
            Language::German1996 => (2, 2),
            Language::GermanSwiss => (2, 2),
            Language::GreekAncient => (1, 1),
            Language::GreekMono => (1, 1),
            Language::GreekPoly => (1, 1),
            Language::Gujarati => (1, 1),
            Language::Hindi => (1, 1),
            Language::Hungarian => (2, 2),
            Language::Icelandic => (2, 2),
            Language::Indonesian => (2, 2),
            Language::Interlingua => (2, 2),
            Language::Irish => (2, 3),
            Language::Italian => (2, 2),
            Language::Kannada => (1, 1),
            Language::Kurmanji => (2, 2),
            Language::Latin => (2, 2),
            Language::LatinClassic => (2, 2),
            Language::LatinLiturgical => (2, 2),
            Language::Latvian => (2, 2),
            Language::Lithuanian => (2, 2),
            Language::Malayalam => (1, 1),
            Language::Marathi => (1, 1),
            Language::Mongolian => (2, 2),
            Language::NorwegianBokmal => (2, 2),
            Language::NorwegianNynorsk => (2, 2),
            Language::Occitan => (2, 2),
            Language::Oriya => (1, 1),
            Language::Pali => (1, 2),
            Language::Panjabi => (1, 1),
            Language::Piedmontese => (2, 2),
            Language::Polish => (2, 2),
            Language::Portuguese => (2, 3),
            Language::Romanian => (2, 2),
            Language::Romansh => (2, 2),
            Language::Russian => (2, 2),
            Language::Sanskrit => (1, 3),
            Language::SerbianCyrillic => (2, 2),
            Language::SerbocroatianCyrillic => (2, 2),
            Language::SerbocroatianLatin => (2, 2),
            Language::SlavonicChurch => (1, 2),
            Language::Slovak => (2, 3),
            Language::Slovenian => (2, 2),
            Language::Spanish => (2, 2),
            Language::Swedish => (2, 2),
            Language::Tamil => (1, 1),
            Language::Telugu => (1, 1),
            Language::Thai => (2, 3),
            Language::Turkish => (2, 2),
            Language::Turkmen => (2, 2),
            Language::Ukrainian => (2, 2),
            Language::Uppersorbian => (2, 2),
            Language::Welsh => (2, 3),
        }
    }

    /// The TeX language tag, as a sequence of characters.
    pub open spec fn spec_code(&self) -> Seq<char> {
        match *self {
            Language::Afrikaans => "af"@,
            Language::Armenian => "hy"@,
            Language::Assamese => "as"@,
            Language::Basque => "eu"@,
            Language::Belarusian => "be"@,
            Language::Bengali => "bn"@,
            Language::Bulgarian => "bg"@,
            Language::Catalan => "ca"@,
            Language::Chinese => "zh-latn-pinyin"@,
            Language::Coptic => "cop"@,
            Language::Croatian => "hr"@,
            Language::Czech => "cs"@,
            Language::Danish => "da"@,
            Language::Dutch => "nl"@,
            Language::EnglishGB => "en-gb"@,
            Language::EnglishUS => "en-us"@,
            Language::Esperanto => "eo"@,
            Language::Estonian => "et"@,
            Language::Ethiopic => "mul-ethi"@,
            Language::Finnish => "fi"@,
            Language::French => "fr"@,
            Language::Friulan => "fur"@,
            Language::Galician => "gl"@,
            Language::Georgian => "ka"@,
            Language::German1901 => "de-1901"@,
            Language::German1996 => "de-1996"@,
            Language::GermanSwiss => "de-ch-1901"@,
            Language::GreekAncient => "grc"@,
            Language::GreekMono => "el-monoton"@,
            Language::GreekPoly => "el-polyton"@,
            Language::Gujarati => "gu"@,
            Language::Hindi => "hi"@,
            Language::Hungarian => "hu"@,
            Language::Icelandic => "is"@,
            Language::Indonesian => "id"@,
            Language::Interlingua => "ia"@,
            Language::Irish => "ga"@,
            Language::Italian => "it"@,
            Language::Kannada => "kn"@,
            Language::Kurmanji => "kmr"@,
            Language::Latin => "la"@,
            Language::LatinClassic => "la-x-classic"@,
            Language::LatinLiturgical => "la-x-liturgic"@,
            Language::Latvian => "lv"@,
            Language::Lithuanian => "lt"@,
            Language::Malayalam => "ml"@,
            Language::Marathi => "mr"@,
            Language::Mongolian => "mn-cyrl"@,
            Language::NorwegianBokmal => "nb"@,
            Language::NorwegianNynorsk => "nn"@,
            Language::Occitan => "oc"@,
            Language::Oriya => "or"@,
            Language::Pali => "pi"@,
            Language::Panjabi => "pa"@,
            Language::Piedmontese => "pms"@,
            Language::Polish => "pl"@,
            Language::Portuguese => "pt"@,
            Language::Romanian => "ro"@,
            Language::Romansh => "rm"@,
            Language::Russian => "ru"@,
            Language::Sanskrit => "sa"@,
            Language::SerbianCyrillic => "sr-cyrl"@,
            Language::SerbocroatianCyrillic => "sh-cyrl"@,
            Language::SerbocroatianLatin => "sh-latn"@,
            Language::SlavonicChurch => "cu"@,
            Language::Slovak => "sk"@,
            Language::Slovenian => "sl"@,
            Language::Spanish => "es"@,
            Language::Swedish => "sv"@,
            Language::Tamil => "ta"@,
            Language::Telugu => "te"@,
            Language::Thai => "th"@,
            Language::Turkish => "tr"@,
            Language::Turkmen => "tk"@,
            Language::Ukrainian => "uk"@,
            Language::Uppersorbian => "hsb"@,
            Language::Welsh => "cy"@,
        }
    }

    /// The name of the language, as it is written in this enumeration.
    pub open spec fn spec_name(&self) -> Seq<char> {
        match *self {
            Language::Afrikaans => "Afrikaans"@,
            Language::Armenian => "Armenian"@,
            Language::Assamese => "Assamese"@,
            Language::Basque => "Basque"@,
            Language::Belarusian => "Belarusian"@,
            Language::Bengali => "Bengali"@,
            Language::Bulgarian => "Bulgarian"@,
            Language::Catalan => "Catalan"@,
            Language::Chinese => "Chinese"@,
            Language::Coptic => "Coptic"@,
            Language::Croatian => "Croatian"@,
            Language::Czech => "Czech"@,
            Language::Danish => "Danish"@,
            Language::Dutch => "Dutch"@,
            Language::EnglishGB => "EnglishGB"@,
            Language::EnglishUS => "EnglishUS"@,
            Language::Esperanto => "Esperanto"@,
            Language::Estonian => "Estonian"@,
            Language::Ethiopic => "Ethiopic"@,
            Language::Finnish => "Finnish"@,
            Language::French => "French"@,
            Language::Friulan => "Friulan"@,
            Language::Galician => "Galician"@,
            Language::Georgian => "Georgian"@,
            Language::German1901 => "German1901"@,
            Language::German1996 => "German1996"@,
            Language::GermanSwiss => "GermanSwiss"@,
            Language::GreekAncient => "GreekAncient"@,
            Language::GreekMono => "GreekMono"@,
            Language::GreekPoly => "GreekPoly"@,
            Language::Gujarati => "Gujarati"@,
            Language::Hindi => "Hindi"@,
            Language::Hungarian => "Hungarian"@,
            Language::Icelandic => "Icelandic"@,
            Language::Indonesian => "Indonesian"@,
            Language::Interlingua => "Interlingua"@,
            Language::Irish => "Irish"@,
            Language::Italian => "Italian"@,
            Language::Kannada => "Kannada"@,
            Language::Kurmanji => "Kurmanji"@,
            Language::Latin => "Latin"@,
            Language::LatinClassic => "LatinClassic"@,
            Language::LatinLiturgical => "LatinLiturgical"@,
            Language::Latvian => "Latvian"@,
            Language::Lithuanian => "Lithuanian"@,
            Language::Malayalam => "Malayalam"@,
            Language::Marathi => "Marathi"@,
            Language::Mongolian => "Mongolian"@,
            Language::NorwegianBokmal => "NorwegianBokmal"@,
            Language::NorwegianNynorsk => "NorwegianNynorsk"@,
            Language::Occitan => "Occitan"@,
            Language::Oriya => "Oriya"@,
            Language::Pali => "Pali"@,
            Language::Panjabi => "Panjabi"@,
            Language::Piedmontese => "Piedmontese"@,
            Language::Polish => "Polish"@,
            Language::Portuguese => "Portuguese"@,
            Language::Romanian => "Romanian"@,
            Language::Romansh => "Romansh"@,
            Language::Russian => "Russian"@,
            Language::Sanskrit => "Sanskrit"@,
            Language::SerbianCyrillic => "SerbianCyrillic"@,
            Language::SerbocroatianCyrillic => "SerbocroatianCyrillic"@,
            Language::SerbocroatianLatin => "SerbocroatianLatin"@,
            Language::SlavonicChurch => "SlavonicChurch"@,
            Language::Slovak => "Slovak"@,
            Language::Slovenian => "Slovenian"@,
            Language::Spanish => "Spanish"@,
            Language::Swedish => "Swedish"@,
            Language::Tamil => "Tamil"@,
            Language::Telugu => "Telugu"@,
            Language::Thai => "Thai"@,
            Language::Turkish => "Turkish"@,
            Language::Turkmen => "Turkmen"@,
            Language::Ukrainian => "Ukrainian"@,
            Language::Uppersorbian => "Uppersorbian"@,
            Language::Welsh => "Welsh"@,
        }
    }

    /// The default number of characters from the start and end of a word
    /// where breaks may not occur.
    #[verifier::when_used_as_spec(spec_minima)]
    pub fn minima(&self) -> (m: (usize, usize))
        ensures
            m == self.spec_minima(),
            1 <= m.0 <= 2,
            1 <= m.1 <= 3,
    {
        match *self {
            Language::Afrikaans => (1, 2),
            Language::Armenian => (1, 2),
            Language::Assamese => (1, 1),
            Language::Basque => (2, 2),
            Language::Belarusian => (2, 2),
            Language::Bengali => (1, 1),
            Language::Bulgarian => (2, 2),
            Language::Catalan => (2, 2),
            Language::Chinese => (1, 1),
            Language::Coptic => (1, 1),
            Language::Croatian => (2, 2),
            Language::Czech => (2, 3),
            Language::Danish => (2, 2),
            Language::Dutch => (2, 2),
            Language::EnglishGB => (2, 3),
            Language::EnglishUS => (2, 3),
            Language::Esperanto => (2, 2),
            Language::Estonian => (2, 3),
            Language::Ethiopic => (1, 1),
            Language::Finnish => (2, 2),
            Language::French => (2, 3),
            Language::Friulan => (2, 2),
            Language::Galician => (2, 2),
            Language::Georgian => (1, 2),
            Language::German1901 => (2, 2),
            Language::German1996 => (2, 2),
            Language::GermanSwiss => (2, 2),
            Language::GreekAncient => (1, 1),
            Language::GreekMono => (1, 1),
            Language::GreekPoly => (1, 1),
            Language::Gujarati => (1, 1),
            Language::Hindi => (1, 1),
            Language::Hungarian => (2, 2),
            Language::Icelandic => (2, 2),
            Language::Indonesian => (2, 2),
            Language::Interlingua => (2, 2),
            Language::Irish => (2, 3),
            Language::Italian => (2, 2),
            Language::Kannada => (1, 1),
            Language::Kurmanji => (2, 2),
            Language::Latin => (2, 2),
            Language::LatinClassic => (2, 2),
            Language::LatinLiturgical => (2, 2),
            Language::Latvian => (2, 2),
            Language::Lithuanian => (2, 2),
            Language::Malayalam => (1, 1),
            Language::Marathi => (1, 1),
            Language::Mongolian => (2, 2),
            Language::NorwegianBokmal => (2, 2),
            Language::NorwegianNynorsk => (2, 2),
            Language::Occitan => (2, 2),
            Language::Oriya => (1, 1),
            Language::Pali => (1, 2),
            Language::Panjabi => (1, 1),
            Language::Piedmontese => (2, 2),
            Language::Polish => (2, 2),
            Language::Portuguese => (2, 3),
            Language::Romanian => (2, 2),
            Language::Romansh => (2, 2),
            Language::Russian => (2, 2),
            Language::Sanskrit => (1, 3),
            Language::SerbianCyrillic => (2, 2),
            Language::SerbocroatianCyrillic => (2, 2),
            Language::SerbocroatianLatin => (2, 2),
            Language::SlavonicChurch => (1, 2),
            Language::Slovak => (2, 3),
            Language::Slovenian => (2, 2),
            Language::Spanish => (2, 2),
            Language::Swedish => (2, 2),
            Language::Tamil => (1, 1),
            Language::Telugu => (1, 1),
            Language::Thai => (2, 3),
            Language::Turkish => (2, 2),
            Language::Turkmen => (2, 2),
            Language::Ukrainian => (2, 2),
            Language::Uppersorbian => (2, 2),
            Language::Welsh => (2, 3),
        }
    }

    /// The TeX language code.
    pub fn code(&self) -> (c: &'static str)
        ensures
            c@ == self.spec_code(),
    {
        match *self {
            Language::Afrikaans => "af",
            Language::Armenian => "hy",
            Language::Assamese => "as",
            Language::Basque => "eu",
            Language::Belarusian => "be",
            Language::Bengali => "bn",
            Language::Bulgarian => "bg",
            Language::Catalan => "ca",
            Language::Chinese => "zh-latn-pinyin",
            Language::Coptic => "cop",
            Language::Croatian => "hr",
            Language::Czech => "cs",
            Language::Danish => "da",
            Language::Dutch => "nl",
            Language::EnglishGB => "en-gb",
            Language::EnglishUS => "en-us",
            Language::Esperanto => "eo",
            Language::Estonian => "et",
            Language::Ethiopic => "mul-ethi",
            Language::Finnish => "fi",
            Language::French => "fr",
            Language::Friulan => "fur",
            Language::Galician => "gl",
            Language::Georgian => "ka",
            Language::German1901 => "de-1901",
            Language::German1996 => "de-1996",
            Language::GermanSwiss => "de-ch-1901",
            Language::GreekAncient => "grc",
            Language::GreekMono => "el-monoton",
            Language::GreekPoly => "el-polyton",
            Language::Gujarati => "gu",
            Language::Hindi => "hi",
            Language::Hungarian => "hu",
            Language::Icelandic => "is",
            Language::Indonesian => "id",
            Language::Interlingua => "ia",
            Language::Irish => "ga",
            Language::Italian => "it",
            Language::Kannada => "kn",
            Language::Kurmanji => "kmr",
            Language::Latin => "la",
            Language::LatinClassic => "la-x-classic",
            Language::LatinLiturgical => "la-x-liturgic",
            Language::Latvian => "lv",
            Language::Lithuanian => "lt",
            Language::Malayalam => "ml",
            Language::Marathi => "mr",
            Language::Mongolian => "mn-cyrl",
            Language::NorwegianBokmal => "nb",
            Language::NorwegianNynorsk => "nn",
            Language::Occitan => "oc",
            Language::Oriya => "or",
            Language::Pali => "pi",
            Language::Panjabi => "pa",
            Language::Piedmontese => "pms",
            Language::Polish => "pl",
            Language::Portuguese => "pt",
            Language::Romanian => "ro",
            Language::Romansh => "rm",
            Language::Russian => "ru",
            Language::Sanskrit => "sa",
            Language::SerbianCyrillic => "sr-cyrl",
            Language::SerbocroatianCyrillic => "sh-cyrl",
            Language::SerbocroatianLatin => "sh-latn",
            Language::SlavonicChurch => "cu",
            Language::Slovak => "sk",
            Language::Slovenian => "sl",
            Language::Spanish => "es",
            Language::Swedish => "sv",
            Language::Tamil => "ta",
            Language::Telugu => "te",
            Language::Thai => "th",
            Language::Turkish => "tr",
            Language::Turkmen => "tk",
            Language::Ukrainian => "uk",
            Language::Uppersorbian => "hsb",
            Language::Welsh => "cy",
        }
    }
    /// The name of the language, as it is written in this enumeration.
    pub fn name(&self) -> (c: &'static str)
        ensures
            c@ == self.spec_name(),
    {
        match *self {
            Language::Afrikaans => "Afrikaans",
            Language::Armenian => "Armenian",
            Language::Assamese => "Assamese",
            Language::Basque => "Basque",
            Language::Belarusian => "Belarusian",
            Language::Bengali => "Bengali",
            Language::Bulgarian => "Bulgarian",
            Language::Catalan => "Catalan",
            Language::Chinese => "Chinese",
            Language::Coptic => "Coptic",
            Language::Croatian => "Croatian",
            Language::Czech => "Czech",
            Language::Danish => "Danish",
            Language::Dutch => "Dutch",
            Language::EnglishGB => "EnglishGB",
            Language::EnglishUS => "EnglishUS",
            Language::Esperanto => "Esperanto",
            Language::Estonian => "Estonian",
            Language::Ethiopic => "Ethiopic",
            Language::Finnish => "Finnish",
            Language::French => "French",
            Language::Friulan => "Friulan",
            Language::Galician => "Galician",
            Language::Georgian => "Georgian",
            Language::German1901 => "German1901",
            Language::German1996 => "German1996",
            Language::GermanSwiss => "GermanSwiss",
            Language::GreekAncient => "GreekAncient",
            Language::GreekMono => "GreekMono",
            Language::GreekPoly => "GreekPoly",
            Language::Gujarati => "Gujarati",
            Language::Hindi => "Hindi",
            Language::Hungarian => "Hungarian",
            Language::Icelandic => "Icelandic",
            Language::Indonesian => "Indonesian",
            Language::Interlingua => "Interlingua",
            Language::Irish => "Irish",
            Language::Italian => "Italian",
            Language::Kannada => "Kannada",
            Language::Kurmanji => "Kurmanji",
            Language::Latin => "Latin",
            Language::LatinClassic => "LatinClassic",
            Language::LatinLiturgical => "LatinLiturgical",
            Language::Latvian => "Latvian",
            Language::Lithuanian => "Lithuanian",
            Language::Malayalam => "Malayalam",
            Language::Marathi => "Marathi",
            Language::Mongolian => "Mongolian",
            Language::NorwegianBokmal => "NorwegianBokmal",
            Language::NorwegianNynorsk => "NorwegianNynorsk",
            Language::Occitan => "Occitan",
            Language::Oriya => "Oriya",
            Language::Pali => "Pali",
            Language::Panjabi => "Panjabi",
            Language::Piedmontese => "Piedmontese",
            Language::Polish => "Polish",
            Language::Portuguese => "Portuguese",
            Language::Romanian => "Romanian",
            Language::Romansh => "Romansh",
            Language::Russian => "Russian",
            Language::Sanskrit => "Sanskrit",
            Language::SerbianCyrillic => "SerbianCyrillic",
            Language::SerbocroatianCyrillic => "SerbocroatianCyrillic",
            Language::SerbocroatianLatin => "SerbocroatianLatin",
            Language::SlavonicChurch => "SlavonicChurch",
            Language::Slovak => "Slovak",
            Language::Slovenian => "Slovenian",
            Language::Spanish => "Spanish",
            Language::Swedish => "Swedish",
            Language::Tamil => "Tamil",
            Language::Telugu => "Telugu",
            Language::Thai => "Thai",
            Language::Turkish => "Turkish",
            Language::Turkmen => "Turkmen",
            Language::Ukrainian => "Ukrainian",
            Language::Uppersorbian => "Uppersorbian",
            Language::Welsh => "Welsh",
        }
    }
}

} // verus!
