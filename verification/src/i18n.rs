//! The choice of the interface language.

use vstd::prelude::*;

use crate::text::str_starts_with;

verus! {

/// The key under which the language preference is stored.
pub const LANGUAGE_STORAGE_KEY: &'static str = "polza-models-language";

/// A language of the interface.
#[derive(Debug, Clone, Copy, PartialEq, Eq, Structural)]
pub enum Language {
    English,
    Russian,
}

/// The language that a stored preference names: Russian for `ru-RU` and
/// `ru`, English for anything else.
pub open spec fn stored_language(code: Seq<char>) -> Language {
    if code == "ru-RU"@ || code == "ru"@ {
        Language::Russian
    } else {
        Language::English
    }
}

/// The language for a browser: Russian where the browser's language tag
/// starts with `ru`, English otherwise.
pub open spec fn browser_language(tag: Seq<char>) -> Language {
    if "ru"@.is_prefix_of(tag) {
        Language::Russian
    } else {
        Language::English
    }
}

/// The initial language: what the stored preference names if there is one,
/// else what the browser asks for, else English.
pub open spec fn initial_language(stored: Option<Seq<char>>, browser: Option<Seq<char>>) -> Language {
    match stored {
        Some(code) => stored_language(code),
        None => match browser {
            Some(tag) => browser_language(tag),
            None => Language::English,
        },
    }
}

/// Whether two texts are the same.
fn same_text(a: &str, b: &str) -> (same: bool)
    ensures
        same == (a@ == b@),
{
    let same = str_starts_with(a, b) && str_starts_with(b, a);
    proof {
        if same {
            assert(a@ =~= b@);
        }
    }
    same
}

impl Language {
    /// The other language.
    pub open spec fn other(self) -> Language {
        match self {
            Language::English => Language::Russian,
            Language::Russian => Language::English,
        }
    }

    /// The language tag.
    pub open spec fn tag(self) -> Seq<char> {
        match self {
            Language::English => "en-US"@,
            Language::Russian => "ru-RU"@,
        }
    }

    /// The language tag, as it is stored and handed to the interface.
    pub fn code(self) -> (code: &'static str)
        ensures
            code@ == self.tag(),
    {
        match self {
            Language::English => "en-US",
            Language::Russian => "ru-RU",
        }
    }

    /// Switches between English and Russian.
    pub fn toggled(self) -> (next: Language)
        ensures
            next == self.other(),
    {
        match self {
            Language::English => Language::Russian,
            Language::Russian => Language::English,
        }
    }
}

/// Detects the initial language from the stored preference and the
/// browser's language tag, where there are any.
pub fn detect_language(stored: Option<&str>, browser: Option<&str>) -> (language: Language)
    ensures
        language == initial_language(stored.deep_view(), browser.deep_view()),
{
    match stored {
        Some(code) => {
            if same_text(code, "ru-RU") || same_text(code, "ru") {
                Language::Russian
            } else {
                Language::English
            }
        },
        None => match browser {
            Some(tag) => {
                if str_starts_with(tag, "ru") {
                    Language::Russian
                } else {
                    Language::English
                }
            },
            None => Language::English,
        },
    }
}

} // verus!
