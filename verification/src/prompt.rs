//! The answers to a question that asks for yes or no.

use crate::text::{chars_of, spells};
use vstd::prelude::*;

verus! {

/// What `str::to_lowercase` returns for a string.
pub uninterp spec fn lowercase_of(s: Seq<char>) -> Seq<char>;

/// `str::to_lowercase`: the string in lower case, which has the name
/// `lowercase_of` here.
#[verifier::external_body]
fn to_lowercase(s: &str) -> (lower: String)
    ensures
        lower@ == lowercase_of(s@),
{
    s.to_lowercase()
}

/// An answer to a question that asks for yes or no.
#[derive(Clone, Copy, Debug, PartialEq, Eq, Structural)]
pub enum YesOrNo {
    Yes,
    No,
    AllYes,
}

/// The answer that the lower-case word `s` gives.
pub open spec fn spec_answer(s: Seq<char>) -> Option<YesOrNo> {
    if s == "y"@ || s == "yes"@ {
        Some(YesOrNo::Yes)
    } else if s == "n"@ || s == "no"@ {
        Some(YesOrNo::No)
    } else if s == "a"@ || s == "all"@ {
        Some(YesOrNo::AllYes)
    } else {
        None
    }
}

impl YesOrNo {
    /// The answer in words.
    pub open spec fn spec_name(self) -> Seq<char> {
        match self {
            YesOrNo::Yes => "yes"@,
            YesOrNo::No => "no"@,
            YesOrNo::AllYes => "all yes"@,
        }
    }

    /// Whether the patched text is written after this answer: after every
    /// answer but no.
    pub fn writes(self) -> (yes: bool)
        ensures
            yes == (self != YesOrNo::No),
    {
        match self {
            YesOrNo::No => false,
            _ => true,
        }
    }

    /// Whether every later text is written without a question: after the
    /// answer yes to all.
    pub fn writes_all(self) -> (yes: bool)
        ensures
            yes == (self == YesOrNo::AllYes),
    {
        match self {
            YesOrNo::AllYes => true,
            _ => false,
        }
    }

    /// The answer in words.
    pub fn to_string(&self) -> (text: String)
        ensures
            text@ == self.spec_name(),
    {
        match self {
            YesOrNo::Yes => "yes".to_owned(),
            YesOrNo::No => "no".to_owned(),
            YesOrNo::AllYes => "all yes".to_owned(),
        }
    }

    /// The answer that a word in lower case gives.
    pub fn from_lowercase(s: &str) -> (result: Result<YesOrNo, &'static str>)
        ensures
            match spec_answer(s@) {
                Some(answer) => result == Ok::<YesOrNo, &'static str>(answer),
                None => result is Err && result->Err_0@ == "invalid input"@,
            },
    {
        let chars = chars_of(s);
        let n = chars.len();
        assert(chars@.subrange(0, n as int) =~= s@);
        if spells(&chars, 0, n, "y") || spells(&chars, 0, n, "yes") {
            Ok(YesOrNo::Yes)
        } else if spells(&chars, 0, n, "n") || spells(&chars, 0, n, "no") {
            Ok(YesOrNo::No)
        } else if spells(&chars, 0, n, "a") || spells(&chars, 0, n, "all") {
            Ok(YesOrNo::AllYes)
        } else {
            Err("invalid input")
        }
    }

    /// The answer that a word gives, in whatever case it is written.
    pub fn from_str(s: &str) -> (result: Result<YesOrNo, &'static str>)
        ensures
            match spec_answer(lowercase_of(s@)) {
                Some(answer) => result == Ok::<YesOrNo, &'static str>(answer),
                None => result is Err && result->Err_0@ == "invalid input"@,
            },
    {
        let lower = to_lowercase(s);
        YesOrNo::from_lowercase(lower.as_str())
    }
}

impl std::str::FromStr for YesOrNo {
    type Err = &'static str;

    /// The answer that a word gives, in whatever case it is written.
    fn from_str(s: &str) -> (result: Result<Self, Self::Err>)
        ensures
            match spec_answer(lowercase_of(s@)) {
                Some(answer) => result == Ok::<YesOrNo, &'static str>(answer),
                None => result is Err && result->Err_0@ == "invalid input"@,
            },
    {
        YesOrNo::from_str(s)
    }
}

} // verus!
