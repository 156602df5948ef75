//! The errors of the library.

use crate::text::{decimal_text, push_decimal};
use vstd::prelude::*;
use vstd::string::StringExecFns;

verus! {

/// What can go wrong while loading icons or checking a source.
///
/// The variants that stand for a failure outside the library carry the
/// text of that failure.
#[derive(Clone, Debug, PartialEq, Eq)]
pub enum Error {
    Io(String),
    Walkdir(String),
    InvalidCheatSheet(usize),
    Json(String),
    Prompt(String),
    Utf8,
    InvalidInput,
    InvalidCodepoint,
    Interrupted,
    Any(String),
}

impl Error {
    /// What the error says.
    pub open spec fn spec_message(self) -> Seq<char> {
        match self {
            Error::Io(_) => "Io failed"@,
            Error::Walkdir(_) => "Failed when traversing directories"@,
            Error::InvalidCheatSheet(line) => "Invalid cheat sheet at line "@ + decimal_text(
                line as nat,
            ),
            Error::Json(_) => "Failed to parse json"@,
            Error::Prompt(_) => "Failed when prompting"@,
            Error::Utf8 => "Invalid UTF-8 input"@,
            Error::InvalidInput => "Invalid input"@,
            Error::InvalidCodepoint => "Invalid codepoint"@,
            Error::Interrupted => "Operation was interrupted by the user"@,
            Error::Any(what) => what@,
        }
    }

    /// What the failure behind the error says, where there is one.
    pub open spec fn spec_source(self) -> Option<Seq<char>> {
        match self {
            Error::Io(why) => Some(why@),
            Error::Walkdir(why) => Some(why@),
            Error::Json(why) => Some(why@),
            Error::Prompt(why) => Some(why@),
            _ => None,
        }
    }

    /// What the error says.
    pub fn message(&self) -> (text: String)
        ensures
            text@ == self.spec_message(),
    {
        match self {
            Error::Io(_) => "Io failed".to_owned(),
            Error::Walkdir(_) => "Failed when traversing directories".to_owned(),
            Error::InvalidCheatSheet(line) => {
                let mut text = "Invalid cheat sheet at line ".to_owned();
                push_decimal(&mut text, *line);
                text
            },
            Error::Json(_) => "Failed to parse json".to_owned(),
            Error::Prompt(_) => "Failed when prompting".to_owned(),
            Error::Utf8 => "Invalid UTF-8 input".to_owned(),
            Error::InvalidInput => "Invalid input".to_owned(),
            Error::InvalidCodepoint => "Invalid codepoint".to_owned(),
            Error::Interrupted => "Operation was interrupted by the user".to_owned(),
            Error::Any(what) => what.clone(),
        }
    }

    /// What the failure behind the error says, where there is one.
    pub fn source(&self) -> (text: Option<String>)
        ensures
            match (text, self.spec_source()) {
                (Some(t), Some(s)) => t@ == s,
                (None, None) => true,
                _ => false,
            },
    {
        match self {
            Error::Io(why) => Some(why.clone()),
            Error::Walkdir(why) => Some(why.clone()),
            Error::Json(why) => Some(why.clone()),
            Error::Prompt(why) => Some(why.clone()),
            _ => None,
        }
    }

    /// What the error says.
    pub fn to_string(&self) -> (text: String)
        ensures
            text@ == self.spec_message(),
    {
        self.message()
    }
}

/// An error that is shown with the failure behind it.
#[derive(Clone, Debug, PartialEq, Eq)]
pub struct ErrorWithSource(pub Error);

impl ErrorWithSource {
    /// What the error says, then a comma and what the failure behind it
    /// says, where there is one.
    pub open spec fn spec_text(self) -> Seq<char> {
        match self.0.spec_source() {
            Some(why) => self.0.spec_message() + ", "@ + why,
            None => self.0.spec_message(),
        }
    }

    /// Writes the error with the failure behind it.
    pub fn to_string(&self) -> (text: String)
        ensures
            text@ == self.spec_text(),
    {
        let mut text = self.0.message();
        match self.0.source() {
            Some(why) => {
                text.append(", ");
                text.append(why.as_str());
            },
            None => {},
        }
        text
    }
}

/// Turns an interruption by the user into the absence of a value and keeps
/// every other result.
pub fn ignore_interrupted<T>(result: Result<T, Error>) -> (out: Result<Option<T>, Error>)
    ensures
        out == match result {
            Ok(t) => Ok::<Option<T>, Error>(Some(t)),
            Err(Error::Interrupted) => Ok(None),
            Err(e) => Err(e),
        },
{
    match result {
        Ok(t) => Ok(Some(t)),
        Err(Error::Interrupted) => Ok(None),
        Err(e) => Err(e),
    }
}

} // verus!
