//! The values that the command line and the prompt hand to the library.

use crate::error::Error;
use crate::icon::{parse_hex, spec_parse_hex};
use crate::text::{chars_of, string_of};
use vstd::prelude::*;

verus! {

/// The version of the font that the icons are migrated to.
#[derive(Clone, Copy, Debug, PartialEq, Eq, Structural)]
pub enum NfVersion {
    V3_0_0,
    V3_3_0,
}

impl Default for NfVersion {
    fn default() -> (version: Self)
        ensures
            version == NfVersion::V3_0_0,
    {
        NfVersion::V3_0_0
    }
}

impl NfVersion {
    /// The value as it is written.
    pub open spec fn spec_name(self) -> Seq<char> {
        match self {
            NfVersion::V3_0_0 => "3.0.0"@,
            NfVersion::V3_3_0 => "3.3.0"@,
        }
    }

    /// The version as it is written.
    pub fn name(self) -> (text: &'static str)
        ensures
            text@ == self.spec_name(),
    {
        match self {
            NfVersion::V3_0_0 => "3.0.0",
            NfVersion::V3_3_0 => "3.3.0",
        }
    }

    /// The version as it is written, as an owned string.
    pub fn to_string(&self) -> (text: String)
        ensures
            text@ == self.spec_name(),
    {
        self.name().to_owned()
    }
}

/// How much is logged.
#[derive(Clone, Copy, Debug, PartialEq, Eq, Structural)]
pub enum LogLevel {
    Error,
    Warn,
    Info,
    Debug,
    Trace,
}

/// The level of the log for `verbose` requests for more and `quiet`
/// requests for less: one step up from errors only for each request that is
/// left, up to everything.
pub open spec fn spec_log_level(verbose: u8, quiet: u8) -> LogLevel {
    let steps = if verbose >= quiet {
        verbose - quiet
    } else {
        0
    };
    if steps == 0 {
        LogLevel::Error
    } else if steps == 1 {
        LogLevel::Warn
    } else if steps == 2 {
        LogLevel::Info
    } else if steps == 3 {
        LogLevel::Debug
    } else {
        LogLevel::Trace
    }
}

/// The level of the log for `verbose` requests for more and `quiet`
/// requests for less.
pub fn log_level(verbose: u8, quiet: u8) -> (level: LogLevel)
    ensures
        level == spec_log_level(verbose, quiet),
{
    let steps: u8 = if verbose >= quiet {
        verbose - quiet
    } else {
        0
    };
    if steps == 0 {
        LogLevel::Error
    } else if steps == 1 {
        LogLevel::Warn
    } else if steps == 2 {
        LogLevel::Info
    } else if steps == 3 {
        LogLevel::Debug
    } else {
        LogLevel::Trace
    }
}

/// Whether the paths for output fit the sources: there are none, or one for
/// each source.
pub fn outputs_fit(outputs: usize, sources: usize) -> (fit: bool)
    ensures
        fit == (outputs == 0 || outputs == sources),
{
    outputs == 0 || outputs == sources
}

/// How diagnostics are written.
#[derive(Clone, Copy, Debug, PartialEq, Eq, Structural)]
pub enum OutputFormat {
    Json,
    Console,
}

impl Default for OutputFormat {
    fn default() -> (format: Self)
        ensures
            format == OutputFormat::Console,
    {
        OutputFormat::Console
    }
}

impl OutputFormat {
    /// The value as it is written.
    pub open spec fn spec_name(self) -> Seq<char> {
        match self {
            OutputFormat::Json => "json"@,
            OutputFormat::Console => "console"@,
        }
    }

    /// The format as it is written.
    pub fn name(self) -> (text: &'static str)
        ensures
            text@ == self.spec_name(),
    {
        match self {
            OutputFormat::Json => "json",
            OutputFormat::Console => "console",
        }
    }

    /// The format as it is written, as an owned string.
    pub fn to_string(&self) -> (text: String)
        ensures
            text@ == self.spec_name(),
    {
        self.name().to_owned()
    }
}

/// The decimal digits `0` to `9`.
pub open spec fn is_digit(c: char) -> bool {
    '0' <= c <= '9'
}

/// Every character of `s` is a decimal digit.
pub open spec fn all_digits(s: Seq<char>) -> bool {
    forall|i: int| 0 <= i < s.len() ==> is_digit(#[trigger] s[i])
}

/// The number that the decimal digits `s` write.
pub open spec fn decimal_number(s: Seq<char>) -> int
    decreases s.len(),
{
    if s.len() == 0 {
        0
    } else {
        10 * decimal_number(s.drop_last()) + (s.last() as int - '0' as int)
    }
}

/// The number that `s` writes in base 10, where `s` is made of digits and
/// the number fits the machine word.
pub open spec fn spec_parse_decimal(s: Seq<char>) -> Option<usize> {
    if s.len() > 0 && all_digits(s) && decimal_number(s) <= usize::MAX {
        Some(decimal_number(s) as usize)
    } else {
        None
    }
}

/// The number written by a prefix is at most the number written by the
/// whole.
pub proof fn lemma_decimal_grows(s: Seq<char>, k: int)
    requires
        0 <= k <= s.len(),
        all_digits(s),
    ensures
        0 <= decimal_number(s.take(k)) <= decimal_number(s),
    decreases s.len() - k,
{
    lemma_decimal_nonnegative(s.take(k));
    if k < s.len() {
        assert(s.take(k + 1).drop_last() =~= s.take(k));
        assert(is_digit(s[k]));
        lemma_decimal_grows(s, k + 1);
    } else {
        assert(s.take(k) =~= s);
    }
}

/// Digits write no negative number.
pub proof fn lemma_decimal_nonnegative(s: Seq<char>)
    requires
        all_digits(s),
    ensures
        0 <= decimal_number(s),
    decreases s.len(),
{
    if s.len() > 0 {
        assert(is_digit(s.last()));
        assert forall|i: int| 0 <= i < s.drop_last().len() implies is_digit(
            #[trigger] s.drop_last()[i],
        ) by {
            assert(s.drop_last()[i] == s[i]);
        }
        lemma_decimal_nonnegative(s.drop_last());
    }
}

/// The value of a decimal digit.
fn digit_value(c: char) -> (d: Option<usize>)
    ensures
        match d {
            Some(v) => is_digit(c) && v == c as int - '0' as int,
            None => !is_digit(c),
        },
{
    let v: u32 = c as u32;
    if 0x30 <= v && v <= 0x39 {
        Some((v - 0x30) as usize)
    } else {
        None
    }
}

/// Reads `chars` as a number in base 10.
pub fn parse_decimal(chars: &Vec<char>) -> (value: Option<usize>)
    ensures
        value == spec_parse_decimal(chars@),
{
    let n = chars.len();
    if n == 0 {
        return None;
    }
    let mut acc: usize = 0;
    let mut i: usize = 0;
    while i < n
        invariant
            i <= n,
            n == chars.len(),
            all_digits(chars@.take(i as int)),
            acc == decimal_number(chars@.take(i as int)),
        decreases n - i,
    {
        proof {
            assert(chars@.take(i + 1).drop_last() =~= chars@.take(i as int));
            assert(chars@.take(i + 1).last() == chars@[i as int]);
        }
        let d: usize = match digit_value(chars[i]) {
            Some(d) => d,
            None => {
                return None;
            },
        };
        if acc > (usize::MAX - d) / 10 {
            proof {
                if all_digits(chars@) {
                    lemma_decimal_grows(chars@, i + 1);
                }
            }
            return None;
        }
        acc = acc * 10 + d;
        proof {
            let next = chars@.take(i + 1);
            assert forall|j: int| 0 <= j < next.len() implies is_digit(#[trigger] next[j]) by {
                if j < i {
                    assert(next[j] == chars@.take(i as int)[j]);
                } else {
                    assert(next[j] == chars@[i as int]);
                }
            }
        }
        i += 1;
    }
    assert(chars@.take(n as int) =~= chars@);
    Some(acc)
}

/// What the user typed at the prompt for an icon.
#[derive(Clone, Debug, PartialEq, Eq)]
pub enum UserInput {
    Candidate(usize),
    Name(String),
    Codepoint(u32),
    Char(char),
}

/// What a [`UserInput`] holds, as plain values.
pub enum UserInputView {
    Candidate(usize),
    Name(Seq<char>),
    Codepoint(u32),
    Char(char),
}

impl View for UserInput {
    type V = UserInputView;

    open spec fn view(&self) -> UserInputView {
        match self {
            UserInput::Candidate(n) => UserInputView::Candidate(*n),
            UserInput::Name(name) => UserInputView::Name(name@),
            UserInput::Codepoint(v) => UserInputView::Codepoint(*v),
            UserInput::Char(c) => UserInputView::Char(*c),
        }
    }
}

/// What the text `s` asks for: a codepoint after `u+` or `U+`, the number
/// of a candidate where it starts with a digit, a character where it is one
/// character, else a name. Empty text and numbers that cannot be read ask
/// for nothing.
pub open spec fn spec_parse_input(s: Seq<char>) -> Option<UserInputView> {
    if s.len() == 0 {
        None
    } else if s.len() >= 2 && (s[0] == 'u' || s[0] == 'U') && s[1] == '+' {
        match spec_parse_hex(s.skip(2)) {
            Some(v) => Some(UserInputView::Codepoint(v)),
            None => None,
        }
    } else if is_digit(s[0]) {
        match spec_parse_decimal(s) {
            Some(n) => Some(UserInputView::Candidate(n)),
            None => None,
        }
    } else if s.len() == 1 {
        Some(UserInputView::Char(s[0]))
    } else {
        Some(UserInputView::Name(s))
    }
}

impl UserInput {
    /// Reads what the user typed.
    pub fn from_str(s: &str) -> (result: Result<UserInput, Error>)
        ensures
            match spec_parse_input(s@) {
                Some(input) => result is Ok && result->Ok_0@ == input,
                None => result == Err::<UserInput, Error>(Error::InvalidInput),
            },
    {
        let chars = chars_of(s);
        let n = chars.len();
        if n == 0 {
            return Err(Error::InvalidInput);
        }
        if n >= 2 && (chars[0] == 'u' || chars[0] == 'U') && chars[1] == '+' {
            assert(chars@.subrange(2, n as int) =~= s@.skip(2));
            return match parse_hex(&chars, 2, n) {
                Some(v) => Ok(UserInput::Codepoint(v)),
                None => Err(Error::InvalidInput),
            };
        }
        if digit_value(chars[0]).is_some() {
            return match parse_decimal(&chars) {
                Some(k) => Ok(UserInput::Candidate(k)),
                None => Err(Error::InvalidInput),
            };
        }
        if n == 1 {
            return Ok(UserInput::Char(chars[0]));
        }
        assert(chars@.subrange(0, n as int) =~= s@);
        Ok(UserInput::Name(string_of(&chars, 0, n)))
    }
}

impl std::str::FromStr for UserInput {
    type Err = Error;

    /// Reads what the user typed.
    fn from_str(s: &str) -> (result: Result<Self, Self::Err>)
        ensures
            match spec_parse_input(s@) {
                Some(input) => result is Ok && result->Ok_0@ == input,
                None => result == Err::<UserInput, Error>(Error::InvalidInput),
            },
    {
        UserInput::from_str(s)
    }
}

} // verus!
