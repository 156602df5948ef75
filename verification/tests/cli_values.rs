use nerdfix::cli::{log_level, outputs_fit, LogLevel, NfVersion, OutputFormat, UserInput};
use nerdfix::error::{ignore_interrupted, Error, ErrorWithSource};
use nerdfix::prompt::YesOrNo;

#[test]
fn user_input_kinds() {
    assert_eq!("3".parse::<UserInput>(), Ok(UserInput::Candidate(3)));
    assert_eq!("0".parse::<UserInput>(), Ok(UserInput::Candidate(0)));
    assert_eq!("u+f001".parse::<UserInput>(), Ok(UserInput::Codepoint(0xf001)));
    assert_eq!("U+F001".parse::<UserInput>(), Ok(UserInput::Codepoint(0xf001)));
    assert_eq!("x".parse::<UserInput>(), Ok(UserInput::Char('x')));
    assert_eq!("\u{f001}".parse::<UserInput>(), Ok(UserInput::Char('\u{f001}')));
    assert_eq!(
        "md-tab".parse::<UserInput>(),
        Ok(UserInput::Name("md-tab".to_owned()))
    );
    assert_eq!("u".parse::<UserInput>(), Ok(UserInput::Char('u')));
    assert_eq!("up".parse::<UserInput>(), Ok(UserInput::Name("up".to_owned())));
}

#[test]
fn user_input_rejected() {
    assert_eq!("".parse::<UserInput>(), Err(Error::InvalidInput));
    assert_eq!("u+".parse::<UserInput>(), Err(Error::InvalidInput));
    assert_eq!("u+xyz".parse::<UserInput>(), Err(Error::InvalidInput));
    assert_eq!("U+100000000".parse::<UserInput>(), Err(Error::InvalidInput));
    assert_eq!("1a".parse::<UserInput>(), Err(Error::InvalidInput));
    assert_eq!(
        "99999999999999999999999999".parse::<UserInput>(),
        Err(Error::InvalidInput)
    );
}

#[test]
fn user_input_largest_number() {
    let text = usize::MAX.to_string();
    assert_eq!(text.parse::<UserInput>(), Ok(UserInput::Candidate(usize::MAX)));
}

#[test]
fn yes_or_no_answers() {
    assert_eq!("y".parse::<YesOrNo>(), Ok(YesOrNo::Yes));
    assert_eq!("YES".parse::<YesOrNo>(), Ok(YesOrNo::Yes));
    assert_eq!("n".parse::<YesOrNo>(), Ok(YesOrNo::No));
    assert_eq!("No".parse::<YesOrNo>(), Ok(YesOrNo::No));
    assert_eq!("A".parse::<YesOrNo>(), Ok(YesOrNo::AllYes));
    assert_eq!("all".parse::<YesOrNo>(), Ok(YesOrNo::AllYes));
    assert_eq!("maybe".parse::<YesOrNo>(), Err("invalid input"));
    assert_eq!("".parse::<YesOrNo>(), Err("invalid input"));
    assert_eq!(YesOrNo::from_lowercase("YES"), Err("invalid input"));
    assert_eq!(YesOrNo::AllYes.to_string(), "all yes");
    assert_eq!(YesOrNo::Yes.to_string(), "yes");
    assert_eq!(YesOrNo::No.to_string(), "no");
}

#[test]
fn names_of_settings() {
    assert_eq!(NfVersion::default(), NfVersion::V3_0_0);
    assert_eq!(NfVersion::V3_0_0.to_string(), "3.0.0");
    assert_eq!(NfVersion::V3_3_0.to_string(), "3.3.0");
    assert_eq!(OutputFormat::default(), OutputFormat::Console);
    assert_eq!(OutputFormat::Json.to_string(), "json");
    assert_eq!(OutputFormat::Console.to_string(), "console");
}

#[test]
fn interruption_is_no_error() {
    assert_eq!(ignore_interrupted(Ok::<u8, Error>(1)), Ok(Some(1)));
    assert_eq!(ignore_interrupted::<u8>(Err(Error::Interrupted)), Ok(None));
    assert_eq!(ignore_interrupted::<u8>(Err(Error::Utf8)), Err(Error::Utf8));
}

#[test]
fn error_texts() {
    assert_eq!(
        Error::InvalidCheatSheet(12).to_string(),
        "Invalid cheat sheet at line 12"
    );
    assert_eq!(Error::InvalidCheatSheet(0).to_string(), "Invalid cheat sheet at line 0");
    assert_eq!(Error::Utf8.to_string(), "Invalid UTF-8 input");
    assert_eq!(Error::InvalidInput.to_string(), "Invalid input");
    assert_eq!(Error::InvalidCodepoint.to_string(), "Invalid codepoint");
    assert_eq!(
        Error::Interrupted.to_string(),
        "Operation was interrupted by the user"
    );
    assert_eq!(Error::Any("whatever".to_owned()).to_string(), "whatever");
    assert_eq!(
        ErrorWithSource(Error::Io("no such file".to_owned())).to_string(),
        "Io failed, no such file"
    );
    assert_eq!(
        ErrorWithSource(Error::Json("eof".to_owned())).to_string(),
        "Failed to parse json, eof"
    );
    assert_eq!(
        ErrorWithSource(Error::Walkdir("loop".to_owned())).to_string(),
        "Failed when traversing directories, loop"
    );
    assert_eq!(
        ErrorWithSource(Error::Prompt("tty".to_owned())).to_string(),
        "Failed when prompting, tty"
    );
    assert_eq!(
        ErrorWithSource(Error::InvalidInput).to_string(),
        "Invalid input"
    );
}

#[test]
fn levels_of_the_log() {
    assert_eq!(log_level(2, 0), LogLevel::Info);
    assert_eq!(log_level(0, 0), LogLevel::Error);
    assert_eq!(log_level(2, 1), LogLevel::Warn);
    assert_eq!(log_level(1, 5), LogLevel::Error);
    assert_eq!(log_level(3, 0), LogLevel::Debug);
    assert_eq!(log_level(4, 0), LogLevel::Trace);
    assert_eq!(log_level(255, 0), LogLevel::Trace);
}

#[test]
fn outputs_pair_with_sources() {
    assert!(outputs_fit(0, 3));
    assert!(outputs_fit(3, 3));
    assert!(outputs_fit(0, 0));
    assert!(!outputs_fit(1, 3));
    assert!(!outputs_fit(1, 0));
}

#[test]
fn answers_that_write() {
    assert!(YesOrNo::Yes.writes());
    assert!(YesOrNo::AllYes.writes());
    assert!(!YesOrNo::No.writes());
    assert!(YesOrNo::AllYes.writes_all());
    assert!(!YesOrNo::Yes.writes_all());
    assert!(!YesOrNo::No.writes_all());
}
