use nerdfix::checker::{
    apply_reply, candidate_notes, flush_from, CheckerContext, DiagType, Finding, Fix, Outcome,
    Reply, Session, Severity,
};
use nerdfix::cli::OutputFormat;
use nerdfix::error::Error;
use nerdfix::icon::{Icon, Substitution};
use nerdfix::input::InputReader;
use nerdfix::runtime::Runtime;

fn icon(name: &str, codepoint: u32, obsolete: bool) -> Icon {
    Icon {
        name: name.to_owned(),
        codepoint: char::from_u32(codepoint).unwrap(),
        obsolete,
    }
}

fn runtime(icons: Vec<Icon>, rules: &[&str]) -> Runtime {
    let mut builder = Runtime::builder();
    for icon in icons {
        builder.with_icon(icon);
    }
    for text in rules {
        builder
            .with_substitution(text.parse::<Substitution>().unwrap())
            .unwrap();
    }
    builder.build()
}

fn table() -> Vec<Icon> {
    vec![icon("a-old", 0xf001, true), icon("a-new", 0xf002, false)]
}

/// Scans a source of one line and returns what the scan wrote and found.
fn scan(rt: &Runtime, context: &CheckerContext, text: &[u8], autofix: bool) -> (String, Vec<Finding>, Option<usize>) {
    let mut reader = InputReader::new(1, 3);
    let line = reader.next_line(&vec![text.to_vec()]).unwrap();
    let mut out = String::new();
    let found = rt.check_line(context, &line, 0, autofix, &mut out).unwrap();
    (out, found.findings, found.asked)
}

#[test]
fn rule_wins() {
    let rt = runtime(table(), &["exact:a-old/a-new"]);
    for select_first in [false, true] {
        let context = CheckerContext {
            select_first,
            ..Default::default()
        };
        let (out, findings, asked) = scan(&rt, &context, "x\u{f001}y".as_bytes(), true);
        assert_eq!(out, "x\u{f002}y");
        assert_eq!(asked, None);
        assert_eq!(findings.len(), 1);
        assert_eq!(findings[0].fix, Some(Fix::Substitution('\u{f002}')));
        assert_eq!(findings[0].icon.name, "a-old");
        assert_eq!((findings[0].start, findings[0].end), (1, 4));
    }
}

#[test]
fn first_candidate_is_taken() {
    let rt = runtime(table(), &[]);
    let context = CheckerContext {
        select_first: true,
        ..Default::default()
    };
    let a_old = icon("a-old", 0xf001, true);
    let only = Some(vec![icon("a-new", 0xf002, false)]);
    let fix = rt.decide(&context, &a_old, None, &only);
    assert_eq!(fix, Fix::FirstSuggestion('\u{f002}'));
    assert_eq!(fix.written('\u{f001}'), Some('\u{f002}'));
}

#[test]
fn first_candidate_of_the_index_is_taken() {
    let rt = runtime(
        vec![
            icon("mdi-access_point", 0xf501, true),
            icon("md-access_point", 0xf0003, false),
        ],
        &[],
    );
    let context = CheckerContext {
        select_first: true,
        format: OutputFormat::Json,
        ..Default::default()
    };
    let (out, findings, asked) = scan(&rt, &context, "x\u{f501}y\n".as_bytes(), true);
    assert_eq!(out, "x\u{f0003}y\n");
    assert_eq!(asked, None);
    assert_eq!(findings[0].fix, Some(Fix::FirstSuggestion('\u{f0003}')));
    assert_eq!(findings[0].candidates.as_ref().unwrap()[0].name, "md-access_point");
}

#[test]
fn no_candidate_leaves_the_icon() {
    let rt = runtime(table(), &[]);
    let context = CheckerContext {
        select_first: true,
        ..Default::default()
    };
    let (out, findings, asked) = scan(&rt, &context, "x\u{f001}y".as_bytes(), true);
    assert_eq!(out, "x\u{f001}y");
    assert_eq!(asked, None);
    assert_eq!(findings.len(), 1);
    assert_eq!(findings[0].fix, Some(Fix::NoSuggestion));
    assert_eq!(findings[0].candidates, Some(Vec::new()));
    assert_eq!(Fix::NoSuggestion.written('\u{f001}'), Some('\u{f001}'));
}

#[test]
fn clean_text_is_unchanged() {
    let rt = runtime(table(), &["exact:a-old/a-new"]);
    let context = CheckerContext::default();
    let patched = "x\u{f002}y \u{e9}\n";
    for autofix in [false, true] {
        let (out, findings, asked) = scan(&rt, &context, patched.as_bytes(), autofix);
        assert_eq!(out, if autofix { patched } else { "" });
        assert!(findings.is_empty());
        assert_eq!(asked, None);
    }
}

#[test]
fn patched_text_is_clean() {
    let rt = runtime(table(), &["exact:a-old/a-new"]);
    let context = CheckerContext::default();
    let (once, findings, _) = scan(&rt, &context, "\u{f001}\u{f001} \u{f001}".as_bytes(), true);
    assert_eq!(findings.len(), 3);
    let (twice, findings, _) = scan(&rt, &context, once.as_bytes(), true);
    assert!(findings.is_empty());
    assert_eq!(once, twice);
}

#[test]
fn checking_reports_and_writes_nothing() {
    let rt = runtime(table(), &["exact:a-old/a-new"]);
    let context = CheckerContext::default();
    let (out, findings, asked) = scan(&rt, &context, "\u{e9}\u{f001}y\u{f001}".as_bytes(), false);
    assert_eq!(out, "");
    assert_eq!(asked, None);
    assert_eq!(findings.len(), 2);
    assert_eq!((findings[0].start, findings[0].end), (2, 5));
    assert_eq!((findings[1].start, findings[1].end), (6, 9));
    assert_eq!(findings[0].fix, None);
    // the console shows the candidates, the records do not
    assert!(findings[0].candidates.is_some());
    let context = CheckerContext {
        format: OutputFormat::Json,
        ..Default::default()
    };
    let (_, findings, _) = scan(&rt, &context, "\u{f001}".as_bytes(), false);
    assert_eq!(findings[0].candidates, None);
    let (_, findings, _) = scan(&rt, &context, "\u{f001}".as_bytes(), true);
    assert_eq!(findings[0].candidates, None);
}

#[test]
fn answer_is_reused() {
    let rt = runtime(table(), &[]);
    let mut context = CheckerContext::default();
    let mut reader = InputReader::new(1, 3);
    let text = "a\u{f001}b\u{f001}c\n";
    let line = reader.next_line(&vec![text.as_bytes().to_vec()]).unwrap();
    let mut out = String::new();
    let found = rt.check_line(&context, &line, 0, true, &mut out).unwrap();
    assert_eq!(found.asked, Some(1));
    assert_eq!(out, "a");
    assert_eq!(found.findings.len(), 1);
    assert_eq!(found.findings[0].fix, Some(Fix::Ask));
    assert!(apply_reply(&mut context, '\u{f001}', Reply::Chosen('\u{f002}'), &mut out));
    assert_eq!(out, "a\u{f002}");
    let found = rt.check_line(&context, &line, 2, true, &mut out).unwrap();
    assert_eq!(found.asked, None);
    assert_eq!(out, "a\u{f002}b\u{f002}c\n");
    assert_eq!(found.findings.len(), 1);
    assert_eq!(found.findings[0].fix, Some(Fix::Last('\u{f002}')));
    assert_eq!((found.findings[0].start, found.findings[0].end), (5, 8));
}

#[test]
fn remembered_answer_counts_before_the_rule() {
    let rt = runtime(
        vec![
            icon("a-old", 0xf001, true),
            icon("a-new", 0xf002, false),
            icon("a-other", 0xf003, false),
        ],
        &["exact:a-old/a-new"],
    );
    let mut context = CheckerContext::default();
    context.history.insert(0xf001, '\u{f003}');
    let (out, findings, _) = scan(&rt, &context, "\u{f001}".as_bytes(), true);
    assert_eq!(out, "\u{f003}");
    assert_eq!(findings[0].fix, Some(Fix::Last('\u{f003}')));
}

#[test]
fn cancelled_question_leaves_the_icon() {
    let rt = runtime(table(), &[]);
    let mut context = CheckerContext::default();
    let mut reader = InputReader::new(1, 3);
    let text = "\u{f001}b\u{f001}";
    let line = reader.next_line(&vec![text.as_bytes().to_vec()]).unwrap();
    let mut out = String::new();
    let found = rt.check_line(&context, &line, 0, true, &mut out).unwrap();
    assert_eq!(found.asked, Some(0));
    assert!(apply_reply(&mut context, '\u{f001}', Reply::Cancelled, &mut out));
    assert!(context.history.is_empty());
    let found = rt.check_line(&context, &line, 1, true, &mut out).unwrap();
    // the same icon is asked for again
    assert_eq!(found.asked, Some(2));
    assert_eq!(out, "\u{f001}b");
}

#[test]
fn abort_keeps_the_rest_of_the_source() {
    let rt = runtime(table(), &[]);
    let mut context = CheckerContext::default();
    let mut reader = InputReader::new(1, 3);
    let first = "a\u{f001}b\n";
    let second = "c\u{f001}d\n";
    let mut out = String::new();
    {
        let line = reader
            .next_line(&vec![first.as_bytes().to_vec(), second.as_bytes().to_vec()])
            .unwrap();
        let found = rt.check_line(&context, &line, 0, true, &mut out).unwrap();
        assert_eq!(found.asked, Some(1));
        assert!(!apply_reply(&mut context, '\u{f001}', Reply::Aborted, &mut out));
        assert_eq!(flush_from(&line, 1, &mut out), Ok(()));
    }
    {
        let line = reader.next_line(&vec![Vec::new()]).unwrap();
        assert_eq!(flush_from(&line, 0, &mut out), Ok(()));
    }
    assert_eq!(out, "a\u{f001}b\nc\u{f001}d\n");
    assert!(context.history.is_empty());
}

#[test]
fn scan_from_behind_the_end() {
    let rt = runtime(table(), &[]);
    let context = CheckerContext::default();
    let mut reader = InputReader::new(1, 3);
    let line = reader.next_line(&vec![b"ab".to_vec()]).unwrap();
    let mut out = String::from("kept");
    let found = rt.check_line(&context, &line, 7, true, &mut out).unwrap();
    assert!(found.findings.is_empty());
    assert_eq!(out, "kept");
    assert_eq!(flush_from(&line, 7, &mut out), Ok(()));
    assert_eq!(out, "kept");
}

#[test]
fn invalid_utf8_is_refused() {
    let rt = runtime(table(), &[]);
    let context = CheckerContext::default();
    let mut reader = InputReader::new(1, 3);
    let line = reader.next_line(&vec![vec![b'a', 0xff, b'\n']]).unwrap();
    let mut out = String::from("kept");
    assert!(matches!(
        rt.check_line(&context, &line, 0, true, &mut out),
        Err(Error::Utf8)
    ));
    assert_eq!(flush_from(&line, 0, &mut out), Err(Error::Utf8));
    assert_eq!(out, "kept");
}

#[test]
fn offsets_count_from_the_start_of_the_stream() {
    let rt = runtime(table(), &["exact:a-old/a-new"]);
    let context = CheckerContext::default();
    let mut reader = InputReader::new(1, 3);
    let mut out = String::new();
    reader
        .next_line(&vec!["\u{e9}\n".as_bytes().to_vec(), "x\u{f001}\n".as_bytes().to_vec()])
        .unwrap();
    let line = reader.next_line(&vec![Vec::new()]).unwrap();
    let found = rt.check_line(&context, &line, 0, true, &mut out).unwrap();
    assert_eq!((found.findings[0].start, found.findings[0].end), (4, 7));
    assert_eq!(out, "x\u{f002}\n");
}

#[test]
fn skipping_sources() {
    let mut context = CheckerContext::default();
    assert!(!context.skips_size(Some(u64::MAX)));
    context.size_limit = 10;
    assert!(!context.skips_size(None));
    assert!(!context.skips_size(Some(9)));
    assert!(context.skips_size(Some(10)));
    let mut reader = InputReader::new(1, 3);
    let line = reader.next_line(&vec![b"a\0".to_vec()]).unwrap();
    assert!(context.skips_binary(&line));
    context.include_binary = true;
    assert!(!context.skips_binary(&line));
    let mut reader = InputReader::new(1, 3);
    let line = reader.next_line(&vec![b"text".to_vec()]).unwrap();
    context.include_binary = false;
    assert!(!context.skips_binary(&line));
}

#[test]
fn defaults_of_the_context() {
    let context = CheckerContext::default();
    assert!(context.history.is_empty());
    assert_eq!(context.format, OutputFormat::Console);
    assert!(!context.write && !context.select_first && !context.include_binary);
    assert_eq!(context.size_limit, 0);
}

#[test]
fn texts_of_a_diagnostic() {
    let finding = Finding {
        start: 3,
        end: 6,
        icon: icon("mdi-tab", 0xf001, true),
        candidates: None,
        fix: None,
    };
    assert_eq!(finding.title(), "Found obsolete icon U+F001");
    assert_eq!(finding.label(), "Icon 'mdi-tab' is marked as obsolete");
    let diag = finding.to_diag("some/path");
    assert!(matches!(diag.severity, Severity::Info));
    assert_eq!(diag.path, "some/path");
    match diag.ty {
        DiagType::Obsolete { span, name, codepoint } => {
            assert_eq!(span, (3, 6));
            assert_eq!(name, "mdi-tab");
            assert_eq!(codepoint, 0xf001);
        }
    }
    assert_eq!(candidate_notes(&Vec::new()), "You could replace it with:\n");
    assert_eq!(
        candidate_notes(&vec![icon("md-tab", 0xf0e7, false)]),
        "You could replace it with:\n  1. \u{f0e7} U+0F0E7 md-tab"
    );
    assert_eq!(
        candidate_notes(&vec![
            icon("md-tab", 0xf0e7, false),
            icon("md-table", 0xf1234, false),
            icon("a", 0x61, false),
        ]),
        "You could replace it with:\n  1. \u{f0e7} U+0F0E7 md-tab\n  2. \u{f1234} U+F1234 md-table\n  3. a U+00061 a"
    );
}

#[test]
fn session_of_a_clean_source() {
    let rt = runtime(table(), &[]);
    let context = CheckerContext::default();
    let mut session = Session::new(true);
    let mut reader = InputReader::new(1, 3);
    let mut out = String::new();
    let line = reader.next_line(&vec![b"plain\n".to_vec()]).unwrap();
    session.begin_line();
    let found = session.scan(&rt, &context, &line, &mut out).unwrap();
    assert!(found.findings.is_empty());
    assert_eq!(found.asked, None);
    assert_eq!(out, "plain\n");
    assert_eq!(session.outcome(), Outcome::NoChanges);
    assert!(!session.found_any());
}

#[test]
fn session_with_answers() {
    let rt = runtime(table(), &[]);
    let mut context = CheckerContext::default();
    let mut session = Session::new(true);
    let mut reader = InputReader::new(1, 3);
    let mut out = String::new();
    let fresh = vec![
        "a\u{f001}b\u{f001}\n".as_bytes().to_vec(),
        "\u{f001}c\n".as_bytes().to_vec(),
    ];
    {
        let line = reader.next_line(&fresh).unwrap();
        session.begin_line();
        let found = session.scan(&rt, &context, &line, &mut out).unwrap();
        assert_eq!(found.asked, Some(1));
        assert_eq!(session.reply(&mut context, &line, Reply::Cancelled, &mut out), Ok(()));
        assert_eq!(out, "a\u{f001}");
        let found = session.scan(&rt, &context, &line, &mut out).unwrap();
        assert_eq!(found.asked, Some(3));
        assert_eq!(
            session.reply(&mut context, &line, Reply::Chosen('\u{f002}'), &mut out),
            Ok(())
        );
        let found = session.scan(&rt, &context, &line, &mut out).unwrap();
        assert_eq!(found.asked, None);
        assert!(found.findings.is_empty());
        // an answer without a question changes nothing
        assert_eq!(session.reply(&mut context, &line, Reply::Aborted, &mut out), Ok(()));
    }
    {
        let line = reader.next_line(&vec![Vec::new()]).unwrap();
        session.begin_line();
        let found = session.scan(&rt, &context, &line, &mut out).unwrap();
        assert_eq!(found.asked, None);
        assert_eq!(found.findings[0].fix, Some(Fix::Last('\u{f002}')));
    }
    assert_eq!(out, "a\u{f001}b\u{f002}\n\u{f002}c\n");
    assert_eq!(session.outcome(), Outcome::Patched);
    assert!(session.found_any());
}

#[test]
fn session_that_is_stopped() {
    let rt = runtime(table(), &[]);
    let mut context = CheckerContext::default();
    let mut session = Session::new(true);
    let mut reader = InputReader::new(1, 3);
    let mut out = String::new();
    let fresh = vec![
        "a\u{f001}b\n".as_bytes().to_vec(),
        "\u{f001}c\n".as_bytes().to_vec(),
    ];
    {
        let line = reader.next_line(&fresh).unwrap();
        session.begin_line();
        let found = session.scan(&rt, &context, &line, &mut out).unwrap();
        assert_eq!(found.asked, Some(1));
        assert_eq!(session.reply(&mut context, &line, Reply::Aborted, &mut out), Ok(()));
        let found = session.scan(&rt, &context, &line, &mut out).unwrap();
        assert_eq!(found.asked, None);
        assert!(found.findings.is_empty());
    }
    {
        let line = reader.next_line(&vec![Vec::new()]).unwrap();
        session.begin_line();
        let found = session.scan(&rt, &context, &line, &mut out).unwrap();
        assert_eq!(found.asked, None);
        assert!(found.findings.is_empty());
    }
    assert_eq!(out, "a\u{f001}b\n\u{f001}c\n");
    assert_eq!(session.outcome(), Outcome::Partial);
}

#[test]
fn session_that_only_checks() {
    let rt = runtime(table(), &[]);
    let context = CheckerContext::default();
    let mut session = Session::new(false);
    let mut reader = InputReader::new(1, 3);
    let mut out = String::new();
    let line = reader.next_line(&vec!["\u{f001}\n".as_bytes().to_vec()]).unwrap();
    session.begin_line();
    let found = session.scan(&rt, &context, &line, &mut out).unwrap();
    assert_eq!(found.findings.len(), 1);
    assert_eq!(found.asked, None);
    assert_eq!(out, "");
    assert_eq!(session.outcome(), Outcome::Patched);
    let mut reader = InputReader::new(1, 3);
    let line = reader.next_line(&vec![vec![0xff]]).unwrap();
    session.begin_line();
    assert!(matches!(
        session.scan(&rt, &context, &line, &mut out),
        Err(Error::Utf8)
    ));
}
