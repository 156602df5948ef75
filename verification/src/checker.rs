//! The scanner: what becomes of each character of a line.
//!
//! The scanner reads one line at a time. It reports every obsolete icon
//! that it meets and, where fixing is asked for, writes the patched line:
//! a replacement remembered from an earlier answer, else the replacement
//! that the rules give, else the best candidate where the first is to be
//! taken, else the answer to a question. The scanner never asks: it stops
//! at the character in question, and goes on from there once it is told
//! the answer.

use crate::cli::OutputFormat;
use crate::error::Error;
use crate::icon::{hex_padded, hex_text_padded, hex_text_upper, push_hex_upper, Icon, IconView};
use crate::input::{looks_binary, ContentType, InputLine};
use crate::ngram::match_views;
use crate::runtime::{icon_views, Rules, Runtime};
use crate::text::{decimal_text, push_decimal, byte_len, code_of, decode, lemma_byte_len_grows, lemma_encode_push, utf8_len,
    utf8_width};
use std::collections::HashMap;
use vstd::prelude::*;
use vstd::std_specs::hash::group_hash_axioms;
use vstd::string::StringExecFns;
use vstd::utf8::{decode_utf8, encode_utf8, valid_utf8};

verus! {

broadcast use group_hash_axioms;

/// How grave a diagnostic is.
#[derive(Clone, Copy, Debug, PartialEq, Eq, Structural)]
pub enum Severity {
    Error,
    Warning,
    Info,
}

/// What a diagnostic is about.
#[derive(Debug)]
pub enum DiagType {
    Obsolete { span: (usize, usize), name: String, codepoint: u32 },
}

/// A diagnostic as a record.
#[derive(Debug)]
pub struct DiagOutput {
    pub severity: Severity,
    pub path: String,
    pub ty: DiagType,
}

/// The settings of a check and the answers given so far.
pub struct CheckerContext {
    /// The replacement that the user chose for an obsolete codepoint.
    pub history: HashMap<u32, char>,
    pub format: OutputFormat,
    pub write: bool,
    pub select_first: bool,
    pub include_binary: bool,
    pub size_limit: u64,
}

impl Default for CheckerContext {
    fn default() -> (context: Self)
        ensures
            context.history@ == Map::<u32, char>::empty(),
            context.format == OutputFormat::Console,
            !context.write,
            !context.select_first,
            !context.include_binary,
            context.size_limit == 0,
    {
        CheckerContext {
            history: HashMap::new(),
            format: OutputFormat::Console,
            write: false,
            select_first: false,
            include_binary: false,
            size_limit: 0,
        }
    }
}

impl CheckerContext {
    /// Whether a source of `size` bytes is passed over as too large: a limit
    /// is set, and the size reaches it. A source of unknown size counts as
    /// empty.
    pub fn skips_size(&self, size: Option<u64>) -> (skip: bool)
        ensures
            skip == (self.size_limit != 0 && (match size {
                Some(n) => n,
                None => 0,
            }) >= self.size_limit),
    {
        let n = match size {
            Some(n) => n,
            None => 0,
        };
        self.size_limit != 0 && n >= self.size_limit
    }

    /// Whether a source is passed over as binary, judged by the window
    /// around its first line.
    pub fn skips_binary(&self, first: &InputLine) -> (skip: bool)
        ensures
            skip == (!self.include_binary && looks_binary(first.bytes())),
    {
        !self.include_binary && first.content_type() == ContentType::Binary
    }
}

/// What becomes of an obsolete icon where fixing is asked for.
#[derive(Clone, Copy, Debug, PartialEq, Eq, Structural)]
pub enum Fix {
    /// The replacement that the user chose for this codepoint before.
    Last(char),
    /// The replacement that the rules give.
    Substitution(char),
    /// The best candidate.
    FirstSuggestion(char),
    /// The first candidate was to be taken, and there is none: the icon
    /// stays.
    NoSuggestion,
    /// The user is to be asked.
    Ask,
}

impl Fix {
    /// The character that is written for `original`, or none where the
    /// user is to be asked first.
    pub open spec fn spec_written(self, original: char) -> Option<char> {
        match self {
            Fix::Last(c) => Some(c),
            Fix::Substitution(c) => Some(c),
            Fix::FirstSuggestion(c) => Some(c),
            Fix::NoSuggestion => Some(original),
            Fix::Ask => None,
        }
    }

    /// The character that is written for `original`, or none where the
    /// user is to be asked first.
    pub fn written(self, original: char) -> (c: Option<char>)
        ensures
            c == self.spec_written(original),
    {
        match self {
            Fix::Last(c) => Some(c),
            Fix::Substitution(c) => Some(c),
            Fix::FirstSuggestion(c) => Some(c),
            Fix::NoSuggestion => Some(original),
            Fix::Ask => None,
        }
    }
}

/// What becomes of the obsolete icon `icon`: the remembered answer counts
/// before the rule, the rule before the first candidate, and the user is
/// asked only where the first candidate is not to be taken.
pub open spec fn spec_fix(
    history: Map<u32, char>,
    substitution: Option<IconView>,
    select_first: bool,
    candidates: Seq<IconView>,
    icon: IconView,
) -> Fix {
    if history.contains_key(icon.codepoint as u32) {
        Fix::Last(history[icon.codepoint as u32])
    } else if substitution is Some {
        Fix::Substitution(substitution->0.codepoint)
    } else if select_first {
        if candidates.len() > 0 {
            Fix::FirstSuggestion(candidates[0].codepoint)
        } else {
            Fix::NoSuggestion
        }
    } else {
        Fix::Ask
    }
}

/// An obsolete icon found in a line.
#[derive(Clone, Debug, PartialEq, Eq)]
pub struct Finding {
    /// Where the icon begins in the stream.
    pub start: usize,
    /// Where the icon ends in the stream.
    pub end: usize,
    pub icon: Icon,
    /// The candidates for its replacement, where they were looked up.
    pub candidates: Option<Vec<Icon>>,
    /// What becomes of the icon, where fixing is asked for.
    pub fix: Option<Fix>,
}

/// What a [`Finding`] holds, as plain values.
pub struct FindingView {
    pub start: usize,
    pub end: usize,
    pub icon: IconView,
    pub candidates: Option<Seq<IconView>>,
    pub fix: Option<Fix>,
}

impl View for Finding {
    type V = FindingView;

    open spec fn view(&self) -> FindingView {
        FindingView {
            start: self.start,
            end: self.end,
            icon: self.icon@,
            candidates: match self.candidates {
                Some(found) => Some(icon_views(found@)),
                None => None,
            },
            fix: self.fix,
        }
    }
}

impl Finding {
    /// The heading of the diagnostic.
    pub open spec fn spec_title(self) -> Seq<char> {
        "Found obsolete icon U+"@ + hex_text_upper(self.icon.codepoint as nat)
    }

    /// Writes the heading of the diagnostic.
    pub fn title(&self) -> (text: String)
        ensures
            text@ == self.spec_title(),
    {
        let mut text = "Found obsolete icon U+".to_owned();
        push_hex_upper(&mut text, code_of(self.icon.codepoint));
        text
    }

    /// What the diagnostic says of the span.
    pub open spec fn spec_label(self) -> Seq<char> {
        "Icon '"@ + self.icon.name@ + "' is marked as obsolete"@
    }

    /// Writes what the diagnostic says of the span.
    pub fn label(&self) -> (text: String)
        ensures
            text@ == self.spec_label(),
    {
        let mut text = "Icon '".to_owned();
        text.append(self.icon.name.as_str());
        text.append("' is marked as obsolete");
        text
    }

    /// The finding as the record that is written for it.
    pub fn to_diag(&self, path: &str) -> (diag: DiagOutput)
        ensures
            diag.severity == Severity::Info,
            diag.path@ == path@,
            diag.ty matches DiagType::Obsolete { span, name, codepoint } && span == (
                self.start,
                self.end,
            ) && name@ == self.icon.name@ && codepoint == self.icon.codepoint as u32,
    {
        DiagOutput {
            severity: Severity::Info,
            path: path.to_owned(),
            ty: DiagType::Obsolete {
                span: (self.start, self.end),
                name: self.icon.name.clone(),
                codepoint: code_of(self.icon.codepoint),
            },
        }
    }
}

/// The line that offers the candidate numbered `number`: the number, the
/// icon, its codepoint and its name.
pub open spec fn note_line(number: nat, icon: IconView) -> Seq<char> {
    "  "@ + decimal_text(number) + ". "@ + seq![icon.codepoint] + " U+"@ + hex_text_padded(
        icon.codepoint as nat,
        5,
    ) + " "@ + icon.name
}

/// The lines that offer `candidates`, numbered from 1, with a line break
/// between two of them.
pub open spec fn note_lines(candidates: Seq<IconView>) -> Seq<char>
    decreases candidates.len(),
{
    if candidates.len() == 0 {
        Seq::empty()
    } else if candidates.len() == 1 {
        note_line(1, candidates[0])
    } else {
        note_lines(candidates.drop_last()) + seq!['\n'] + note_line(
            candidates.len(),
            candidates.last(),
        )
    }
}

/// The help of a diagnostic: a heading and the lines that offer the
/// candidates.
pub open spec fn spec_notes(candidates: Seq<IconView>) -> Seq<char> {
    "You could replace it with:\n"@ + note_lines(candidates)
}

/// Writes the help of a diagnostic.
pub fn candidate_notes(candidates: &Vec<Icon>) -> (text: String)
    ensures
        text@ == spec_notes(icon_views(candidates@)),
{
    let ghost views = icon_views(candidates@);
    let mut text = "You could replace it with:\n".to_owned();
    let ghost head = text@;
    let mut i: usize = 0;
    assert(views.take(0) =~= Seq::<IconView>::empty());
    assert(text@ =~= head + note_lines(views.take(0)));
    while i < candidates.len()
        invariant
            i <= candidates.len(),
            views == icon_views(candidates@),
            head == "You could replace it with:\n"@,
            text@ == head + note_lines(views.take(i as int)),
        decreases candidates.len() - i,
    {
        let icon = &candidates[i];
        let ghost before = text@;
        if i > 0 {
            text.push('\n');
        }
        text.append("  ");
        push_decimal(&mut text, i + 1);
        text.append(". ");
        text.push(icon.codepoint);
        text.append(" U+");
        let padded = hex_padded(code_of(icon.codepoint), 5);
        text.append(padded.as_str());
        text.append(" ");
        text.append(icon.name.as_str());
        proof {
            let line = note_line((i + 1) as nat, icon@);
            assert(views.take(i + 1).drop_last() =~= views.take(i as int));
            assert(views.take(i + 1).last() == icon@);
            assert(views.take(i + 1)[0] == views[0]);
            if i > 0 {
                assert(text@ =~= before + seq!['\n'] + line);
                assert(text@ =~= head + note_lines(views.take(i + 1)));
            } else {
                assert(text@ =~= before + line);
                assert(note_lines(views.take(0)) =~= Seq::<char>::empty());
                assert(text@ =~= head + note_lines(views.take(i + 1)));
            }
        }
        i += 1;
    }
    assert(views.take(candidates.len() as int) =~= views);
    text
}

/// The views of `findings`, in order.
pub open spec fn finding_views(findings: Seq<Finding>) -> Seq<FindingView> {
    findings.map_values(|f: Finding| f@)
}

/// What the scan of a line, or of a part of it, has found.
pub struct LineScan {
    /// The obsolete icons, in the order of the line.
    pub findings: Vec<Finding>,
    /// The position, in characters, of the icon at which the scan stopped
    /// because the user is to be asked. The last finding is for that icon.
    pub asked: Option<usize>,
}

/// The answer to the question what replaces an icon.
#[derive(Clone, Copy, Debug, PartialEq, Eq, Structural)]
pub enum Reply {
    /// The replacement that was chosen.
    Chosen(char),
    /// The question was cancelled: the icon stays.
    Cancelled,
    /// The user wants to stop: the rest of the source stays as it is.
    Aborted,
}

impl Rules {
    /// The obsolete icon that the character `c` shows, if it shows one.
    pub open spec fn obsolete_at(self, c: char) -> Option<IconView> {
        match self.by_codepoint(c) {
            Some(icon) => if icon.obsolete {
                Some(icon)
            } else {
                None
            },
            None => None,
        }
    }
}

impl Runtime {
    /// Whether the candidates of a finding are looked up: always for the
    /// console, which shows them, else where the fix depends on them.
    pub open spec fn needs_candidates(
        &self,
        context: &CheckerContext,
        autofix: bool,
        icon: IconView,
    ) -> bool {
        context.format == OutputFormat::Console || (autofix && !context.history@.contains_key(
            icon.codepoint as u32,
        ) && self@.substitution(icon) is None)
    }

    /// `finding` is what the scan reports for the character at `at` of
    /// `text`, the text of a line that begins at `base` in the stream.
    pub open spec fn reports_finding(
        &self,
        context: &CheckerContext,
        autofix: bool,
        base: int,
        text: Seq<char>,
        at: int,
        finding: FindingView,
    ) -> bool {
        &&& self@.obsolete_at(text[at]) == Some(finding.icon)
        &&& finding.start == base + byte_len(text.take(at))
        &&& finding.end == finding.start + utf8_width(text[at])
        &&& finding.candidates is Some <==> self.needs_candidates(context, autofix, finding.icon)
        &&& finding.candidates is Some ==> self.offers(finding.icon.name, finding.candidates->0)
        &&& finding.fix == if autofix {
            Some(
                spec_fix(
                    context.history@,
                    self@.substitution(finding.icon),
                    context.select_first,
                    match finding.candidates {
                        Some(found) => found,
                        None => Seq::empty(),
                    },
                    finding.icon,
                ),
            )
        } else {
            None
        }
    }

    /// The scan of `text[from..to]` without a question: `findings` are its
    /// reports, one for each obsolete icon and in order, and `written` is
    /// what it writes, one character for each character read where fixing
    /// is asked for and nothing else.
    pub open spec fn scanned(
        &self,
        context: &CheckerContext,
        autofix: bool,
        base: int,
        text: Seq<char>,
        from: int,
        to: int,
        findings: Seq<FindingView>,
        written: Seq<char>,
    ) -> bool
        decreases to - from,
    {
        if to <= from {
            findings.len() == 0 && written.len() == 0
        } else {
            let c = text[to - 1];
            let before = if autofix {
                written.drop_last()
            } else {
                written
            };
            &&& autofix ==> written.len() > 0
            &&& !autofix ==> written.len() == 0
            &&& if self@.obsolete_at(c) is Some {
                &&& findings.len() > 0
                &&& self.reports_finding(context, autofix, base, text, to - 1, findings.last())
                &&& autofix ==> findings.last().fix->0.spec_written(c) == Some(written.last())
                &&& self.scanned(
                    context,
                    autofix,
                    base,
                    text,
                    from,
                    to - 1,
                    findings.drop_last(),
                    before,
                )
            } else {
                &&& autofix ==> written.last() == c
                &&& self.scanned(context, autofix, base, text, from, to - 1, findings, before)
            }
        }
    }

    /// The result of a scan of `text` from `from` on: either it came to the
    /// end of the text without a question, or it stopped at the first icon
    /// for which the user is to be asked, which it reports last.
    pub open spec fn scan_result(
        &self,
        context: &CheckerContext,
        autofix: bool,
        base: int,
        text: Seq<char>,
        from: int,
        asked: Option<usize>,
        findings: Seq<FindingView>,
        written: Seq<char>,
    ) -> bool {
        match asked {
            None => self.scanned(
                context,
                autofix,
                base,
                text,
                from,
                text.len() as int,
                findings,
                written,
            ),
            Some(at) => {
                &&& autofix
                &&& from <= at < text.len()
                &&& findings.len() > 0
                &&& self.reports_finding(context, autofix, base, text, at as int, findings.last())
                &&& findings.last().fix == Some(Fix::Ask)
                &&& self.scanned(
                    context,
                    autofix,
                    base,
                    text,
                    from,
                    at as int,
                    findings.drop_last(),
                    written,
                )
            },
        }
    }

    /// What becomes of the obsolete icon `icon` where fixing is asked for.
    pub fn decide(
        &self,
        context: &CheckerContext,
        icon: &Icon,
        substitution: Option<&Icon>,
        candidates: &Option<Vec<Icon>>,
    ) -> (fix: Fix)
        ensures
            fix == spec_fix(
                context.history@,
                match substitution {
                    Some(found) => Some(found@),
                    None => None,
                },
                context.select_first,
                match candidates {
                    Some(found) => icon_views(found@),
                    None => Seq::empty(),
                },
                icon@,
            ),
    {
        let code = code_of(icon.codepoint);
        match context.history.get(&code) {
            Some(last) => {
                return Fix::Last(*last);
            },
            None => {},
        }
        match substitution {
            Some(found) => {
                return Fix::Substitution(found.codepoint);
            },
            None => {},
        }
        if context.select_first {
            match candidates {
                Some(found) => {
                    if found.len() > 0 {
                        assert(icon_views(found@)[0] == found@[0]@);
                        Fix::FirstSuggestion(found[0].codepoint)
                    } else {
                        Fix::NoSuggestion
                    }
                },
                None => Fix::NoSuggestion,
            }
        } else {
            Fix::Ask
        }
    }

    /// Reports the obsolete icon `icon`, which stands at `at` in `text`.
    fn report(
        &self,
        context: &CheckerContext,
        autofix: bool,
        icon: &Icon,
        start: usize,
        end: usize,
        Ghost(base): Ghost<int>,
        Ghost(text): Ghost<Seq<char>>,
        Ghost(at): Ghost<int>,
    ) -> (finding: Finding)
        requires
            self.wf(),
            0 <= at < text.len(),
            self@.obsolete_at(text[at]) == Some(icon@),
            start == base + byte_len(text.take(at)),
            end == start + utf8_width(text[at]),
        ensures
            self.reports_finding(context, autofix, base, text, at, finding@),
    {
        let substitution = self.get_substitution(icon);
        let code = code_of(icon.codepoint);
        let known = context.history.get(&code).is_some();
        let needs = match context.format {
            OutputFormat::Console => true,
            OutputFormat::Json => autofix && !known && substitution.is_none(),
        };
        let candidates = if needs {
            let matches = self.fuzzy_matches(icon.name.as_str());
            let found = self.get_candidates(&matches);
            assert(self.fuzzy_reports(icon.name@, match_views(matches@)));
            Some(found)
        } else {
            None
        };
        let fix = if autofix {
            Some(self.decide(context, icon, substitution, &candidates))
        } else {
            None
        };
        Finding { start, end, icon: icon.duplicate(), candidates, fix }
    }

    /// Scans the line from the character at `from` on.
    ///
    /// Every obsolete icon is reported. Where `autofix` is set, the patched
    /// text is appended to `out`; else `out` stays. The scan stops before
    /// the first icon for which the user is to be asked; the caller asks,
    /// hands the answer to `apply_reply` and scans on behind that icon. A
    /// line that is not UTF-8 is refused, and nothing is written.
    pub fn check_line(
        &self,
        context: &CheckerContext,
        line: &InputLine,
        from: usize,
        autofix: bool,
        out: &mut String,
    ) -> (result: Result<LineScan, Error>)
        requires
            self.wf(),
            line.wf(),
        ensures
            !valid_utf8(line.spec_contents()) ==> {
                &&& result == Err::<LineScan, Error>(Error::Utf8)
                &&& final(out)@ == old(out)@
            },
            valid_utf8(line.spec_contents()) ==> {
                let text = decode_utf8(line.spec_contents());
                let start = if from <= text.len() {
                    from as int
                } else {
                    text.len() as int
                };
                &&& result is Ok
                &&& final(out)@.len() >= old(out)@.len()
                &&& final(out)@.take(old(out)@.len() as int) == old(out)@
                &&& self.scan_result(
                    context,
                    autofix,
                    line.position() as int,
                    text,
                    start,
                    result->Ok_0.asked,
                    finding_views(result->Ok_0.findings@),
                    final(out)@.skip(old(out)@.len() as int),
                )
            },
    {
        let chars = match decode(line.contents()) {
            Some(chars) => chars,
            None => {
                return Err(Error::Utf8);
            },
        };
        let ghost text = chars@;
        let ghost base = line.position() as int;
        let ghost kept = out@;
        let n = chars.len();
        let start = if from <= n {
            from
        } else {
            n
        };
        proof {
            line.lemma_place();
            assert(byte_len(text) == line.spec_size());
        }
        // the position in the line of the character that comes next
        let mut offset: usize = 0;
        let mut k: usize = 0;
        assert(text.take(0) =~= Seq::<char>::empty());
        assert(encode_utf8(Seq::<char>::empty()) =~= Seq::<u8>::empty());
        while k < start
            invariant
                k <= start <= n,
                n == chars.len(),
                text == chars@,
                offset == byte_len(text.take(k as int)),
                byte_len(text) <= usize::MAX,
            decreases start - k,
        {
            proof {
                assert(text.take(k + 1) =~= text.take(k as int).push(text[k as int]));
                lemma_encode_push(text.take(k as int), text[k as int]);
                lemma_byte_len_grows(text, k + 1);
            }
            offset = offset + utf8_len(chars[k]);
            k += 1;
        }
        let mut findings: Vec<Finding> = Vec::new();
        let mut i: usize = start;
        assert(out@.skip(kept.len() as int) =~= Seq::<char>::empty());
        assert(finding_views(findings@) =~= Seq::<FindingView>::empty());
        while i < n
            invariant
                start <= i <= n,
                n == chars.len(),
                text == chars@,
                valid_utf8(line.spec_contents()),
                text == decode_utf8(line.spec_contents()),
                start == if from <= text.len() {
                    from as int
                } else {
                    text.len() as int
                },
                kept == old(out)@,
                self.wf(),
                line.wf(),
                base == line.position(),
                byte_len(text) == line.spec_size(),
                base + byte_len(text) <= usize::MAX,
                offset == byte_len(text.take(i as int)),
                out@.len() >= kept.len(),
                out@.take(kept.len() as int) == kept,
                self.scanned(
                    context,
                    autofix,
                    base,
                    text,
                    start as int,
                    i as int,
                    finding_views(findings@),
                    out@.skip(kept.len() as int),
                ),
            decreases n - i,
        {
            let c = chars[i];
            let width = utf8_len(c);
            proof {
                assert(text.take(i + 1) =~= text.take(i as int).push(text[i as int]));
                lemma_encode_push(text.take(i as int), text[i as int]);
                lemma_byte_len_grows(text, i + 1);
            }
            let ghost seen = finding_views(findings@);
            let ghost written = out@.skip(kept.len() as int);
            let mut obsolete: Option<&Icon> = None;
            match self.get_icon_by_codepoint(c) {
                Some(icon) => {
                    if icon.obsolete {
                        obsolete = Some(icon);
                    }
                },
                None => {},
            }
            match obsolete {
                Some(icon) => {
                    let begin = line.offset_of(offset);
                    let finding = self.report(
                        context,
                        autofix,
                        icon,
                        begin,
                        begin + width,
                        Ghost(base),
                        Ghost(text),
                        Ghost(i as int),
                    );
                    let fix = finding.fix;
                    let ghost view = finding@;
                    findings.push(finding);
                    proof {
                        assert(finding_views(findings@) =~= seen.push(view));
                        assert(finding_views(findings@).drop_last() =~= seen);
                    }
                    match fix {
                        Some(fix) => {
                            match fix.written(c) {
                                Some(d) => {
                                    out.push(d);
                                    proof {
                                        let now = out@.skip(kept.len() as int);
                                        assert(now =~= written.push(d));
                                        assert(now.drop_last() =~= written);
                                        assert(out@.take(kept.len() as int) =~= kept);
                                    }
                                },
                                None => {
                                    proof {
                                        assert(autofix);
                                        assert(view.fix == Some(Fix::Ask));
                                        assert(finding_views(findings@).last() == view);
                                        assert(out@.skip(kept.len() as int) == written);
                                    }
                                    return Ok(LineScan { findings, asked: Some(i) });
                                },
                            }
                        },
                        None => {},
                    }
                },
                None => {
                    if autofix {
                        out.push(c);
                        proof {
                            let now = out@.skip(kept.len() as int);
                            assert(now =~= written.push(c));
                            assert(now.drop_last() =~= written);
                            assert(out@.take(kept.len() as int) =~= kept);
                        }
                    }
                },
            }
            offset = offset + width;
            i += 1;
        }
        Ok(LineScan { findings, asked: None })
    }
}

/// Takes in the answer to the question what replaces the icon `original`.
///
/// A chosen replacement is written and remembered for the codepoint; after
/// a cancelled question the icon is written as it is. Nothing is written
/// after an abort, and the result says that the scan does not go on.
pub fn apply_reply(context: &mut CheckerContext, original: char, reply: Reply, out: &mut String) -> (goes_on:
    bool)
    ensures
        final(context).format == old(context).format,
        final(context).write == old(context).write,
        final(context).select_first == old(context).select_first,
        final(context).include_binary == old(context).include_binary,
        final(context).size_limit == old(context).size_limit,
        match reply {
            Reply::Chosen(c) => {
                &&& goes_on
                &&& final(context).history@ == old(context).history@.insert(original as u32, c)
                &&& final(out)@ == old(out)@.push(c)
            },
            Reply::Cancelled => {
                &&& goes_on
                &&& final(context).history@ == old(context).history@
                &&& final(out)@ == old(out)@.push(original)
            },
            Reply::Aborted => {
                &&& !goes_on
                &&& final(context).history@ == old(context).history@
                &&& final(out)@ == old(out)@
            },
        },
{
    match reply {
        Reply::Chosen(c) => {
            context.history.insert(code_of(original), c);
            out.push(c);
            true
        },
        Reply::Cancelled => {
            out.push(original);
            true
        },
        Reply::Aborted => false,
    }
}

/// Appends the line from the character at `from` on to `out` as it is: what
/// is left of a source once the user has stopped the scan.
pub fn flush_from(line: &InputLine, from: usize, out: &mut String) -> (result: Result<(), Error>)
    requires
        line.wf(),
    ensures
        !valid_utf8(line.spec_contents()) ==> {
            &&& result == Err::<(), Error>(Error::Utf8)
            &&& final(out)@ == old(out)@
        },
        valid_utf8(line.spec_contents()) ==> {
            let text = decode_utf8(line.spec_contents());
            &&& result is Ok
            &&& final(out)@ == old(out)@ + if from <= text.len() {
                text.skip(from as int)
            } else {
                Seq::empty()
            }
        },
{
    let chars = match decode(line.contents()) {
        Some(chars) => chars,
        None => {
            return Err(Error::Utf8);
        },
    };
    let n = chars.len();
    let start = if from <= n {
        from
    } else {
        n
    };
    let ghost kept = out@;
    let mut i: usize = start;
    assert(out@ =~= kept + chars@.subrange(start as int, i as int));
    while i < n
        invariant
            start <= i <= n,
            n == chars.len(),
            out@ == kept + chars@.subrange(start as int, i as int),
        decreases n - i,
    {
        out.push(chars[i]);
        assert(chars@.subrange(start as int, i + 1) =~= chars@.subrange(start as int, i as int).push(
            chars@[i as int],
        ));
        i += 1;
    }
    assert(chars@.subrange(start as int, n as int) =~= chars@.skip(start as int));
    Ok(())
}

/// A scan without a question over text that shows no obsolete icon reports
/// nothing and writes the text as it is.
pub proof fn lemma_clean_scan(
    runtime: &Runtime,
    context: &CheckerContext,
    autofix: bool,
    base: int,
    text: Seq<char>,
    from: int,
    to: int,
    findings: Seq<FindingView>,
    written: Seq<char>,
)
    requires
        0 <= from <= to <= text.len(),
        runtime.scanned(context, autofix, base, text, from, to, findings, written),
        forall|i: int| from <= i < to ==> runtime@.obsolete_at(#[trigger] text[i]) is None,
    ensures
        findings.len() == 0,
        written == if autofix {
            text.subrange(from, to)
        } else {
            Seq::empty()
        },
    decreases to - from,
{
    if to > from {
        let before = if autofix {
            written.drop_last()
        } else {
            written
        };
        assert(runtime@.obsolete_at(text[to - 1]) is None);
        lemma_clean_scan(runtime, context, autofix, base, text, from, to - 1, findings, before);
        if autofix {
            assert(written =~= before.push(written.last()));
            assert(text.subrange(from, to) =~= text.subrange(from, to - 1).push(text[to - 1]));
        }
    } else {
        assert(text.subrange(from, to) =~= Seq::<char>::empty());
    }
}

/// Scanning text in which no obsolete icon is left changes nothing: the
/// scan asks nothing, reports nothing, and what it writes is the text.
pub proof fn law_clean_text_unchanged(
    runtime: &Runtime,
    context: &CheckerContext,
    autofix: bool,
    base: int,
    text: Seq<char>,
    from: int,
    asked: Option<usize>,
    findings: Seq<FindingView>,
    written: Seq<char>,
)
    requires
        0 <= from <= text.len(),
        runtime.scan_result(context, autofix, base, text, from, asked, findings, written),
        forall|i: int| from <= i < text.len() ==> runtime@.obsolete_at(#[trigger] text[i]) is None,
    ensures
        asked is None,
        findings.len() == 0,
        written == if autofix {
            text.skip(from)
        } else {
            Seq::empty()
        },
{
    match asked {
        Some(at) => {
            assert(runtime@.obsolete_at(text[at as int]) is None);
        },
        None => {
            lemma_clean_scan(
                runtime,
                context,
                autofix,
                base,
                text,
                from,
                text.len() as int,
                findings,
                written,
            );
            assert(text.subrange(from, text.len() as int) =~= text.skip(from));
        },
    }
}

/// Once the user has chosen a replacement for an icon, every later
/// occurrence of that icon gets it without a question, whatever the rules
/// and the candidates say.
pub proof fn law_answer_is_reused(
    history: Map<u32, char>,
    icon: IconView,
    chosen: char,
    substitution: Option<IconView>,
    select_first: bool,
    candidates: Seq<IconView>,
)
    ensures
        spec_fix(
            history.insert(icon.codepoint as u32, chosen),
            substitution,
            select_first,
            candidates,
            icon,
        ) == Fix::Last(chosen),
        Fix::Last(chosen).spec_written(icon.codepoint) == Some(chosen),
{
}

/// How the check of a source ended.
#[derive(Clone, Copy, Debug, PartialEq, Eq, Structural)]
pub enum Outcome {
    /// No obsolete icon was found.
    NoChanges,
    /// Obsolete icons were found, and the source was read to its end.
    Patched,
    /// The user stopped the check: what was written is patched up to the
    /// icon in question and unchanged from there on.
    Partial,
}

/// The check of one source, line by line.
///
/// For each line the caller calls `begin_line` and then `scan` until the
/// scan asks nothing more; after a scan that asks, it hands the answer to
/// `reply`.
pub struct Session {
    autofix: bool,
    updated: bool,
    aborted: bool,
    /// The position in the line of the character that is scanned next.
    from: usize,
    /// The position of the icon in question, and the icon.
    pending: Option<(usize, char)>,
}

impl Session {
    /// Whether the patched text is written.
    pub closed spec fn autofix(&self) -> bool {
        self.autofix
    }

    /// Whether an obsolete icon was found.
    pub closed spec fn updated(&self) -> bool {
        self.updated
    }

    /// Whether the user has stopped the check.
    pub closed spec fn aborted(&self) -> bool {
        self.aborted
    }

    /// The position in the line of the character that is scanned next.
    pub closed spec fn cursor(&self) -> usize {
        self.from
    }

    /// The position of the icon for which an answer is awaited, and the
    /// icon.
    pub closed spec fn pending(&self) -> Option<(usize, char)> {
        self.pending
    }

    /// How the check ends if it ends now.
    pub open spec fn spec_outcome(&self) -> Outcome {
        if self.aborted() {
            Outcome::Partial
        } else if self.updated() {
            Outcome::Patched
        } else {
            Outcome::NoChanges
        }
    }

    /// The check of a source that was not read yet.
    pub fn new(autofix: bool) -> (session: Session)
        ensures
            session.autofix() == autofix,
            !session.updated(),
            !session.aborted(),
            session.cursor() == 0,
            session.pending() is None,
    {
        Session { autofix, updated: false, aborted: false, from: 0, pending: None }
    }

    /// How the check ends if it ends now.
    pub fn outcome(&self) -> (outcome: Outcome)
        ensures
            outcome == self.spec_outcome(),
    {
        if self.aborted {
            Outcome::Partial
        } else if self.updated {
            Outcome::Patched
        } else {
            Outcome::NoChanges
        }
    }

    /// Whether an obsolete icon was found so far.
    pub fn found_any(&self) -> (yes: bool)
        ensures
            yes == self.updated(),
    {
        self.updated
    }

    /// Goes to the start of the next line.
    pub fn begin_line(&mut self)
        ensures
            final(self).cursor() == 0,
            final(self).pending() is None,
            final(self).autofix() == old(self).autofix(),
            final(self).updated() == old(self).updated(),
            final(self).aborted() == old(self).aborted(),
    {
        self.from = 0;
        self.pending = None;
    }

    /// Scans the line from the cursor on.
    ///
    /// Once the user has stopped the check, the rest of the line is written
    /// as it is, where the patched text is written at all, and nothing is
    /// reported. Else the line is scanned as `Runtime::check_line` scans
    /// it; where the scan asks, the icon in question is kept for `reply`,
    /// and where it does not, the line is done.
    pub fn scan(
        &mut self,
        runtime: &Runtime,
        context: &CheckerContext,
        line: &InputLine,
        out: &mut String,
    ) -> (result: Result<LineScan, Error>)
        requires
            runtime.wf(),
            line.wf(),
        ensures
            final(self).autofix() == old(self).autofix(),
            final(self).aborted() == old(self).aborted(),
            !valid_utf8(line.spec_contents()) ==> {
                &&& result == Err::<LineScan, Error>(Error::Utf8)
                &&& final(out)@ == old(out)@
                &&& final(self).updated() == old(self).updated()
            },
            valid_utf8(line.spec_contents()) ==> {
                let text = decode_utf8(line.spec_contents());
                let start = if old(self).cursor() <= text.len() {
                    old(self).cursor() as int
                } else {
                    text.len() as int
                };
                &&& result is Ok
                &&& final(out)@.len() >= old(out)@.len()
                &&& final(out)@.take(old(out)@.len() as int) == old(out)@
                &&& if old(self).aborted() {
                    &&& result->Ok_0.findings@.len() == 0
                    &&& result->Ok_0.asked is None
                    &&& final(self).pending() is None
                    &&& final(self).updated() == old(self).updated()
                    &&& final(self).cursor() == text.len()
                    &&& final(out)@.skip(old(out)@.len() as int) == if old(self).autofix() {
                        text.skip(start)
                    } else {
                        Seq::empty()
                    }
                } else {
                    &&& runtime.scan_result(
                        context,
                        old(self).autofix(),
                        line.position() as int,
                        text,
                        start,
                        result->Ok_0.asked,
                        finding_views(result->Ok_0.findings@),
                        final(out)@.skip(old(out)@.len() as int),
                    )
                    &&& final(self).updated() == (old(self).updated() || result->Ok_0.findings@.len()
                        > 0)
                    &&& match result->Ok_0.asked {
                        Some(at) => final(self).pending() == Some((at, text[at as int]))
                            && final(self).cursor() == at,
                        None => final(self).pending() is None && final(self).cursor()
                            == text.len(),
                    }
                }
            },
    {
        let chars = match decode(line.contents()) {
            Some(chars) => chars,
            None => {
                return Err(Error::Utf8);
            },
        };
        let n = chars.len();
        let start = if self.from <= n {
            self.from
        } else {
            n
        };
        if self.aborted {
            let ghost kept = out@;
            if self.autofix {
                match flush_from(line, start, out) {
                    Ok(_) => {},
                    Err(_) => {
                        return Err(Error::Utf8);
                    },
                }
                assert(out@.skip(kept.len() as int) =~= chars@.skip(start as int));
                assert(out@.take(kept.len() as int) =~= kept);
            } else {
                assert(out@.skip(kept.len() as int) =~= Seq::<char>::empty());
                assert(out@.take(kept.len() as int) =~= kept);
            }
            self.from = n;
            self.pending = None;
            return Ok(LineScan { findings: Vec::new(), asked: None });
        }
        let found = match runtime.check_line(context, line, self.from, self.autofix, out) {
            Ok(found) => found,
            Err(_) => {
                return Err(Error::Utf8);
            },
        };
        if found.findings.len() > 0 {
            self.updated = true;
        }
        match found.asked {
            Some(at) => {
                self.from = at;
                self.pending = Some((at, chars[at]));
            },
            None => {
                self.from = n;
                self.pending = None;
            },
        }
        Ok(found)
    }

    /// Takes in the answer for the icon in question.
    ///
    /// A chosen replacement is written and remembered, after a cancelled
    /// question the icon is written as it is, and the scan goes on behind
    /// the icon. After an abort the rest of the line is written as it is,
    /// the line is done, and so is every line that follows. Without an icon
    /// in question nothing happens.
    pub fn reply(
        &mut self,
        context: &mut CheckerContext,
        line: &InputLine,
        reply: Reply,
        out: &mut String,
    ) -> (result: Result<(), Error>)
        requires
            line.wf(),
        ensures
            final(self).autofix() == old(self).autofix(),
            final(self).updated() == old(self).updated(),
            final(context).format == old(context).format,
            final(context).write == old(context).write,
            final(context).select_first == old(context).select_first,
            final(context).include_binary == old(context).include_binary,
            final(context).size_limit == old(context).size_limit,
            match old(self).pending() {
                None => {
                    &&& result is Ok
                    &&& final(self).aborted() == old(self).aborted()
                    &&& final(self).cursor() == old(self).cursor()
                    &&& final(self).pending() is None
                    &&& final(context).history@ == old(context).history@
                    &&& final(out)@ == old(out)@
                },
                Some((at, original)) => match reply {
                    Reply::Chosen(c) => {
                        &&& result is Ok
                        &&& final(self).aborted() == old(self).aborted()
                        &&& final(self).pending() is None
                        &&& final(self).cursor() == if at < usize::MAX {
                            (at + 1) as usize
                        } else {
                            at
                        }
                        &&& final(context).history@ == old(context).history@.insert(
                            original as u32,
                            c,
                        )
                        &&& final(out)@ == old(out)@.push(c)
                    },
                    Reply::Cancelled => {
                        &&& result is Ok
                        &&& final(self).aborted() == old(self).aborted()
                        &&& final(self).pending() is None
                        &&& final(self).cursor() == if at < usize::MAX {
                            (at + 1) as usize
                        } else {
                            at
                        }
                        &&& final(context).history@ == old(context).history@
                        &&& final(out)@ == old(out)@.push(original)
                    },
                    Reply::Aborted => {
                        &&& final(context).history@ == old(context).history@
                        &&& final(self).pending() is None
                        &&& if valid_utf8(line.spec_contents()) {
                            let text = decode_utf8(line.spec_contents());
                            &&& result is Ok
                            &&& final(self).aborted()
                            &&& final(self).cursor() == usize::MAX
                            &&& final(out)@ == old(out)@ + if at <= text.len() {
                                text.skip(at as int)
                            } else {
                                Seq::empty()
                            }
                        } else {
                            &&& result == Err::<(), Error>(Error::Utf8)
                            &&& final(self).aborted() == old(self).aborted()
                            &&& final(out)@ == old(out)@
                        }
                    },
                },
            },
    {
        let (at, original) = match self.pending {
            Some(pending) => pending,
            None => {
                return Ok(());
            },
        };
        self.pending = None;
        if apply_reply(context, original, reply, out) {
            self.from = if at < usize::MAX {
                at + 1
            } else {
                at
            };
            Ok(())
        } else {
            match flush_from(line, at, out) {
                Ok(_) => {
                    self.aborted = true;
                    self.from = usize::MAX;
                    Ok(())
                },
                Err(_) => Err(Error::Utf8),
            }
        }
    }
}

} // verus!
