//! Reads the icons from what a source of input holds: a database written
//! as JSON, or the cheat sheet of the font.

use crate::error::Error;
use crate::icon::{parse_hex, spec_parse_codepoint, Database, Icon, IconView};
use crate::runtime::icon_views;
use crate::text::{chars_of, find_first, first_index_of, lemma_first_index_of, spells, string_of};
use vstd::prelude::*;

verus! {

/// Whether a character is white space: the characters with the property
/// White_Space of Unicode.
pub open spec fn is_whitespace(c: char) -> bool {
    let v = c as u32;
    ||| 0x09 <= v <= 0x0D
    ||| v == 0x20
    ||| v == 0x85
    ||| v == 0xA0
    ||| v == 0x1680
    ||| 0x2000 <= v <= 0x200A
    ||| v == 0x2028
    ||| v == 0x2029
    ||| v == 0x202F
    ||| v == 0x205F
    ||| v == 0x3000
}

/// What `json_strip_comments::strip` leaves of a text.
pub uninterp spec fn comments_stripped(s: Seq<char>) -> Seq<char>;

/// Whether a character is white space.
pub fn char_is_whitespace(c: char) -> (yes: bool)
    ensures
        yes == is_whitespace(c),
{
    let v: u32 = c as u32;
    (0x09 <= v && v <= 0x0D) || v == 0x20 || v == 0x85 || v == 0xA0 || v == 0x1680 || (0x2000
        <= v && v <= 0x200A) || v == 0x2028 || v == 0x2029 || v == 0x202F || v == 0x205F || v
        == 0x3000
}

/// `json_strip_comments::strip`: the text with its comments blanked, as far
/// as the crate gets; its verdict on the text is dropped. What is left has
/// the name `comments_stripped` here.
#[verifier::external_body]
fn strip_comments(text: String) -> (stripped: String)
    ensures
        stripped@ == comments_stripped(text@),
{
    let mut text = text;
    json_strip_comments::strip(&mut text).ok();
    text
}

/// The number of characters of white space with which `s` begins.
pub open spec fn leading_space(s: Seq<char>) -> int
    decreases s.len(),
{
    if s.len() == 0 || !is_whitespace(s[0]) {
        0
    } else {
        1 + leading_space(s.drop_first())
    }
}

/// `s` without the white space with which it begins.
pub open spec fn trimmed(s: Seq<char>) -> Seq<char> {
    s.skip(leading_space(s))
}

/// Whether the text is taken for JSON: behind its leading white space it
/// begins with a brace.
pub open spec fn is_json(s: Seq<char>) -> bool {
    trimmed(s).len() > 0 && trimmed(s)[0] == '{'
}

/// The number of characters of white space with which `chars` begins.
fn skip_space(chars: &Vec<char>) -> (n: usize)
    ensures
        n == leading_space(chars@),
        n <= chars.len(),
{
    let mut i: usize = 0;
    assert(chars@.skip(0) =~= chars@);
    while i < chars.len() && char_is_whitespace(chars[i])
        invariant
            i <= chars.len(),
            leading_space(chars@) == i + leading_space(chars@.skip(i as int)),
        decreases chars.len() - i,
    {
        proof {
            assert(chars@.skip(i as int).drop_first() =~= chars@.skip(i + 1));
        }
        i += 1;
    }
    i
}

/// The number of times `c` stands at the beginning of `s`.
pub open spec fn run_of(s: Seq<char>, c: char) -> int
    decreases s.len(),
{
    if s.len() == 0 || s[0] != c {
        0
    } else {
        1 + run_of(s.drop_first(), c)
    }
}

/// The greatest position up to `j` at which `sep` stands in `t`, or -1
/// where it stands at none from 1 on.
pub open spec fn last_separator(t: Seq<char>, sep: Seq<char>, j: int) -> int
    decreases j,
{
    if j < 1 {
        -1
    } else if j + sep.len() <= t.len() && t.subrange(j, j + sep.len()) == sep {
        j
    } else {
        last_separator(t, sep, j - 1)
    }
}

/// How a line of the cheat sheet begins: whether the icon is obsolete, and
/// where its name begins. The beginning is spaces, `"nf`, `old` for an
/// obsolete icon, and `-`.
pub open spec fn entry_head(line: Seq<char>) -> Option<(bool, int)> {
    let spaces = run_of(line, ' ');
    let r = line.skip(spaces);
    if r.len() >= 3 && r.take(3) == "\"nf"@ {
        if r.len() >= 7 && r.subrange(3, 7) == "old-"@ {
            Some((true, spaces + 7))
        } else if r.len() >= 4 && r[3] == '-' {
            Some((false, spaces + 4))
        } else {
            None
        }
    } else {
        None
    }
}

/// How a line of the cheat sheet goes on behind its beginning: the name,
/// `": "`, the codepoint in base 16 and `",`. Name and codepoint hold a
/// character each; the name is as long as it can be.
pub open spec fn entry_tail(t: Seq<char>) -> Option<(Seq<char>, Seq<char>)> {
    if t.len() >= 2 && t.skip(t.len() - 2) == "\","@ {
        let j = last_separator(t, "\": \""@, t.len() - 7);
        if j >= 1 {
            Some((t.take(j), t.subrange(j + 4, t.len() - 2)))
        } else {
            None
        }
    } else {
        None
    }
}

/// What a line of the cheat sheet says: whether the icon is obsolete, its
/// name and its codepoint in base 16.
pub open spec fn sheet_entry(line: Seq<char>) -> Option<(bool, Seq<char>, Seq<char>)> {
    match entry_head(line) {
        Some((old, at)) => match entry_tail(line.skip(at)) {
            Some((name, code)) => Some((old, name, code)),
            None => None,
        },
        None => None,
    }
}

/// The first line of `s` without its line break, and the number of
/// characters of `s` that the line takes with its line break.
pub open spec fn first_line(s: Seq<char>) -> (Seq<char>, int) {
    let at = first_index_of(s, '\n');
    if at == s.len() {
        (s, at)
    } else if at > 0 && s[at - 1] == '\r' {
        (s.take(at - 1), at + 1)
    } else {
        (s.take(at), at + 1)
    }
}

/// The icons of the cheat sheet `s`, read from the line numbered `n + 1`
/// on, where `started` says whether the list has begun and `icons` are the
/// icons read so far.
///
/// The list begins behind the line `const glyphs = {` and ends with the
/// line `}` or the text. A line of the list that is no entry makes the
/// sheet invalid at its number; a sheet without a list is invalid at 0.
pub open spec fn sheet_icons(s: Seq<char>, n: nat, started: bool, icons: Seq<IconView>) -> Result<
    Seq<IconView>,
    Error,
>
    decreases s.len(),
{
    if s.len() == 0 {
        if started {
            Ok(icons)
        } else {
            Err(Error::InvalidCheatSheet(0))
        }
    } else {
        let (line, taken) = first_line(s);
        if taken <= 0 || taken > s.len() {
            Err(Error::InvalidCheatSheet(0))
        } else {
            let rest = s.skip(taken);
            if !started {
                sheet_icons(rest, n + 1, line == "const glyphs = {"@, icons)
            } else if line == "}"@ {
                Ok(icons)
            } else {
                match sheet_entry(line) {
                    None => Err(Error::InvalidCheatSheet((n + 1) as usize)),
                    Some((obsolete, name, code)) => match spec_parse_codepoint(code) {
                        None => Err(Error::InvalidCodepoint),
                        Some(codepoint) => sheet_icons(
                            rest,
                            n + 1,
                            true,
                            icons.push(IconView { name, codepoint, obsolete }),
                        ),
                    },
                }
            }
        }
    }
}

/// The first line of a text that holds a character takes at least one
/// character of it.
pub proof fn lemma_first_line(s: Seq<char>)
    requires
        s.len() > 0,
    ensures
        0 < first_line(s).1 <= s.len(),
{
    lemma_first_index_of(s, '\n');
}

/// Reads the beginning of the entry in `chars[from..to]`: whether the icon
/// is obsolete, and where its name begins.
fn read_head(chars: &Vec<char>, from: usize, to: usize) -> (head: Option<(bool, usize)>)
    requires
        from <= to <= chars.len(),
    ensures
        match head {
            Some((old, start)) => from <= start <= to && entry_head(
                chars@.subrange(from as int, to as int),
            ) == Some((old, start - from)),
            None => entry_head(chars@.subrange(from as int, to as int)) is None,
        },
{
    let ghost line = chars@.subrange(from as int, to as int);
    let mut p: usize = from;
    assert(line.skip(0) =~= line);
    while p < to && chars[p] == ' '
        invariant
            from <= p <= to <= chars.len(),
            line == chars@.subrange(from as int, to as int),
            run_of(line, ' ') == (p - from) + run_of(line.skip(p - from), ' '),
        decreases to - p,
    {
        proof {
            assert(line.skip(p - from).drop_first() =~= line.skip(p - from + 1));
        }
        p += 1;
    }
    let ghost r = line.skip(p - from);
    assert(r =~= chars@.subrange(p as int, to as int));
    if to - p < 3 {
        return None;
    }
    assert(r.take(3) =~= chars@.subrange(p as int, p + 3));
    if !spells(chars, p, p + 3, "\"nf") {
        return None;
    }
    if to - p >= 7 {
        assert(r.subrange(3, 7) =~= chars@.subrange(p + 3, p + 7));
        if spells(chars, p + 3, p + 7, "old-") {
            return Some((true, p + 7));
        }
    }
    if to - p >= 4 && chars[p + 3] == '-' {
        Some((false, p + 4))
    } else {
        None
    }
}

/// Reads the rest of the entry in `chars[start..to]`: where its name and
/// its codepoint stand.
fn read_tail(chars: &Vec<char>, start: usize, to: usize) -> (tail: Option<
    (usize, usize, usize, usize),
>)
    requires
        start <= to <= chars.len(),
    ensures
        match tail {
            Some((a, b, c, d)) => {
                &&& start <= a <= b <= c <= d <= to
                &&& entry_tail(chars@.subrange(start as int, to as int)) == Some(
                    (chars@.subrange(a as int, b as int), chars@.subrange(c as int, d as int)),
                )
            },
            None => entry_tail(chars@.subrange(start as int, to as int)) is None,
        },
{
    let ghost t = chars@.subrange(start as int, to as int);
    if to - start < 2 {
        return None;
    }
    assert(t.skip(t.len() - 2) =~= chars@.subrange(to - 2, to as int));
    if !spells(chars, to - 2, to, "\",") {
        return None;
    }
    let ghost sep = "\": \""@;
    proof {
        reveal_strlit("\": \"");
    }
    if to - start < 8 {
        return None;
    }
    let mut j: usize = to - start - 7;
    while j >= 1
        invariant
            j <= to - start - 7,
            start + 8 <= to <= chars.len(),
            t == chars@.subrange(start as int, to as int),
            t.skip(t.len() - 2) == "\","@,
            sep == "\": \""@,
            sep.len() == 4,
            last_separator(t, sep, t.len() - 7) == last_separator(t, sep, j as int),
        decreases j,
    {
        assert(t.subrange(j as int, j + 4) =~= chars@.subrange(start + j, start + j + 4));
        if spells(chars, start + j, start + j + 4, "\": \"") {
            proof {
                assert(t.take(j as int) =~= chars@.subrange(start as int, start + j));
                assert(t.subrange(j + 4, t.len() - 2) =~= chars@.subrange(start + j + 4, to - 2));
            }
            return Some((start, start + j, start + j + 4, to - 2));
        }
        j -= 1;
    }
    None
}

/// Reads the entry in `chars[from..to]`: whether the icon is obsolete, and
/// where its name and its codepoint stand.
fn read_entry(chars: &Vec<char>, from: usize, to: usize) -> (entry: Option<
    (bool, usize, usize, usize, usize),
>)
    requires
        from <= to <= chars.len(),
    ensures
        match entry {
            Some((obsolete, a, b, c, d)) => {
                &&& from <= a <= b <= c <= d <= to
                &&& sheet_entry(chars@.subrange(from as int, to as int)) == Some(
                    (
                        obsolete,
                        chars@.subrange(a as int, b as int),
                        chars@.subrange(c as int, d as int),
                    ),
                )
            },
            None => sheet_entry(chars@.subrange(from as int, to as int)) is None,
        },
{
    match read_head(chars, from, to) {
        Some((old, start)) => {
            assert(chars@.subrange(from as int, to as int).skip(start - from) =~= chars@.subrange(
                start as int,
                to as int,
            ));
            match read_tail(chars, start, to) {
                Some((a, b, c, d)) => Some((old, a, b, c, d)),
                None => None,
            }
        },
        None => None,
    }
}

/// Reads the icons of a cheat sheet.
pub fn parse_cheat_sheet(s: &str) -> (result: Result<Vec<Icon>, Error>)
    ensures
        match sheet_icons(s@, 0, false, Seq::empty()) {
            Ok(icons) => result is Ok && icon_views(result->Ok_0@) == icons,
            Err(e) => result == Err::<Vec<Icon>, Error>(e),
        },
{
    let chars = chars_of(s);
    let total = chars.len();
    let mut icons: Vec<Icon> = Vec::new();
    let mut started = false;
    let mut n: usize = 0;
    let mut pos: usize = 0;
    assert(chars@.skip(0) =~= s@);
    assert(icon_views(icons@) =~= Seq::<IconView>::empty());
    while pos < total
        invariant
            pos <= total,
            total == chars.len(),
            chars@ == s@,
            n <= pos,
            sheet_icons(s@, 0, false, Seq::empty()) == sheet_icons(
                chars@.skip(pos as int),
                n as nat,
                started,
                icon_views(icons@),
            ),
        decreases total - pos,
    {
        let ghost rest = chars@.skip(pos as int);
        proof {
            lemma_first_line(rest);
            lemma_first_index_of(rest, '\n');
            assert(chars@.subrange(pos as int, total as int) =~= rest);
        }
        let at = find_first(&chars, pos, total, '\n');
        let next = if at == total - pos {
            total
        } else {
            pos + at + 1
        };
        let end = if at < total - pos && at > 0 && chars[pos + at - 1] == '\r' {
            pos + at - 1
        } else {
            pos + at
        };
        proof {
            assert(chars@.subrange(pos as int, end as int) =~= first_line(rest).0);
            assert(next - pos == first_line(rest).1);
            assert(rest.skip(next - pos) =~= chars@.skip(next as int));
        }
        n = n + 1;
        if !started {
            started = spells(&chars, pos, end, "const glyphs = {");
        } else if spells(&chars, pos, end, "}") {
            return Ok(icons);
        } else {
            match read_entry(&chars, pos, end) {
                None => {
                    return Err(Error::InvalidCheatSheet(n));
                },
                Some((obsolete, a, b, c, d)) => {
                    let codepoint = match parse_hex(&chars, c, d) {
                        Some(v) => match char::from_u32(v) {
                            Some(ch) => ch,
                            None => {
                                return Err(Error::InvalidCodepoint);
                            },
                        },
                        None => {
                            return Err(Error::InvalidCodepoint);
                        },
                    };
                    let icon = Icon { name: string_of(&chars, a, b), codepoint, obsolete };
                    let ghost before = icons@;
                    icons.push(icon);
                    assert(icon_views(icons@) =~= icon_views(before).push(icon@));
                },
            }
        }
        pos = next;
    }
    if started {
        Ok(icons)
    } else {
        Err(Error::InvalidCheatSheet(0))
    }
}

/// What a source of input holds, before it is read.
pub enum Content {
    /// A database written as JSON, with its comments blanked.
    Json(String),
    /// The cheat sheet of the font.
    CheatSheet(String),
}

/// Tells what kind of input `s` is and drops its leading white space; the
/// comments of JSON are blanked for its decoder.
pub fn classify(s: &str) -> (content: Content)
    ensures
        match content {
            Content::Json(text) => is_json(s@) && text@ == comments_stripped(trimmed(s@)),
            Content::CheatSheet(text) => !is_json(s@) && text@ == trimmed(s@),
        },
{
    let chars = chars_of(s);
    let from = skip_space(&chars);
    assert(chars@.subrange(from as int, chars.len() as int) =~= trimmed(s@));
    let text = string_of(&chars, from, chars.len());
    if from < chars.len() && chars[from] == '{' {
        Content::Json(strip_comments(text))
    } else {
        Content::CheatSheet(text)
    }
}

/// `result` is what the input `s` holds: for JSON, what the decoder `json`
/// makes of it without its leading white space and with its comments
/// blanked; else the icons of the cheat sheet that is left behind the
/// leading white space, without rules.
pub open spec fn parses<F: Fn(&str) -> Result<Database, Error>>(
    s: Seq<char>,
    json: F,
    result: Result<Database, Error>,
) -> bool {
    if is_json(s) {
        exists|text: &str|
            text@ == comments_stripped(trimmed(s)) && json.ensures((text,), result)
    } else {
        match sheet_icons(trimmed(s), 0, false, Seq::empty()) {
            Ok(icons) => {
                &&& result is Ok
                &&& icon_views(result->Ok_0.icons@) == icons
                &&& result->Ok_0.substitutions@.len() == 0
            },
            Err(e) => result == Err::<Database, Error>(e),
        }
    }
}

/// Reads what a source of input holds. JSON is handed to `json`, the
/// decoder of databases, without its leading white space and with its
/// comments blanked; anything else is read as a cheat sheet.
pub fn parse<F: Fn(&str) -> Result<Database, Error>>(s: &str, json: F) -> (result: Result<
    Database,
    Error,
>)
    requires
        forall|text: &str| json.requires((text,)),
    ensures
        parses(s@, json, result),
{
    match classify(s) {
        Content::Json(text) => json(text.as_str()),
        Content::CheatSheet(text) => match parse_cheat_sheet(text.as_str()) {
            Ok(icons) => Ok(Database { icons, substitutions: Vec::new() }),
            Err(e) => Err(e),
        },
    }
}

} // verus!
