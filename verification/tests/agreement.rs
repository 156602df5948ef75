use std::str::FromStr;

use nerdfix::autocomplete::Autocompleter;
use nerdfix::checker::CheckerContext;
use nerdfix::cli::{OutputFormat, UserInput};
use nerdfix::contain::ContainmentIndex;
use nerdfix::db::CachedIcon;
use nerdfix::error::Error;
use nerdfix::icon::{display_codepoint, hex_padded, Database, Icon, Substitution, SubstitutionType};
use nerdfix::input::InputReader;
use nerdfix::ngram::{rank, Match, NGramIndex, ONE};
use nerdfix::parser::{char_is_whitespace, parse};
use nerdfix::runtime::Runtime;
use regex::Regex;

fn no_json(_: &str) -> Result<Database, Error> {
    Err(Error::Json("no decoder".to_owned()))
}

/// The icons of a cheat sheet, read line by line with a regular expression.
fn sheet_by_regex(s: &str) -> Result<Vec<(String, char, bool)>, Error> {
    let re = Regex::new(r#"^ *"nf(old)?-(.+)": "(.+)",$"#).unwrap();
    let mut started = false;
    let mut icons = Vec::new();
    let mut n = 0;
    for line in s.trim_start().lines() {
        n += 1;
        if !started {
            started = line == "const glyphs = {";
        } else {
            if line == "}" {
                break;
            }
            let caps = re.captures(line).ok_or(Error::InvalidCheatSheet(n))?;
            let code = u32::from_str_radix(caps.get(3).unwrap().as_str(), 16)
                .ok()
                .and_then(char::from_u32)
                .ok_or(Error::InvalidCodepoint)?;
            icons.push((
                caps.get(2).unwrap().as_str().to_owned(),
                code,
                caps.get(1).is_some(),
            ));
        }
    }
    if started {
        Ok(icons)
    } else {
        Err(Error::InvalidCheatSheet(0))
    }
}

#[test]
fn cheat_sheet_agrees_with_the_pattern() {
    let lines = [
        "\"nf-a\": \"f001\",",
        "   \"nf-cod-account\": \"eb99\",",
        "\"nfold-mdi-tab\": \"f502\",",
        "\"nfold\": \"f502\",",
        "\"nfold-\": \"f502\",",
        "\"nfoldx-a\": \"f502\",",
        "\"nf-old-a\": \"f502\",",
        "\"nf--\": \"f502\",",
        "\"nf-a\": \"\",",
        "\"nf-a\": \"f001\"",
        "\"nf-a\": \"f001\", ",
        "\t\"nf-a\": \"f001\",",
        "\"nf-a\":\"f001\",",
        "\"nf-a\": \"b\": \"f001\",",
        "\"nf-a\": \"f001\",\",",
        "\"nf-a\": \": \"f001\",",
        "\"nf-\": \": \"f001\",",
        "\"nf-a\": \"\",\",",
        "\"nf-\u{e9}\": \"e9\",",
        "x\"nf-a\": \"f001\",",
        "\"nf-a\": \"f001\",\r",
        "",
        " ",
        "\"nf",
        "\"nf-",
        "\"nf-a\": \"",
        "\"nf-a\": \"\",",
        "\"nf-a\": \"g\",",
        "\"nf-a\": \"110000\",",
    ];
    for line in lines {
        for end in ["\n", "\r\n", ""] {
            let sheet = format!("\n const glyphs = {{\nconst glyphs = {{{}{}{}}}\n", end, line, end);
            let expected = sheet_by_regex(&sheet);
            let found = parse(&sheet, no_json)
                .map(|db| {
                    db.icons
                        .into_iter()
                        .map(|i| (i.name, i.codepoint, i.obsolete))
                        .collect::<Vec<_>>()
                });
            assert_eq!(found, expected, "{:?}", sheet);
        }
    }
}

#[test]
fn cheat_sheet_lines_agree_with_std() {
    let sheets = [
        "const glyphs = {\n\"nf-a\": \"f001\",\n}",
        "const glyphs = {\r\n\"nf-a\": \"f001\",\r\n}\r\n",
        "const glyphs = {\r\"nf-a\": \"f001\",\n}",
        "const glyphs = {\n\n\"nf-a\": \"f001\",\n}",
        "const glyphs = {\n\"nf-a\": \"f001\",\n}\r",
        "const glyphs = {\r\r\n}",
        "const glyphs = {",
        "const glyphs = {\n",
        "x\n\nconst glyphs = {\n\"nf-a\": \"f001\",\n\"nf-b\": \"zz\",\n",
        "\n\n\n",
    ];
    for sheet in sheets {
        let expected = sheet_by_regex(sheet);
        let found = parse(sheet, no_json).map(|db| {
            db.icons
                .into_iter()
                .map(|i| (i.name, i.codepoint, i.obsolete))
                .collect::<Vec<_>>()
        });
        assert_eq!(found, expected, "{:?}", sheet);
    }
}

/// A rule read by one pass over the characters.
fn rule_by_scanning(s: &str) -> Result<(SubstitutionType, String, String), &'static str> {
    let mut cur = s.chars();
    let mut ty = None::<SubstitutionType>;
    let mut from = None::<&str>;
    let mut start = 0usize;
    while let Some(ch) = cur.next() {
        match ch {
            ':' if ty.is_none() => {
                start = s.len() - cur.as_str().len();
                ty = Some(match &s[..(start - 1)] {
                    "exact" => SubstitutionType::Exact,
                    "prefix" => SubstitutionType::Prefix,
                    "codepoint" => SubstitutionType::Codepoint,
                    _ => return Err("unknown substitution type"),
                });
            }
            '/' => {
                let i = start;
                start = s.len() - cur.as_str().len();
                from = Some(&s[i..(start - 1)]);
            }
            _ => {}
        }
    }
    let to = &s[start..];
    match from {
        Some(from) if !from.is_empty() && !to.is_empty() => {
            Ok((ty.unwrap_or(SubstitutionType::Exact), from.to_owned(), to.to_owned()))
        }
        _ => Err("invalid substitution syntax"),
    }
}

#[test]
fn rules_agree_with_one_pass() {
    let texts = [
        "", "a", "/", "a/", "/b", "a/b", "a/b/c", "a//b", "a/b/", "//", ":", "a:b", ":a/b",
        "exact:", "exact:a", "exact:a/b", "exact:/b", "exact:a/", "prefix:a/b/c", "prefix:a:b/c",
        "codepoint:f001/f002", "a/b:c", "a/exact:b/c", "exact:a/b:c/d", "x:exact:a/b",
        "exact:exact:a/b", "\u{e9}/\u{f001}", "prefix:\u{e9}\u{e9}/\u{f001}", "exact::/:",
        "Exact:a/b", " exact:a/b", "exact :a/b", "a/b/c/d", "exact:a/b/c/", "exact:/",
    ];
    for text in texts {
        let found = Substitution::from_str(text).map(|r| (r.ty, r.from, r.to));
        assert_eq!(found, rule_by_scanning(text), "{:?}", text);
    }
}

/// What the user typed, read with the parsers of the standard library.
fn input_by_std(s: &str) -> Result<UserInput, Error> {
    if s.is_empty() {
        Err(Error::InvalidInput)
    } else if let Some(codepoint) = s.strip_prefix("u+").or_else(|| s.strip_prefix("U+")) {
        u32::from_str_radix(codepoint, 16)
            .map_err(|_| Error::InvalidInput)
            .map(UserInput::Codepoint)
    } else if matches!(s.as_bytes().first(), Some(b'0'..=b'9')) {
        usize::from_str(s)
            .map_err(|_| Error::InvalidInput)
            .map(UserInput::Candidate)
    } else if s.chars().count() == 1 {
        Ok(UserInput::Char(s.chars().next().unwrap()))
    } else {
        Ok(UserInput::Name(s.to_owned()))
    }
}

#[test]
fn input_agrees_with_std() {
    let texts = [
        "", "0", "1", "007", "12a", "1 ", "18446744073709551615", "18446744073709551616",
        "99999999999999999999", "u+", "U+", "u+0", "U+f001", "u+F001", "u+10FFFF", "u+ffffffff",
        "u+100000000", "u++1", "u+-1", "U+ 1", "u-1", "+1", "-1", "a", "\u{f001}", "\u{e9}",
        "ab", "md-tab", "u", "U", "uu+1", "\u{661}", "1\u{661}",
    ];
    for text in texts {
        assert_eq!(UserInput::from_str(text), input_by_std(text), "{:?}", text);
    }
}

/// A line of a cache, read with the splitter of the standard library.
fn cached_by_std(s: &str) -> Result<(String, char, bool), &'static str> {
    let mut words = s.split_ascii_whitespace();
    let name = words.next().ok_or("Miss field 'name'")?.to_owned();
    let codepoint = words.next().ok_or("Miss field 'codepoint'")?;
    let codepoint = u32::from_str_radix(codepoint, 16).map_err(|_| "Invalid field 'codepoint'")?;
    let codepoint = char::from_u32(codepoint).ok_or("Invalid field 'codepoint'")?;
    let obsolete = match words.next() {
        Some("obsolete") => true,
        Some(_) => return Err("Invalid field 'obsolete'"),
        None => false,
    };
    Ok((name, codepoint, obsolete))
}

#[test]
fn cache_lines_agree_with_std() {
    let texts = [
        "", " ", "a", "a f001", "a  f001  ", "\ta\nf001\r\x0cobsolete", "a f001 obsolete x",
        "a f001 Obsolete", "a f001 obsolete\u{a0}", "a\u{a0}f001", "a g", "a +41", "a d800",
        "a 110000", "a 100000000", "\u{b}a f001", "a f001\u{b}", " a f001 obsoletes",
    ];
    for text in texts {
        let found = CachedIcon::from_str(text).map(|c| (c.0.name, c.0.codepoint, c.0.obsolete));
        assert_eq!(found, cached_by_std(text), "{:?}", text);
    }
}

#[test]
fn ranking_agrees_with_a_sort() {
    let names = ["b", "a", "ab", "", "\u{e9}", "z", "a\u{0}", "B", "md-tab", "md-ta"];
    let scores = [0.5f32, 0.25, 1.0, 0.0, 0.5, 0.75];
    let mut matches = Vec::new();
    for (i, name) in names.iter().enumerate() {
        for (j, score) in scores.iter().enumerate() {
            if (i + j) % 3 != 0 {
                matches.push(Match {
                    name: (*name).to_owned(),
                    id: (i * 7 + j * 3) % 5,
                    score: score.to_bits(),
                    item_ngrams: i,
                    query_ngrams: j,
                    shared_ngrams: 1,
                });
            }
        }
    }
    let mut expected = matches.clone();
    expected.sort_by(|a, b| {
        f32::from_bits(b.score)
            .partial_cmp(&f32::from_bits(a.score))
            .unwrap()
            .then_with(|| a.name.cmp(&b.name))
            .then_with(|| a.id.cmp(&b.id))
    });
    let ranked = rank(&matches);
    let keys = |ms: &[Match]| -> Vec<(u32, String, usize)> {
        ms.iter().map(|m| (m.score, m.name.clone(), m.id)).collect()
    };
    assert_eq!(keys(&ranked), keys(&expected));
}

#[test]
fn index_order_agrees_with_a_sort() {
    let names = [
        "md-tab", "md-ta", "md-table", "cod-x", "", "\u{e9}", "e", "z", "Z", "\u{f001}", "a b",
        "md-tab", "\u{10ffff}", "\u{7f}", "\u{80}",
    ];
    let mut index = ContainmentIndex::new();
    for name in names {
        index.insert(name);
    }
    let mut expected: Vec<&str> = names.to_vec();
    expected.sort();
    expected.dedup();
    let found: Vec<&str> = (0..index.len()).map(|i| index.get(i)).collect();
    assert_eq!(found, expected);
}

#[test]
fn window_agrees_with_the_lines_of_the_text() {
    let text = "one\ntwo\r\n\nfour\n\u{e9}five\nsix";
    let lines: Vec<&str> = text.split_inclusive('\n').collect();
    for (before, after) in [(0, 0), (1, 3), (2, 1), (0, 4), (5, 5), (3, 0)] {
        let mut reader = InputReader::new(before, after);
        let mut source = lines.iter();
        let mut offset = 0;
        let mut number = 0;
        loop {
            let mut fresh = Vec::new();
            for _ in 0..reader.wanted() {
                fresh.push(source.next().map(|l| l.as_bytes().to_vec()).unwrap_or_default());
            }
            let Some(line) = reader.next_line(&fresh) else {
                break;
            };
            assert_eq!(line.contents(), lines[number].as_bytes());
            assert_eq!(line.offset_of(0), offset);
            assert_eq!(line.line_number(), number);
            // the context is the lines around, as far as the window and the
            // text go
            let first = number.saturating_sub(before);
            let last = (number + after).min(lines.len() - 1);
            let span = line.read_span(offset, 1, before + 1, after + 1);
            assert_eq!(span.data, lines[first..=last].concat().as_bytes());
            assert_eq!(span.line, first);
            assert_eq!(span.offset, lines[..first].concat().len());
            assert_eq!(span.len, span.data.len());
            offset += lines[number].len();
            number += 1;
        }
        assert_eq!(number, lines.len());
    }
}

#[test]
fn spans_agree_with_the_positions_of_the_characters() {
    let mut builder = Runtime::builder();
    for (name, code) in [("a", 'a'), ("e", '\u{e9}'), ("w", '\u{20ac}'), ("x", '\u{10348}')] {
        builder.with_icon(Icon {
            name: name.to_owned(),
            codepoint: code,
            obsolete: true,
        });
    }
    let rt = builder.build();
    let context = CheckerContext {
        format: OutputFormat::Json,
        ..Default::default()
    };
    let text = "a\u{e9}-\u{20ac}\u{10348}b\u{e9}a\n";
    let mut reader = InputReader::new(1, 3);
    reader.next_line(&vec![b"first\n".to_vec(), text.as_bytes().to_vec()]).unwrap();
    let line = reader.next_line(&vec![Vec::new()]).unwrap();
    let mut out = String::new();
    let found = rt.check_line(&context, &line, 0, false, &mut out).unwrap();
    let expected: Vec<(usize, usize, char)> = text
        .char_indices()
        .filter(|(_, c)| "a\u{e9}\u{20ac}\u{10348}".contains(*c))
        .map(|(i, c)| (6 + i, 6 + i + c.len_utf8(), c))
        .collect();
    let spans: Vec<(usize, usize, char)> = found
        .findings
        .iter()
        .map(|f| (f.start, f.end, f.icon.codepoint))
        .collect();
    assert_eq!(spans, expected);
}

#[test]
fn numbers_agree_with_std() {
    for n in [0u32, 9, 10, 15, 16, 255, 4096, 0xf001, 0x10ffff] {
        if let Some(c) = char::from_u32(n) {
            assert_eq!(display_codepoint(c), format!("{:x}", n));
        }
        assert_eq!(hex_padded(n, 5), format!("{:05X}", n));
        assert_eq!(hex_padded(n, 1), format!("{:X}", n));
    }
    assert_eq!(hex_padded(u32::MAX, 5), "FFFFFFFF");
    for n in [0usize, 1, 9, 10, 99, 100, 12345, usize::MAX] {
        assert_eq!(
            Error::InvalidCheatSheet(n).to_string(),
            format!("Invalid cheat sheet at line {}", n)
        );
    }
    let labels = Autocompleter::new(120).numbers();
    let expected: Vec<String> = (1..=120).map(|i| i.to_string()).collect();
    assert_eq!(labels, expected);
}

#[test]
fn scan_agrees_with_a_walk_over_the_characters() {
    let mut builder = Runtime::builder();
    let icons = [
        ("mdi-access_point", 0xf501, true),
        ("md-access_point", 0xf0003, false),
        ("mdi-tab", 0xf001, true),
        ("md-tab", 0xf0e7, false),
        ("lonely", 0xf777, true),
        ("remembered", 0xf888, true),
        ("plain", 0x78, false),
    ];
    for (name, code, obsolete) in icons {
        builder.with_icon(Icon {
            name: name.to_owned(),
            codepoint: char::from_u32(code).unwrap(),
            obsolete,
        });
    }
    builder
        .with_substitution("prefix:mdi-t/md-t".parse().unwrap())
        .unwrap();
    let rt = builder.build();
    let mut context = CheckerContext {
        select_first: true,
        format: OutputFormat::Json,
        ..Default::default()
    };
    context.history.insert(0xf888, 'R');
    let text = [
        "x\u{f501}y \u{f001}\u{f001}\n",
        "\n",
        "\u{f777} \u{e9}\u{f888}\u{f0e7}\r\n",
        "\u{f0003}x no line break",
    ];
    let mut reader = InputReader::new(1, 3);
    let mut source = text.iter();
    let mut out = String::new();
    let mut spans = Vec::new();
    loop {
        let mut fresh = Vec::new();
        for _ in 0..reader.wanted() {
            fresh.push(source.next().map(|l| l.as_bytes().to_vec()).unwrap_or_default());
        }
        let Some(line) = reader.next_line(&fresh) else {
            break;
        };
        let found = rt.check_line(&context, &line, 0, true, &mut out).unwrap();
        assert_eq!(found.asked, None);
        spans.extend(found.findings.iter().map(|f| (f.start, f.end)));
    }
    let whole = text.concat();
    let mut expected = String::new();
    let mut expected_spans = Vec::new();
    for (at, c) in whole.char_indices() {
        let icon = rt.get_icon_by_codepoint(c).filter(|i| i.obsolete);
        let Some(icon) = icon else {
            expected.push(c);
            continue;
        };
        expected_spans.push((at, at + c.len_utf8()));
        if let Some(last) = context.history.get(&(c as u32)) {
            expected.push(*last);
        } else if let Some(new) = rt.get_substitution(icon) {
            expected.push(new.codepoint);
        } else if let Some(first) = rt.get_candidates(&rt.fuzzy_matches(&icon.name)).first() {
            expected.push(first.codepoint);
        } else {
            expected.push(c);
        }
    }
    assert_eq!(out, expected);
    assert_eq!(spans, expected_spans);
    assert_eq!(
        out,
        "x\u{f0003}y \u{f0e7}\u{f0e7}\n\n\u{f777} \u{e9}R\u{f0e7}\r\n\u{f0003}x no line break"
    );
}

#[test]
fn white_space_agrees_with_std() {
    for code in 0..=0x10FFFFu32 {
        if let Some(c) = char::from_u32(code) {
            assert_eq!(char_is_whitespace(c), c.is_whitespace(), "U+{:X}", code);
        }
    }
}

#[test]
fn a_name_asked_for_itself_scores_one() {
    assert_eq!(ONE, 1.0f32.to_bits());
    for warp in [1u16, 2, 3, 7] {
        for len in [1usize, 2, 10, 200, 65534] {
            let name: String = (0..len).map(|i| char::from(b'a' + (i % 7) as u8)).collect();
            let mut index = NGramIndex::new(3, 2, warp);
            index.insert(name.clone(), 0);
            index.insert("other".to_owned(), 1);
            let matches = index.matches(&name);
            let own = matches.iter().find(|m| m.id == 0).unwrap();
            assert_eq!(own.shared_ngrams, len + 2);
            assert_eq!(own.item_ngrams, own.shared_ngrams);
            assert_eq!(own.query_ngrams, own.shared_ngrams);
            assert_eq!(own.score, ONE, "warp {} length {}", warp, len);
            for m in &matches {
                assert!(m.score <= ONE);
            }
        }
    }
}

#[test]
fn counts_out_of_range_are_not_scored() {
    // a name with more n-grams than are scored gets no score, also for
    // itself
    let name: String = (0..65535).map(|i| char::from(b'a' + (i % 7) as u8)).collect();
    let mut index = NGramIndex::new(3, 2, 3);
    index.insert(name.clone(), 0);
    let matches = index.matches(&name);
    assert_eq!(matches.len(), 1);
    assert_eq!(matches[0].shared_ngrams, 65537);
    assert_eq!(matches[0].score, 0);
}

#[test]
fn counts_follow_the_lengths() {
    let names = ["a", "ab", "md-tab", "md-table", "\u{e9}\u{f001}x", "tab"];
    for (arity, pad) in [(3usize, 2usize), (2, 1), (2, 0), (1, 0), (4, 3)] {
        let mut index = NGramIndex::new(arity, pad, 3);
        for (id, name) in names.iter().enumerate() {
            index.insert((*name).to_owned(), id);
        }
        for query in ["tab", "md-tab", "x", "\u{e9}", "zzz", "a", "ab"] {
            let own = query.chars().count() + 2 * pad + 1;
            if own < arity {
                continue;
            }
            let found = index.overlaps(query);
            for o in &found {
                assert_eq!(o.item_ngrams, o.name.chars().count() + 2 * pad + 1 - arity);
                assert_eq!(o.query_ngrams, own - arity);
                assert!(1 <= o.shared_ngrams);
                assert!(o.shared_ngrams <= o.item_ngrams && o.shared_ngrams <= o.query_ngrams);
                if o.name == query {
                    assert_eq!(o.shared_ngrams, o.item_ngrams);
                }
            }
            if names.contains(&query) && own > arity {
                assert!(found.iter().any(|o| o.name == query), "{} {} {}", arity, pad, query);
            }
        }
    }
}
