use nerdfix::autocomplete::{merge, slack, Autocompleter, MAX_SUGGESTIONS, THRESHOLD};
use nerdfix::automaton::{accepts_bytes, Automaton, Contains, Exact, Search};
use nerdfix::contain::ContainmentIndex;
use nerdfix::icon::Icon;
use nerdfix::ngram::{keep_above, keep_near, rank, Match, NGramIndex};
use nerdfix::runtime::{Runtime, Tuning, MAX_CHOICES};

fn icon(name: &str, codepoint: u32, obsolete: bool) -> Icon {
    Icon {
        name: name.to_owned(),
        codepoint: char::from_u32(codepoint).unwrap(),
        obsolete,
    }
}

fn runtime(icons: Vec<Icon>) -> Runtime {
    let mut builder = Runtime::builder();
    for icon in icons {
        builder.with_icon(icon);
    }
    builder.build()
}

fn a_match(name: &str, id: usize, score: f32, query: usize, shared: usize) -> Match {
    Match {
        name: name.to_owned(),
        id,
        score: score.to_bits(),
        item_ngrams: query,
        query_ngrams: query,
        shared_ngrams: shared,
    }
}

fn names(matches: &[Match]) -> Vec<&str> {
    matches.iter().map(|m| m.name.as_str()).collect()
}

fn search(word: &str) -> Contains<Exact> {
    Contains {
        inner: Exact {
            word: word.as_bytes().to_vec(),
        },
    }
}

#[test]
fn thresholds_are_the_bits_of_their_numbers() {
    assert_eq!(nerdfix::runtime::THRESHOLD, 0.7f32.to_bits());
    assert_eq!(THRESHOLD, 0.6f32.to_bits());
    assert_eq!(slack(3), 5);
    assert_eq!(slack(1), 1);
    assert_eq!(MAX_CHOICES, 4);
    assert_eq!(MAX_SUGGESTIONS, 100);
}

#[test]
fn similarity_of_a_name_to_itself_is_one() {
    let rt = runtime(vec![icon("md-tab", 0xf0e7, false), icon("md-table", 0xf0e8, false)]);
    let matches = rt.fuzzy_matches("md-tab");
    let own = matches.iter().find(|m| m.name == "md-tab").unwrap();
    assert_eq!(own.score, 1.0f32.to_bits());
    assert_eq!(own.shared_ngrams, own.query_ngrams);
    assert_eq!(own.shared_ngrams, own.item_ngrams);
    assert_eq!(own.id, 0);
    for m in &matches {
        assert!(m.score <= 1.0f32.to_bits());
    }
}

#[test]
fn fuzzy_index_counts_ngrams() {
    let mut index = NGramIndex::new(3, 2, 3);
    assert_eq!(index.arity(), 3);
    index.insert("abcde".to_owned(), 7);
    index.insert("cde".to_owned(), 8);
    index.insert("fgh".to_owned(), 9);
    index.insert("cde".to_owned(), 10);
    let mut found = index.overlaps("abcdefg");
    found.sort_by(|a, b| a.name.cmp(&b.name));
    assert_eq!(found.len(), 2);
    assert_eq!(
        (found[0].name.as_str(), found[0].id, found[0].item_ngrams),
        ("abcde", 7, 7)
    );
    assert_eq!((found[0].query_ngrams, found[0].shared_ngrams), (9, 5));
    assert_eq!(
        (found[1].name.as_str(), found[1].id, found[1].shared_ngrams),
        ("cde", 8, 1)
    );
    let matches = index.matches("cde");
    let own = matches.iter().find(|m| m.name == "cde").unwrap();
    assert_eq!(own.score, 1.0f32.to_bits());
    let other = matches.iter().find(|m| m.name == "abcde").unwrap();
    assert!(other.score < own.score);
    assert!(other.score > 0.0f32.to_bits());
}

#[test]
fn fuzzy_index_without_padding_and_short_query() {
    let mut index = NGramIndex::new(3, 0, 1);
    index.insert("abc".to_owned(), 0);
    assert!(index.overlaps("").is_empty());
    assert!(index.overlaps("a").is_empty());
    assert!(index.matches("").is_empty());
    assert_eq!(index.overlaps("abc").len(), 1);
}

#[test]
fn empty_index_finds_nothing() {
    let rt = runtime(vec![icon("old", 0xf001, true)]);
    assert!(rt.fuzzy_matches("old").is_empty());
    assert!(rt.get_candidates(&rt.fuzzy_matches("old")).is_empty());
    assert!(rt.names_containing("o", 10).is_empty());
}

#[test]
fn ranking_order() {
    let matches = vec![
        a_match("b", 1, 0.5, 5, 1),
        a_match("c", 2, 0.9, 5, 4),
        a_match("a", 0, 0.5, 5, 1),
        a_match("a", 3, 0.5, 5, 1),
        a_match("ab", 4, 0.5, 5, 1),
    ];
    let ranked = rank(&matches);
    assert_eq!(names(&ranked), vec!["c", "a", "a", "ab", "b"]);
    assert_eq!(ranked[1].id, 0);
    assert_eq!(ranked[2].id, 3);
    assert!(rank(&Vec::new()).is_empty());
}

#[test]
fn filters_by_score_and_by_missing_ngrams() {
    let matches = vec![
        a_match("low", 0, 0.2, 9, 2),
        a_match("edge", 1, 0.7, 9, 2),
        a_match("high", 2, 0.71, 9, 2),
        a_match("near", 3, 0.2, 9, 5),
    ];
    let kept = keep_above(&matches, 0.7f32.to_bits());
    assert_eq!(names(&kept), vec!["high"]);
    let kept = keep_near(&matches, 0.6f32.to_bits(), 5);
    assert_eq!(names(&kept), vec!["edge", "high", "near"]);
    assert_eq!(matches[3].missing(), 4);
    assert_eq!(a_match("odd", 0, 0.1, 2, 3).missing(), 0);
}

#[test]
fn candidates_are_the_best_four() {
    let rt = runtime(vec![
        icon("a", 0xf001, false),
        icon("b", 0xf002, false),
        icon("c", 0xf003, false),
        icon("d", 0xf004, false),
        icon("e", 0xf005, false),
        icon("f", 0xf006, false),
    ]);
    let matches = vec![
        a_match("a", 0, 0.75, 5, 1),
        a_match("b", 1, 0.8, 5, 1),
        a_match("c", 2, 0.7, 5, 1),
        a_match("d", 3, 0.9, 5, 1),
        a_match("e", 4, 0.8, 5, 1),
        a_match("f", 5, 0.95, 5, 1),
    ];
    let found = rt.get_candidates(&matches);
    let found: Vec<&str> = found.iter().map(|i| i.name.as_str()).collect();
    assert_eq!(found, vec!["f", "d", "b", "e"]);
    assert!(rt.get_candidates(&Vec::new()).is_empty());
}

#[test]
fn candidates_of_a_similar_name() {
    let rt = runtime(vec![
        icon("mdi-access_point", 0xf501, true),
        icon("md-access_point", 0xf0003, false),
        icon("md-access_point_network", 0xf0002, false),
        icon("cod-account", 0xeb99, false),
    ]);
    let found = rt.get_candidates(&rt.fuzzy_matches("mdi-access_point"));
    assert!(!found.is_empty());
    assert_eq!(found[0].name, "md-access_point");
    assert!(found.iter().all(|i| !i.obsolete));
    assert!(found.len() <= MAX_CHOICES);
}

#[test]
fn exact_automaton() {
    let exact = Exact {
        word: b"tab".to_vec(),
    };
    assert!(accepts_bytes(&exact, b"tab"));
    assert!(!accepts_bytes(&exact, b"ta"));
    assert!(!accepts_bytes(&exact, b"tabs"));
    assert!(!accepts_bytes(&exact, b"xtab"));
    assert!(!accepts_bytes(&exact, b""));
    assert!(accepts_bytes(&Exact { word: Vec::new() }, b""));
    let state = exact.start();
    assert!(exact.can_match(&state));
    assert!(!exact.is_match(&state));
    let dead = exact.accept(&state, b'x');
    assert!(!exact.can_match(&dead));
    assert_eq!(exact.accept(&dead, b't'), None);
}

#[test]
fn containment_automaton() {
    let tab = search("tab");
    assert!(accepts_bytes(&tab, b"tab"));
    assert!(accepts_bytes(&tab, b"md-tab"));
    assert!(accepts_bytes(&tab, b"md-table_row"));
    assert!(accepts_bytes(&tab, b"stab"));
    assert!(!accepts_bytes(&tab, b"ta-b"));
    assert!(!accepts_bytes(&tab, b""));
    assert!(accepts_bytes(&search(""), b""));
    assert!(accepts_bytes(&search(""), b"anything"));
    assert!(matches!(search("").start(), Search::Done));
    assert!(matches!(tab.start(), Search::Running(Some(0))));
    assert!(tab.can_match(&tab.start()));
}

#[test]
fn containment_restarts_behind_the_byte_that_failed() {
    // the attempt that begins with the first `a` fails at the second one,
    // and the next attempt begins behind it
    assert!(!accepts_bytes(&search("ab"), b"aab"));
    assert!(accepts_bytes(&search("ab"), b"aabab"));
    assert!(accepts_bytes(&search("ab"), b"xab"));
}

#[test]
fn containment_index_is_sorted() {
    let mut index = ContainmentIndex::new();
    assert!(index.insert("md-tab"));
    assert!(index.insert("cod-table"));
    assert!(index.insert("md-account"));
    assert!(!index.insert("md-tab"));
    assert!(index.insert("md-ta"));
    assert_eq!(index.len(), 4);
    let all: Vec<&str> = (0..index.len()).map(|i| index.get(i)).collect();
    assert_eq!(all, vec!["cod-table", "md-account", "md-ta", "md-tab"]);
    assert_eq!(index.containing("tab", 10), vec!["cod-table", "md-tab"]);
    assert_eq!(index.containing("tab", 1), vec!["cod-table"]);
    assert_eq!(index.containing("tab", 0), Vec::<String>::new());
    assert_eq!(index.containing("xyz", 10), Vec::<String>::new());
    assert_eq!(index.containing("", 10).len(), 4);
    let tab = search("tab");
    assert_eq!(index.next_match(&tab, 0), Some(0));
    assert_eq!(index.next_match(&tab, 1), Some(3));
    assert_eq!(index.next_match(&tab, 4), None);
    assert_eq!(index.search(&tab, 5), vec!["cod-table", "md-tab"]);
}

#[test]
fn containment_matches_are_the_names_with_the_query() {
    let corpus = ["md-tab", "md-table", "cod-account", "fa-stab", "oct-tag", "x"];
    let mut index = ContainmentIndex::new();
    for name in corpus {
        index.insert(name);
    }
    for query in ["tab", "a", "-", "md-", "table", "q", "cod-account", "ta"] {
        let found = index.containing(query, 100);
        for name in corpus {
            assert_eq!(
                found.iter().any(|n| n == name),
                name.contains(query),
                "{} in {}",
                query,
                name
            );
        }
    }
}

#[test]
fn suggestions_for_empty_input_are_numbers() {
    let rt = runtime(vec![icon("md-tab", 0xf0e7, false)]);
    let mut completer = Autocompleter::new(3);
    assert_eq!(completer.suggestions(&rt, ""), vec!["1", "2", "3"]);
    assert_eq!(completer.last.as_deref(), Some("1"));
    let mut completer = Autocompleter::new(12);
    assert_eq!(completer.numbers().last().unwrap(), "12");
    let mut completer0 = Autocompleter::new(0);
    assert!(completer0.suggestions(&rt, "").is_empty());
    assert_eq!(completer0.last, None);
    assert_eq!(completer.suggestions(&rt, "").len(), 12);
}

#[test]
fn suggestions_merge_both_searches() {
    let rt = runtime(vec![
        icon("md-tab", 0xf0e7, false),
        icon("md-table", 0xf0e8, false),
        icon("fa-stab", 0xf0e9, false),
        icon("mdi-tab", 0xf001, true),
        icon("cod-account", 0xeb99, false),
    ]);
    let mut completer = Autocompleter::new(2);
    let found = completer.suggestions(&rt, "md-tab");
    assert_eq!(found[0], "\u{f0e7} md-tab");
    assert!(found.contains(&"\u{f0e8} md-table".to_owned()));
    assert!(!found.iter().any(|s| s.ends_with("mdi-tab")));
    assert_eq!(completer.last.as_deref(), Some("\u{f0e7} md-tab"));
    // each icon is suggested once
    let mut seen = found.clone();
    seen.sort();
    seen.dedup();
    assert_eq!(seen.len(), found.len());
    // the substring search adds what the fuzzy search misses
    let found = completer.suggestions(&rt, "stab");
    assert!(found.contains(&"\u{f0e9} fa-stab".to_owned()));
    let found = completer.suggestions(&rt, "zzzz");
    assert!(found.is_empty());
    assert_eq!(completer.last, None);
}

#[test]
fn merged_suggestions() {
    let rt = runtime(vec![
        icon("a", 0x61, false),
        icon("b", 0x62, false),
        icon("c", 0x63, false),
    ]);
    let ranked = vec![a_match("b", 1, 0.9, 5, 4), a_match("a", 0, 0.8, 5, 4)];
    let contained = vec!["a".to_owned(), "c".to_owned(), "unknown".to_owned()];
    assert_eq!(
        merge(&rt, &ranked, &contained, MAX_SUGGESTIONS),
        vec!["b b", "a a", "c c", "unknown"]
    );
    assert_eq!(merge(&rt, &ranked, &contained, 3), vec!["b b", "a a", "c c"]);
    assert_eq!(merge(&rt, &ranked, &contained, 1), vec!["b b"]);
    assert!(merge(&rt, &ranked, &contained, 0).is_empty());
    let many: Vec<Match> = (0..150).map(|_| a_match("a", 0, 0.9, 5, 4)).collect();
    assert_eq!(merge(&rt, &many, &Vec::new(), MAX_SUGGESTIONS), vec!["a a"]);
}

#[test]
fn suggestions_are_capped() {
    let mut icons = Vec::new();
    for i in 0..150u32 {
        icons.push(icon(&format!("md-tab{:03}", i), 0xf0000 + i, false));
    }
    let rt = runtime(icons);
    let mut completer = Autocompleter::new(0);
    let found = completer.suggestions(&rt, "tab");
    assert_eq!(found.len(), MAX_SUGGESTIONS);
}

#[test]
fn completion_prefers_the_highlighted_suggestion() {
    let mut completer = Autocompleter::new(2);
    assert_eq!(completer.completion("", None), Some("1".to_owned()));
    assert_eq!(completer.completion("ab", None), None);
    assert_eq!(
        completer.completion("ab", Some("x y".to_owned())),
        Some("x y".to_owned())
    );
    completer.last = Some("z last".to_owned());
    assert_eq!(completer.completion("ab", None), Some("z last".to_owned()));
    assert_eq!(completer.completion("", None), Some("z last".to_owned()));
    assert_eq!(
        completer.completion("ab", Some("x y".to_owned())),
        Some("x y".to_owned())
    );
}

#[test]
fn settings_of_the_search() {
    let usual = Tuning::default();
    assert_eq!((usual.arity, usual.pad_len, usual.warp), (3, 2, 3));
    assert_eq!(usual.threshold, 0.7f32.to_bits());
    assert_eq!(usual.max_choices, 4);
    assert!(usual.is_valid());
    let mut builder = Runtime::builder();
    // no index can be made of n-grams without characters, nor with padding
    // as long as an n-gram
    assert!(!builder.with_tuning(Tuning { arity: 0, pad_len: 0, ..usual }));
    assert!(!builder.with_tuning(Tuning { arity: 2, pad_len: 2, ..usual }));
    // nor with an exponent whose powers leave the range of the numbers
    assert!(!builder.with_tuning(Tuning { warp: 0, ..usual }));
    assert!(!builder.with_tuning(Tuning { warp: 8, ..usual }));
    assert!(!builder.with_tuning(Tuning { warp: 100, ..usual }));
    assert!(builder.with_tuning(Tuning {
        arity: 2,
        pad_len: 1,
        warp: 1,
        threshold: 0.0f32.to_bits(),
        max_choices: 1,
    }));
    for (name, code) in [("mdi-tab", 0xf001), ("md-tab", 0xf0e7), ("md-table", 0xf0e8)] {
        builder.with_icon(icon(name, code, name == "mdi-tab"));
    }
    let rt = builder.build();
    assert_eq!(rt.corpus_arity(), 2);
    let found = rt.get_candidates(&rt.fuzzy_matches("mdi-tab"));
    assert_eq!(found.len(), 1);
    assert_eq!(found[0].name, "md-tab");
    let mut completer = Autocompleter::new(0);
    completer.max_suggestions = 1;
    assert_eq!(completer.suggestions(&rt, "tab").len(), 1);
    completer.max_suggestions = 0;
    assert!(completer.suggestions(&rt, "tab").is_empty());
}
