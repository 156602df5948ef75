use nerdfix::error::Error;
use nerdfix::icon::{Database, Icon, Substitution, SubstitutionType};
use nerdfix::runtime::{Rejection, Runtime, RuntimeBuilder};
use nerdfix::table::IconTable;

fn icon(name: &str, codepoint: u32, obsolete: bool) -> Icon {
    Icon {
        name: name.to_owned(),
        codepoint: char::from_u32(codepoint).unwrap(),
        obsolete,
    }
}

fn rule(text: &str) -> Substitution {
    text.parse().unwrap()
}

fn runtime(icons: Vec<Icon>, rules: &[&str]) -> Runtime {
    let mut builder = Runtime::builder();
    for icon in icons {
        builder.with_icon(icon);
    }
    for text in rules {
        builder.with_substitution(rule(text)).unwrap();
    }
    builder.build()
}

#[test]
fn table_keeps_the_first_icon_of_a_name() {
    let mut table = IconTable::new();
    assert_eq!(table.len(), 0);
    assert!(table.insert(icon("a", 0xf001, false)));
    assert!(table.insert(icon("b", 0xf002, false)));
    assert!(!table.insert(icon("a", 0xf003, true)));
    assert_eq!(table.len(), 2);
    assert_eq!(table.get(0), &icon("a", 0xf001, false));
    assert_eq!(table.get(1), &icon("b", 0xf002, false));
    assert_eq!(table.get_by_name("a"), Some(&icon("a", 0xf001, false)));
    assert_eq!(table.get_by_name("c"), None);
}

#[test]
fn last_icon_of_a_codepoint_counts() {
    let rt = runtime(
        vec![
            icon("old", 0xf001, true),
            icon("new", 0xf001, false),
            icon("other", 0xf002, false),
        ],
        &[],
    );
    assert_eq!(rt.len(), 3);
    assert_eq!(rt.get_icon_by_codepoint('\u{f001}').unwrap().name, "new");
    assert_eq!(rt.get_icon_by_codepoint('\u{f002}').unwrap().name, "other");
    assert!(rt.get_icon_by_codepoint('\u{f003}').is_none());
    assert_eq!(rt.get_icon_by_name("old").unwrap().codepoint, '\u{f001}');
    assert!(rt.get_icon_by_name("none").is_none());
    assert_eq!(rt.icon_at(2).name, "other");
    assert_eq!(rt.in_use('\u{f002}').unwrap().name, "other");
}

#[test]
fn prefix_rule_round_trip() {
    let rules = ["prefix:mdi-/md-"];
    let rt = runtime(
        vec![icon("mdi-tab", 0xf001, true), icon("md-tab", 0xf0e7, false)],
        &rules,
    );
    let old = rt.get_icon_by_name("mdi-tab").unwrap();
    assert_eq!(rt.get_substitution(old).unwrap().codepoint, '\u{f0e7}');
    // without the replacement there is no rule to apply, and no error
    let rt = runtime(vec![icon("mdi-tab", 0xf001, true)], &rules);
    let old = rt.get_icon_by_name("mdi-tab").unwrap();
    assert!(rt.get_substitution(old).is_none());
}

#[test]
fn prefix_rule_needs_an_icon_in_use() {
    let rt = runtime(
        vec![icon("mdi-tab", 0xf001, true), icon("md-tab", 0xf0e7, true)],
        &["prefix:mdi-/md-"],
    );
    let old = rt.get_icon_by_name("mdi-tab").unwrap();
    assert!(rt.get_substitution(old).is_none());
}

#[test]
fn first_prefix_rule_that_applies_counts() {
    let rt = runtime(
        vec![
            icon("mdi-tab", 0xf001, true),
            icon("md-tab", 0xf0e7, false),
            icon("x-tab", 0xf0e8, false),
        ],
        &["prefix:mdi-/none-", "prefix:mdi/x", "prefix:mdi-/md-"],
    );
    let old = rt.get_icon_by_name("mdi-tab").unwrap();
    assert_eq!(rt.get_substitution(old).unwrap().name, "x-tab");
}

#[test]
fn rules_by_kind() {
    let rt = runtime(
        vec![
            icon("a-old", 0xf001, true),
            icon("a-new", 0xf002, false),
            icon("a-exact", 0xf003, false),
            icon("a-code", 0xf004, false),
        ],
        &[
            "prefix:a-old/a-new",
            "exact:a-old/a-none",
            "exact:a-old/a-exact",
            "codepoint:f001/f004",
        ],
    );
    let old = rt.get_icon_by_name("a-old").unwrap();
    // the codepoint rule counts first
    assert_eq!(rt.get_substitution(old).unwrap().name, "a-code");
    let rt = runtime(
        vec![
            icon("a-old", 0xf001, true),
            icon("a-new", 0xf002, false),
            icon("a-exact", 0xf003, false),
        ],
        &[
            "prefix:a-old/a-new",
            "exact:a-old/a-none",
            "exact:a-old/a-exact",
            "codepoint:f001/f004",
        ],
    );
    let old = rt.get_icon_by_name("a-old").unwrap();
    // the last exact rule for the name counts, before the prefix rules
    assert_eq!(rt.get_substitution(old).unwrap().name, "a-exact");
    let rt = runtime(
        vec![icon("a-old", 0xf001, true), icon("a-new", 0xf002, false)],
        &["prefix:a-old/a-new", "exact:a-old/a-none"],
    );
    let old = rt.get_icon_by_name("a-old").unwrap();
    assert_eq!(rt.get_substitution(old).unwrap().name, "a-new");
    let listed: Vec<String> = rt.rules().iter().map(|r| r.to_string()).collect();
    assert_eq!(listed, vec!["exact:a-old/a-none", "prefix:a-old/a-new"]);
}

#[test]
fn rules_do_not_chain() {
    let rt = runtime(
        vec![
            icon("a", 0xf001, true),
            icon("b", 0xf002, true),
            icon("c", 0xf003, false),
        ],
        &["exact:a/b", "exact:b/c"],
    );
    let a = rt.get_icon_by_name("a").unwrap();
    assert_eq!(rt.get_substitution(a).unwrap().name, "b");
}

#[test]
fn codepoint_rule_must_hold_codepoints() {
    let mut builder = RuntimeBuilder::new();
    let bad = Substitution {
        ty: SubstitutionType::Codepoint,
        from: "f001".to_owned(),
        to: "xyz".to_owned(),
    };
    assert_eq!(builder.with_substitution(bad.clone()), Err(Error::InvalidCodepoint));
    assert_eq!(
        builder.with_substitutions(vec![rule("exact:a/b"), bad, rule("exact:a/c")]),
        Err(Error::InvalidCodepoint)
    );
    let mut builder2 = RuntimeBuilder::new();
    builder2.with_icon(icon("a", 0xf001, true));
    builder2.with_icon(icon("b", 0xf002, false));
    builder2.with_icon(icon("c", 0xf003, false));
    assert_eq!(
        builder2.with_substitutions(vec![
            rule("exact:a/b"),
            Substitution {
                ty: SubstitutionType::Codepoint,
                from: "zz".to_owned(),
                to: "f002".to_owned(),
            },
            rule("exact:a/c"),
        ]),
        Err(Error::InvalidCodepoint)
    );
    // the rules before the refused one stay, those behind it are not read
    let rt = builder2.build();
    let a = rt.get_icon_by_name("a").unwrap();
    assert_eq!(rt.get_substitution(a).unwrap().name, "b");
}

#[test]
fn loading_a_database() {
    let mut builder = Runtime::builder();
    let db = Database {
        icons: vec![
            icon("a-old", 0xf001, true),
            icon("a-new", 0xf002, false),
            icon("a-old", 0xf003, false),
        ],
        substitutions: vec![rule("a-old/a-new")],
    };
    assert_eq!(builder.load(db), Ok(()));
    let rt = builder.build();
    assert_eq!(rt.len(), 2);
    let old = rt.get_icon_by_name("a-old").unwrap();
    assert!(old.obsolete);
    assert_eq!(rt.get_substitution(old).unwrap().name, "a-new");
}

#[test]
fn loading_input() {
    let sheet = "const glyphs = {\n\"nfold-a\": \"f001\",\n\"nf-b\": \"f002\",\n}\n";
    let decoder = |_: &str| Err::<Database, Error>(Error::Json("no decoder".to_owned()));
    let mut builder = Runtime::builder();
    assert_eq!(builder.load_db(sheet, decoder), Ok(()));
    assert_eq!(
        builder.load_db("{}", decoder),
        Err(Error::Json("no decoder".to_owned()))
    );
    assert_eq!(builder.load_db("x", decoder), Err(Error::InvalidCheatSheet(0)));
    let rt = builder.build();
    assert_eq!(rt.len(), 2);
    assert!(rt.get_icon_by_name("a").unwrap().obsolete);
}

#[test]
fn picking_an_icon_at_the_prompt() {
    let rt = runtime(
        vec![
            icon("mdi-tab", 0xf001, true),
            icon("md-tab", 0xf0e7, false),
            icon("md-table", 0xf0e8, false),
        ],
        &[],
    );
    let candidates = vec![icon("md-table", 0xf0e8, false), icon("md-tab", 0xf0e7, false)];
    assert_eq!(rt.pick_icon(&candidates, "1").unwrap().name, "md-table");
    assert_eq!(rt.pick_icon(&candidates, " 2 and more").unwrap().name, "md-tab");
    assert_eq!(rt.pick_icon(&candidates, "md-tab").unwrap().codepoint, '\u{f0e7}');
    assert_eq!(rt.pick_icon(&candidates, "\u{f0e8} md-table").unwrap().name, "md-table");
    assert_eq!(rt.pick_icon(&candidates, "U+F0E7").unwrap().name, "md-tab");
    assert_eq!(rt.pick_icon(&candidates, "u+f0e8").unwrap().name, "md-table");
}

#[test]
fn input_that_picks_no_icon() {
    let rt = runtime(
        vec![icon("mdi-tab", 0xf001, true), icon("md-tab", 0xf0e7, false)],
        &[],
    );
    let candidates = vec![icon("md-tab", 0xf0e7, false)];
    assert_eq!(rt.pick_icon(&candidates, ""), Err(Rejection::Invalid));
    assert_eq!(rt.pick_icon(&candidates, "   "), Err(Rejection::Invalid));
    assert_eq!(rt.pick_icon(&candidates, "u+xyz"), Err(Rejection::Invalid));
    assert_eq!(rt.pick_icon(&candidates, "0"), Err(Rejection::Candidate(0)));
    assert_eq!(rt.pick_icon(&candidates, "2"), Err(Rejection::Candidate(2)));
    assert_eq!(
        rt.pick_icon(&candidates, "md-tabs"),
        Err(Rejection::Name("md-tabs".to_owned()))
    );
    assert_eq!(
        rt.pick_icon(&candidates, "mdi-tab"),
        Err(Rejection::Name("mdi-tab".to_owned()))
    );
    assert_eq!(rt.pick_icon(&candidates, "x"), Err(Rejection::Icon('x')));
    assert_eq!(
        rt.pick_icon(&candidates, "\u{f001}"),
        Err(Rejection::Icon('\u{f001}'))
    );
    assert_eq!(
        rt.pick_icon(&candidates, "U+F001"),
        Err(Rejection::Codepoint(0xf001))
    );
    assert_eq!(
        rt.pick_icon(&candidates, "U+D800"),
        Err(Rejection::Codepoint(0xd800))
    );
    assert_eq!(
        rt.pick_icon(&candidates, "U+41"),
        Err(Rejection::Codepoint(0x41))
    );
}

#[test]
fn a_candidate_must_be_in_use_too() {
    let rt = runtime(
        vec![icon("mdi-tab", 0xf001, true), icon("md-tab", 0xf0e7, false)],
        &[],
    );
    let candidates = vec![
        icon("mdi-tab", 0xf001, true),
        icon("md-none", 0xf0e8, false),
        icon("md-tab", 0xf0e9, false),
        icon("md-tab", 0xf0e7, false),
    ];
    assert_eq!(rt.pick_icon(&candidates, "1"), Err(Rejection::Candidate(1)));
    assert_eq!(rt.pick_icon(&candidates, "2"), Err(Rejection::Candidate(2)));
    assert_eq!(rt.pick_icon(&candidates, "3"), Err(Rejection::Candidate(3)));
    assert_eq!(rt.pick_icon(&candidates, "4"), Ok(icon("md-tab", 0xf0e7, false)));
    let empty = runtime(Vec::new(), &[]);
    assert_eq!(
        empty.pick_icon(&vec![icon("mdi-tab", 0xf001, true)], "1"),
        Err(Rejection::Candidate(1))
    );
}
