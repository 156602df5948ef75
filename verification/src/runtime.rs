//! The icons, the rules and the indexes of one run, and what they answer.

use crate::cli::{UserInput, UserInputView, spec_parse_input};
use crate::automaton::{accepts, Contains, Exact};
use crate::contain::{contains_run, first_matches, key_names, law_search_is_containment,
    restart_skips, searches_for, strictly_sorted, ContainmentIndex};
use crate::error::Error;
use crate::icon::{parse_codepoint, spec_parse_codepoint, Database, Icon, IconView, Substitution,
    SubstitutionType, SubstitutionView};
use crate::ngram::{above, is_ranked, item_names, keep_above, law_name_asked_for_itself_scores_one,
    law_ranking_is_unique, lemma_ranking_holds_the_kept, match_views, ngram_count, rank, Match,
    MatchView, NGramIndex, MAX_NGRAMS, MAX_WARP, ONE};
use crate::table::{distinct_names, name_position, IconTable};
use crate::text::{chars_of, code_of, find_word, first_index_of, first_word, last_index_of,
    lemma_first_index_of, lemma_last_index_of, starts_with};
use std::collections::HashMap;
use vstd::prelude::*;
use vstd::std_specs::hash::group_hash_axioms;
use vstd::utf8::{encode_utf8, is_scalar};

verus! {

broadcast use group_hash_axioms;

/// The number of characters per n-gram of the fuzzy index.
pub const ARITY: usize = 3;

/// The number of padding characters on each side of a name.
pub const PAD_LEN: usize = 2;

/// The exponent that the fuzzy index applies to the counts of n-grams.
pub const WARP: u16 = 3;

/// The score above which a name is offered as a candidate: seven tenths, as
/// the bits of its single-precision form.
pub const THRESHOLD: u32 = 0x3F33_3333;

/// The number of candidates that are offered for an icon.
pub const MAX_CHOICES: usize = 4;

/// The settings of the fuzzy search.
#[derive(Clone, Copy, Debug, PartialEq, Eq, Structural)]
pub struct Tuning {
    /// The number of characters per n-gram.
    pub arity: usize,
    /// The number of padding characters on each side of a name.
    pub pad_len: usize,
    /// The exponent that is applied to the counts of n-grams.
    pub warp: u16,
    /// The score above which a name is offered as a candidate, as the bits
    /// of its single-precision form.
    pub threshold: u32,
    /// The number of candidates that are offered for an icon.
    pub max_choices: usize,
}

impl Tuning {
    /// Whether an index can be made with the settings: an n-gram holds a
    /// character, the padding is shorter than an n-gram, and the exponent
    /// is at least 1 and at most `MAX_WARP`.
    pub open spec fn valid(self) -> bool {
        1 <= self.arity && self.pad_len < self.arity && 1 <= self.warp <= MAX_WARP
    }

    /// Whether an index can be made with the settings.
    pub fn is_valid(&self) -> (yes: bool)
        ensures
            yes == self.valid(),
    {
        1 <= self.arity && self.pad_len < self.arity && 1 <= self.warp && self.warp <= MAX_WARP
    }
}

impl Default for Tuning {
    fn default() -> (tuning: Self)
        ensures
            tuning == (Tuning {
                arity: ARITY,
                pad_len: PAD_LEN,
                warp: WARP,
                threshold: THRESHOLD,
                max_choices: MAX_CHOICES,
            }),
            tuning.valid(),
    {
        Tuning {
            arity: ARITY,
            pad_len: PAD_LEN,
            warp: WARP,
            threshold: THRESHOLD,
            max_choices: MAX_CHOICES,
        }
    }
}

/// The views of `icons`, in order.
pub open spec fn icon_views(icons: Seq<Icon>) -> Seq<IconView> {
    icons.map_values(|i: Icon| i@)
}

/// The views of `rules`, in order.
pub open spec fn rule_views(rules: Seq<Substitution>) -> Seq<SubstitutionView> {
    rules.map_values(|r: Substitution| r@)
}

/// The codepoints of `icons`, in order.
pub open spec fn icon_codes(icons: Seq<IconView>) -> Seq<u32> {
    icons.map_values(|i: IconView| i.codepoint as u32)
}

/// The position of the last icon with the codepoint `code`, or -1.
pub open spec fn code_position(icons: Seq<IconView>, code: u32) -> int {
    last_index_of(icon_codes(icons), code)
}

/// The names that `rules` replace, in order.
pub open spec fn rule_sources(rules: Seq<SubstitutionView>) -> Seq<Seq<char>> {
    rules.map_values(|r: SubstitutionView| r.from)
}

/// The icons that are not obsolete, each as its name and its position, in
/// order.
pub open spec fn active_items(icons: Seq<IconView>) -> Seq<(Seq<char>, usize)>
    decreases icons.len(),
{
    if icons.len() == 0 {
        Seq::empty()
    } else if icons.last().obsolete {
        active_items(icons.drop_last())
    } else {
        active_items(icons.drop_last()).push((icons.last().name, (icons.len() - 1) as usize))
    }
}

/// The names of the icons that are not obsolete.
pub open spec fn active_names(icons: Seq<IconView>) -> Set<Seq<char>> {
    Set::new(
        |name: Seq<char>|
            exists|i: int| 0 <= i < icons.len() && !(#[trigger] icons[i]).obsolete && icons[i].name == name,
    )
}

/// Every item of the icons in use names an icon of the table that is in
/// use, by its position and by its name.
pub proof fn lemma_active_items(icons: Seq<IconView>)
    requires
        icons.len() <= usize::MAX,
    ensures
        forall|k: int|
            0 <= k < active_items(icons).len() ==> {
                let e = #[trigger] active_items(icons)[k];
                &&& e.1 < icons.len()
                &&& icons[e.1 as int].name == e.0
                &&& !icons[e.1 as int].obsolete
            },
    decreases icons.len(),
{
    if icons.len() > 0 {
        lemma_active_items(icons.drop_last());
        assert forall|k: int| 0 <= k < active_items(icons).len() implies {
            let e = #[trigger] active_items(icons)[k];
            &&& e.1 < icons.len()
            &&& icons[e.1 as int].name == e.0
            &&& !icons[e.1 as int].obsolete
        } by {
            let e = active_items(icons)[k];
            if k < active_items(icons.drop_last()).len() {
                assert(e == active_items(icons.drop_last())[k]);
                assert(icons.drop_last()[e.1 as int] == icons[e.1 as int]);
            }
        }
    }
}

/// The replacement that the first of `rules` that applies gives to the icon
/// called `name`: a rule applies where `name` begins with what it replaces,
/// and the name with that beginning exchanged is the name of an icon that
/// is not obsolete.
pub open spec fn prefix_substitution(
    icons: Seq<IconView>,
    rules: Seq<SubstitutionView>,
    name: Seq<char>,
) -> Option<IconView>
    decreases rules.len(),
{
    if rules.len() == 0 {
        None
    } else {
        match prefix_target(icons, rules[0], name) {
            Some(icon) => Some(icon),
            None => prefix_substitution(icons, rules.drop_first(), name),
        }
    }
}

/// The replacement that one prefix rule gives to the icon called `name`.
pub open spec fn prefix_target(icons: Seq<IconView>, rule: SubstitutionView, name: Seq<char>) -> Option<
    IconView,
> {
    if rule.from.len() <= name.len() && name.take(rule.from.len() as int) == rule.from {
        let renamed = rule.to + name.skip(rule.from.len() as int);
        let at = name_position(icons, renamed);
        if at < icons.len() && !icons[at].obsolete {
            Some(icons[at])
        } else {
            None
        }
    } else {
        None
    }
}

/// The icons and the rules of a run, as plain values.
pub struct Rules {
    /// The icons, in order.
    pub icons: Seq<IconView>,
    /// The exact rules, in order; the last one for a name counts.
    pub exact: Seq<SubstitutionView>,
    /// The prefix rules, in order; the first one that applies counts.
    pub prefix: Seq<SubstitutionView>,
    /// The codepoint rules, by the codepoint that they replace.
    pub codepoint: Map<u32, char>,
}

impl Rules {
    /// No icons and no rules.
    pub open spec fn empty() -> Rules {
        Rules { icons: Seq::empty(), exact: Seq::empty(), prefix: Seq::empty(), codepoint: Map::empty() }
    }

    /// With `icon` added, unless an icon of its name is there.
    pub open spec fn with_icon(self, icon: IconView) -> Rules {
        if name_position(self.icons, icon.name) == self.icons.len() {
            Rules { icons: self.icons.push(icon), ..self }
        } else {
            self
        }
    }

    /// With `icons` added in order.
    pub open spec fn with_icons(self, icons: Seq<IconView>) -> Rules
        decreases icons.len(),
    {
        if icons.len() == 0 {
            self
        } else {
            self.with_icons(icons.drop_last()).with_icon(icons.last())
        }
    }

    /// With `rule` added, or nothing where it is a codepoint rule whose
    /// ends are no codepoints.
    pub open spec fn with_rule(self, rule: SubstitutionView) -> Option<Rules> {
        match rule.ty {
            SubstitutionType::Exact => Some(Rules { exact: self.exact.push(rule), ..self }),
            SubstitutionType::Prefix => Some(Rules { prefix: self.prefix.push(rule), ..self }),
            SubstitutionType::Codepoint => match (
                spec_parse_codepoint(rule.from),
                spec_parse_codepoint(rule.to),
            ) {
                (Some(from), Some(to)) => Some(
                    Rules { codepoint: self.codepoint.insert(from as u32, to), ..self },
                ),
                _ => None,
            },
        }
    }

    /// With `rules` added in order up to the first that is refused, and
    /// whether all were added.
    pub open spec fn with_rules(self, rules: Seq<SubstitutionView>) -> (Rules, bool)
        decreases rules.len(),
    {
        if rules.len() == 0 {
            (self, true)
        } else {
            let (before, ok) = self.with_rules(rules.drop_last());
            if ok {
                match before.with_rule(rules.last()) {
                    Some(after) => (after, true),
                    None => (before, false),
                }
            } else {
                (before, false)
            }
        }
    }

    /// The replacement that the rules give to `icon`: that of the codepoint
    /// rule for its codepoint, else that of the last exact rule for its
    /// name, else that of the first prefix rule that applies. A rule whose
    /// replacement is no icon of the table gives none.
    pub open spec fn substitution(self, icon: IconView) -> Option<IconView> {
        match self.codepoint_target(icon) {
            Some(found) => Some(found),
            None => match self.exact_target(icon) {
                Some(found) => Some(found),
                None => prefix_substitution(self.icons, self.prefix, icon.name),
            },
        }
    }

    /// The replacement that the codepoint rules give to `icon`.
    pub open spec fn codepoint_target(self, icon: IconView) -> Option<IconView> {
        let code = icon.codepoint as u32;
        if self.codepoint.contains_key(code) {
            let at = code_position(self.icons, self.codepoint[code] as u32);
            if at >= 0 {
                Some(self.icons[at])
            } else {
                None
            }
        } else {
            None
        }
    }

    /// The replacement that the exact rules give to `icon`.
    pub open spec fn exact_target(self, icon: IconView) -> Option<IconView> {
        let rule = last_index_of(rule_sources(self.exact), icon.name);
        if rule >= 0 {
            let at = name_position(self.icons, self.exact[rule].to);
            if at < self.icons.len() {
                Some(self.icons[at])
            } else {
                None
            }
        } else {
            None
        }
    }

    /// The icon with the codepoint `c`: the last one, where several share
    /// it.
    pub open spec fn by_codepoint(self, c: char) -> Option<IconView> {
        let at = code_position(self.icons, c as u32);
        if at >= 0 {
            Some(self.icons[at])
        } else {
            None
        }
    }

    /// The icon called `name`.
    pub open spec fn by_name(self, name: Seq<char>) -> Option<IconView> {
        let at = name_position(self.icons, name);
        if at < self.icons.len() {
            Some(self.icons[at])
        } else {
            None
        }
    }
}

/// Every icon in use is among the items of the icons in use, under its
/// name.
pub proof fn lemma_in_use_is_item(icons: Seq<IconView>, at: int)
    requires
        0 <= at < icons.len(),
        !icons[at].obsolete,
    ensures
        item_names(active_items(icons)).contains(icons[at].name),
    decreases icons.len(),
{
    let head = icons.drop_last();
    let items = active_items(icons);
    if at < head.len() {
        lemma_in_use_is_item(head, at);
        let before = item_names(active_items(head));
        let k = choose|k: int| 0 <= k < before.len() && before[k] == head[at].name;
        assert(active_items(head)[k] == items[k]);
        assert(item_names(items)[k] == icons[at].name);
    } else {
        assert(item_names(items)[items.len() - 1] == icons[at].name);
    }
}

/// Where no two icons share a name, the name of an icon finds that icon.
pub proof fn lemma_name_finds_icon(rules: Rules, at: int)
    requires
        distinct_names(rules.icons),
        0 <= at < rules.icons.len(),
    ensures
        rules.by_name(rules.icons[at].name) == Some(rules.icons[at]),
{
    let names = crate::table::icon_names(rules.icons);
    let name = rules.icons[at].name;
    lemma_first_index_of(names, name);
    let first = first_index_of(names, name);
    assert(names[at] == name);
    assert(first <= at);
    assert(names[first] == rules.icons[first].name);
    if first < at {
        assert(rules.icons[first].name != rules.icons[at].name);
    }
}

/// What is gathered before a run: the icons and the rules.
pub struct RuntimeBuilder {
    icons: IconTable,
    exact_sub: Vec<Substitution>,
    prefix_sub: Vec<Substitution>,
    codepoint_sub: HashMap<u32, char>,
    tuning: Tuning,
}

/// The icons, the rules and the indexes of one run.
pub struct Runtime {
    icons: IconTable,
    index: HashMap<u32, usize>,
    corpus: NGramIndex,
    names: ContainmentIndex,
    exact_sub: Vec<Substitution>,
    prefix_sub: Vec<Substitution>,
    codepoint_sub: HashMap<u32, char>,
    tuning: Tuning,
}

impl View for RuntimeBuilder {
    type V = Rules;

    closed spec fn view(&self) -> Rules {
        Rules {
            icons: self.icons@,
            exact: rule_views(self.exact_sub@),
            prefix: rule_views(self.prefix_sub@),
            codepoint: self.codepoint_sub@,
        }
    }
}

impl RuntimeBuilder {
    /// The settings of the fuzzy search.
    pub closed spec fn tuning(&self) -> Tuning {
        self.tuning
    }

    /// The builder's invariant: no two icons share a name, and an index can
    /// be made with the settings.
    pub closed spec fn wf(&self) -> bool {
        self.icons.wf() && self.tuning.valid()
    }

    /// A builder without icons and rules, with the usual settings.
    pub fn new() -> (builder: RuntimeBuilder)
        ensures
            builder.wf(),
            builder@ == Rules::empty(),
            builder.tuning() == (Tuning {
                arity: ARITY,
                pad_len: PAD_LEN,
                warp: WARP,
                threshold: THRESHOLD,
                max_choices: MAX_CHOICES,
            }),
    {
        let builder = RuntimeBuilder {
            icons: IconTable::new(),
            exact_sub: Vec::new(),
            prefix_sub: Vec::new(),
            codepoint_sub: HashMap::new(),
            tuning: Tuning::default(),
        };
        assert(rule_views(builder.exact_sub@) =~= Seq::<SubstitutionView>::empty());
        assert(rule_views(builder.prefix_sub@) =~= Seq::<SubstitutionView>::empty());
        builder
    }

    /// Takes `tuning` for the settings of the fuzzy search, unless no index
    /// can be made with them.
    pub fn with_tuning(&mut self, tuning: Tuning) -> (taken: bool)
        requires
            old(self).wf(),
        ensures
            final(self).wf(),
            final(self)@ == old(self)@,
            taken == tuning.valid(),
            final(self).tuning() == if taken {
                tuning
            } else {
                old(self).tuning()
            },
    {
        if tuning.is_valid() {
            self.tuning = tuning;
            true
        } else {
            false
        }
    }

    /// Adds an icon, unless an icon of its name is there: the first icon of
    /// a name stays.
    pub fn with_icon(&mut self, icon: Icon) -> (added: bool)
        requires
            old(self).wf(),
        ensures
            final(self).wf(),
            final(self).tuning() == old(self).tuning(),
            final(self)@ == old(self)@.with_icon(icon@),
            added == (name_position(old(self)@.icons, icon.name@) == old(self)@.icons.len()),
    {
        self.icons.insert(icon)
    }

    /// Adds one rule. A codepoint rule whose ends are no codepoints is
    /// refused, and the builder stays as it was.
    pub fn with_substitution(&mut self, rule: Substitution) -> (result: Result<(), Error>)
        requires
            old(self).wf(),
        ensures
            final(self).wf(),
            final(self).tuning() == old(self).tuning(),
            match old(self)@.with_rule(rule@) {
                Some(after) => result is Ok && final(self)@ == after,
                None => result == Err::<(), Error>(Error::InvalidCodepoint) && final(self)@ == old(self)@,
            },
    {
        match rule.ty {
            SubstitutionType::Exact => {
                let ghost before = self.exact_sub@;
                self.exact_sub.push(rule);
                assert(rule_views(self.exact_sub@) =~= rule_views(before).push(rule@));
                Ok(())
            },
            SubstitutionType::Prefix => {
                let ghost before = self.prefix_sub@;
                self.prefix_sub.push(rule);
                assert(rule_views(self.prefix_sub@) =~= rule_views(before).push(rule@));
                Ok(())
            },
            SubstitutionType::Codepoint => {
                let from = match parse_codepoint(rule.from.as_str()) {
                    Ok(c) => c,
                    Err(_) => {
                        return Err(Error::InvalidCodepoint);
                    },
                };
                let to = match parse_codepoint(rule.to.as_str()) {
                    Ok(c) => c,
                    Err(_) => {
                        return Err(Error::InvalidCodepoint);
                    },
                };
                self.codepoint_sub.insert(code_of(from), to);
                Ok(())
            },
        }
    }

    /// Adds `rules`, in order. The first rule that is refused ends the
    /// loading; what came before it stays.
    pub fn with_substitutions(&mut self, rules: Vec<Substitution>) -> (result: Result<(), Error>)
        requires
            old(self).wf(),
        ensures
            final(self).wf(),
            final(self).tuning() == old(self).tuning(),
            final(self)@ == old(self)@.with_rules(rule_views(rules@)).0,
            result == if old(self)@.with_rules(rule_views(rules@)).1 {
                Ok::<(), Error>(())
            } else {
                Err(Error::InvalidCodepoint)
            },
    {
        let ghost views = rule_views(rules@);
        let mut i: usize = 0;
        while i < rules.len()
            invariant
                i <= rules.len(),
                self.wf(),
                self.tuning() == old(self).tuning(),
                views == rule_views(rules@),
                old(self)@.with_rules(views.take(i as int)) == (self@, true),
            decreases rules.len() - i,
        {
            proof {
                assert(views.take(i + 1).drop_last() =~= views.take(i as int));
                assert(views.take(i + 1).last() == rules@[i as int]@);
            }
            match self.with_substitution(rules[i].duplicate()) {
                Ok(_) => {},
                Err(_) => {
                    proof {
                        lemma_rules_stop(old(self)@, views, i + 1);
                    }
                    return Err(Error::InvalidCodepoint);
                },
            }
            i += 1;
        }
        assert(views.take(rules.len() as int) =~= views);
        Ok(())
    }

    /// Reads what a source of input holds, with `json` as the decoder of
    /// databases, and adds its icons and rules. Input that cannot be read
    /// adds nothing.
    pub fn load_db<F: Fn(&str) -> Result<Database, Error>>(&mut self, content: &str, json: F) -> (result:
        Result<(), Error>)
        requires
            old(self).wf(),
            forall|text: &str| json.requires((text,)),
        ensures
            final(self).wf(),
            final(self).tuning() == old(self).tuning(),
            exists|parsed: Result<Database, Error>|
                crate::parser::parses(content@, json, parsed) && match parsed {
                    Ok(db) => {
                        let loaded = old(self)@.with_icons(icon_views(db.icons@)).with_rules(
                            rule_views(db.substitutions@),
                        );
                        &&& final(self)@ == loaded.0
                        &&& result == if loaded.1 {
                            Ok::<(), Error>(())
                        } else {
                            Err(Error::InvalidCodepoint)
                        }
                    },
                    Err(e) => result == Err::<(), Error>(e) && final(self)@ == old(self)@,
                },
    {
        let parsed = crate::parser::parse(content, json);
        match parsed {
            Ok(db) => {
                let ghost witness = Ok::<Database, Error>(db);
                let result = self.load(db);
                assert(crate::parser::parses(content@, json, witness));
                result
            },
            Err(e) => {
                assert(crate::parser::parses(content@, json, Err::<Database, Error>(e)));
                Err(e)
            },
        }
    }

    /// Adds the icons and then the rules of `db`, in order. The first rule
    /// that is refused ends the loading; what came before it stays.
    pub fn load(&mut self, db: Database) -> (result: Result<(), Error>)
        requires
            old(self).wf(),
        ensures
            final(self).wf(),
            final(self).tuning() == old(self).tuning(),
            final(self)@ == old(self)@.with_icons(icon_views(db.icons@)).with_rules(
                rule_views(db.substitutions@),
            ).0,
            result == if old(self)@.with_icons(icon_views(db.icons@)).with_rules(
                rule_views(db.substitutions@),
            ).1 {
                Ok::<(), Error>(())
            } else {
                Err(Error::InvalidCodepoint)
            },
    {
        let Database { icons, substitutions } = db;
        let ghost views = icon_views(icons@);
        let mut i: usize = 0;
        while i < icons.len()
            invariant
                i <= icons.len(),
                self.wf(),
                self.tuning() == old(self).tuning(),
                views == icon_views(icons@),
                self@ == old(self)@.with_icons(views.take(i as int)),
            decreases icons.len() - i,
        {
            proof {
                assert(views.take(i + 1).drop_last() =~= views.take(i as int));
                assert(views.take(i + 1).last() == icons@[i as int]@);
            }
            self.with_icon(icons[i].duplicate());
            i += 1;
        }
        assert(views.take(icons.len() as int) =~= views);
        self.with_substitutions(substitutions)
    }
}

/// Once a rule is refused, the rules behind it change nothing.
pub proof fn lemma_rules_stop(start: Rules, rules: Seq<SubstitutionView>, k: int)
    requires
        0 <= k <= rules.len(),
        !start.with_rules(rules.take(k)).1,
    ensures
        start.with_rules(rules) == start.with_rules(rules.take(k)),
    decreases rules.len() - k,
{
    if k < rules.len() {
        assert(rules.take(k + 1).drop_last() =~= rules.take(k));
        lemma_rules_stop(start, rules, k + 1);
    } else {
        assert(rules.take(k) =~= rules);
    }
}

impl View for Runtime {
    type V = Rules;

    closed spec fn view(&self) -> Rules {
        Rules {
            icons: self.icons@,
            exact: rule_views(self.exact_sub@),
            prefix: rule_views(self.prefix_sub@),
            codepoint: self.codepoint_sub@,
        }
    }
}

/// `found` are the candidates that `matches` give: the icons of the best
/// matches above the threshold, at most as many as are offered, from the
/// best on.
pub open spec fn candidates_of(
    icons: Seq<IconView>,
    tuning: Tuning,
    matches: Seq<MatchView>,
    found: Seq<IconView>,
) -> bool {
    exists|ranked: Seq<MatchView>|
        {
            &&& is_ranked(ranked)
            &&& ranked.to_multiset() == matches.filter(above(tuning.threshold)).to_multiset()
            &&& found.len() == if ranked.len() <= tuning.max_choices {
                ranked.len()
            } else {
                tuning.max_choices as nat
            }
            &&& forall|i: int|
                0 <= i < found.len() ==> (#[trigger] ranked[i]).id < icons.len() && found[i]
                    == icons[ranked[i].id as int]
        }
}

/// The candidates that given matches give are fixed: the same icons in the
/// same order, however the matches were ranked.
pub proof fn law_candidates_are_fixed(
    icons: Seq<IconView>,
    tuning: Tuning,
    matches: Seq<MatchView>,
    a: Seq<IconView>,
    b: Seq<IconView>,
)
    requires
        forall|i: int, j: int|
            0 <= i < j < matches.len() ==> (#[trigger] matches[i]).name != (#[trigger] matches[j]).name,
        candidates_of(icons, tuning, matches, a),
        candidates_of(icons, tuning, matches, b),
    ensures
        a == b,
{
    let pred = above(tuning.threshold);
    let ra = choose|ranked: Seq<MatchView>|
        {
            &&& is_ranked(ranked)
            &&& ranked.to_multiset() == matches.filter(pred).to_multiset()
            &&& a.len() == if ranked.len() <= tuning.max_choices {
                ranked.len()
            } else {
                tuning.max_choices as nat
            }
            &&& forall|i: int|
                0 <= i < a.len() ==> (#[trigger] ranked[i]).id < icons.len() && a[i]
                    == icons[ranked[i].id as int]
        };
    let rb = choose|ranked: Seq<MatchView>|
        {
            &&& is_ranked(ranked)
            &&& ranked.to_multiset() == matches.filter(pred).to_multiset()
            &&& b.len() == if ranked.len() <= tuning.max_choices {
                ranked.len()
            } else {
                tuning.max_choices as nat
            }
            &&& forall|i: int|
                0 <= i < b.len() ==> (#[trigger] ranked[i]).id < icons.len() && b[i]
                    == icons[ranked[i].id as int]
        };
    lemma_ranking_holds_the_kept(matches, ra, pred);
    law_ranking_is_unique(ra, rb);
    assert(a.len() == b.len());
    assert forall|i: int| 0 <= i < a.len() implies a[i] == b[i] by {
        assert(a[i] == icons[ra[i].id as int]);
        assert(b[i] == icons[rb[i].id as int]);
    }
    assert(a =~= b);
}

impl Runtime {
    /// A builder without icons and rules, with the usual settings.
    pub fn builder() -> (builder: RuntimeBuilder)
        ensures
            builder.wf(),
            builder@ == Rules::empty(),
            builder.tuning() == (Tuning {
                arity: ARITY,
                pad_len: PAD_LEN,
                warp: WARP,
                threshold: THRESHOLD,
                max_choices: MAX_CHOICES,
            }),
    {
        RuntimeBuilder::new()
    }

    /// The fuzzy index of the run.
    pub closed spec fn fuzzy(&self) -> NGramIndex {
        self.corpus
    }

    /// The items of the fuzzy index: the icons that are not obsolete, each
    /// with its position.
    pub open spec fn corpus_items(&self) -> Seq<(Seq<char>, usize)> {
        self.fuzzy().items()
    }

    /// The names that the substring index holds.
    pub closed spec fn indexed_names(&self) -> Seq<Seq<char>> {
        self.names@
    }

    /// `matches` are an answer of the fuzzy index to `query`: the items that
    /// share an n-gram with it, each once and with a score.
    pub open spec fn fuzzy_reports(&self, query: Seq<char>, matches: Seq<MatchView>) -> bool {
        self.fuzzy().answers(query, matches)
    }

    /// The number of characters per n-gram of the fuzzy index.
    pub open spec fn arity(&self) -> usize {
        self.fuzzy().spec_arity()
    }

    /// The number of characters per n-gram of the fuzzy index.
    pub fn corpus_arity(&self) -> (n: usize)
        ensures
            n == self.arity(),
    {
        self.corpus.arity()
    }

    /// The first `limit` names of icons in use in which the search for
    /// `query` finds it, in the order of their bytes.
    pub fn names_containing(&self, query: &str, limit: usize) -> (found: Vec<String>)
        ensures
            exists|c: Contains<Exact>|
                searches_for(&c, encode_utf8(query@))
                    && key_names(found@) == first_matches(
                    self.indexed_names(),
                    |name: Seq<char>| accepts(&c, encode_utf8(name)),
                    limit as nat,
                ),
    {
        self.names.containing(query, limit)
    }

    /// `found` are candidates for the icon called `name`: the candidates
    /// that an answer of the fuzzy index to the name gives.
    pub open spec fn offers(&self, name: Seq<char>, found: Seq<IconView>) -> bool {
        exists|matches: Seq<MatchView>|
            self.fuzzy_reports(name, matches) && candidates_of(
                self@.icons,
                self.tuning(),
                matches,
                found,
            )
    }

    /// The settings of the fuzzy search.
    pub closed spec fn tuning(&self) -> Tuning {
        self.tuning
    }

    /// The invariant of a run: no two icons share a name, and the indexes
    /// hold what the table holds.
    pub closed spec fn wf(&self) -> bool {
        &&& self.icons.wf()
        &&& self.icons@.len() <= usize::MAX
        &&& self.tuning.valid()
        &&& self.corpus.spec_arity() == self.tuning.arity
        &&& self.corpus.spec_pad_len() == self.tuning.pad_len
        &&& self.corpus.spec_warp() == self.tuning.warp
        &&& self.corpus.wf()
        &&& self.names.wf()
        &&& self.corpus.items() == active_items(self.icons@)
        &&& self.names@.to_set() == active_names(self.icons@)
        &&& forall|code: u32|
            (#[trigger] self.index@.contains_key(code)) <==> code_position(self.icons@, code) >= 0
        &&& forall|code: u32| #[trigger]
            self.index@.contains_key(code) ==> self.index@[code] == code_position(
                self.icons@,
                code,
            )
    }

    /// What the indexes of a run hold: no two icons share a name; the fuzzy
    /// index holds the icons in use, each with its position, and was made
    /// with the settings of the run; the substring index holds the names of
    /// the icons in use, sorted and each once.
    pub proof fn lemma_indexes(&self)
        requires
            self.wf(),
        ensures
            distinct_names(self@.icons),
            self@.icons.len() <= usize::MAX,
            self.tuning().valid(),
            self.fuzzy().wf(),
            self.corpus_items() == active_items(self@.icons),
            self.arity() == self.tuning().arity,
            self.fuzzy().spec_pad_len() == self.tuning().pad_len,
            self.fuzzy().spec_warp() == self.tuning().warp,
            self.indexed_names().to_set() == active_names(self@.icons),
            strictly_sorted(self.indexed_names()),
    {
    }

    /// What the fuzzy index answers are icons in use: each match names an
    /// icon of the table that is not obsolete, by its position and by its
    /// name, and no two matches name the same icon.
    pub proof fn lemma_matches_in_use(&self, query: Seq<char>, matches: Seq<MatchView>)
        requires
            self.wf(),
            self.fuzzy_reports(query, matches),
        ensures
            forall|i: int|
                0 <= i < matches.len() ==> {
                    let m = #[trigger] matches[i];
                    &&& m.id < self@.icons.len()
                    &&& self@.icons[m.id as int].name == m.name
                    &&& !self@.icons[m.id as int].obsolete
                },
            forall|i: int, j: int|
                0 <= i < j < matches.len() ==> (#[trigger] matches[i]).name != (#[trigger] matches[j]).name
                    && matches[i].id != matches[j].id,
            active_items(self@.icons).len() == 0 ==> matches.len() == 0,
    {
        lemma_active_items(self@.icons);
        let overlaps = matches.map_values(|m: MatchView| m.overlap());
        let items = self.corpus.items();
        assert forall|i: int| 0 <= i < matches.len() implies {
            let m = #[trigger] matches[i];
            &&& m.id < self@.icons.len()
            &&& self@.icons[m.id as int].name == m.name
            &&& !self@.icons[m.id as int].obsolete
        } by {
            let m = matches[i];
            assert(overlaps[i] == m.overlap());
            assert(items.contains((overlaps[i].0, overlaps[i].1)));
            let k = choose|k: int| 0 <= k < items.len() && items[k] == (m.name, m.id);
            assert(active_items(self@.icons)[k] == (m.name, m.id));
        }
        assert forall|i: int, j: int| 0 <= i < j < matches.len() implies (#[trigger] matches[i]).name
            != (#[trigger] matches[j]).name && matches[i].id != matches[j].id by {
            assert(overlaps[i] == matches[i].overlap());
            assert(overlaps[j] == matches[j].overlap());
            assert(overlaps[i].0 != overlaps[j].0);
        }
        if matches.len() > 0 {
            let m = matches[0];
            assert(overlaps[0] == m.overlap());
            assert(items.contains((overlaps[0].0, overlaps[0].1)));
        }
    }

    /// The substring search finds the name of an icon in use that holds the
    /// word of the search, as long as it finds fewer than `limit` names and
    /// its restarts do not skip the word in the name.
    pub proof fn law_name_with_query_is_found(
        &self,
        search: &Contains<Exact>,
        limit: nat,
        icon: IconView,
    )
        requires
            self.wf(),
            self@.icons.contains(icon),
            !icon.obsolete,
            contains_run(encode_utf8(icon.name), search.inner.word@),
            !restart_skips(search, encode_utf8(icon.name)),
            first_matches(
                self.indexed_names(),
                |name: Seq<char>| accepts(search, encode_utf8(name)),
                limit,
            ).len() < limit,
        ensures
            first_matches(
                self.indexed_names(),
                |name: Seq<char>| accepts(search, encode_utf8(name)),
                limit,
            ).contains(icon.name),
    {
        let names = self.indexed_names();
        let pred = |name: Seq<char>| accepts(search, encode_utf8(name));
        let at = choose|at: int| 0 <= at < self@.icons.len() && self@.icons[at] == icon;
        assert(names.to_set().contains(icon.name));
        let k = choose|k: int| 0 <= k < names.len() && names[k] == icon.name;
        law_search_is_containment(search, encode_utf8(icon.name));
        assert(pred(names[k]));
        names.lemma_filter_contains(pred, k);
    }

    /// An icon in use that is asked for by its name is in the answer of the
    /// fuzzy index, with the score one: the highest that a name gets for
    /// itself.
    pub proof fn law_own_name_scores_one(&self, at: int, matches: Seq<MatchView>) -> (found: int)
        requires
            self.wf(),
            0 <= at < self@.icons.len(),
            !self@.icons[at].obsolete,
            1 <= ngram_count(
                self.tuning().arity,
                self.tuning().pad_len,
                self@.icons[at].name.len(),
            ) <= MAX_NGRAMS / 2,
            self.fuzzy_reports(self@.icons[at].name, matches),
        ensures
            0 <= found < matches.len(),
            matches[found].name == self@.icons[at].name,
            matches[found].id == at,
            matches[found].score == ONE,
    {
        let name = self@.icons[at].name;
        lemma_in_use_is_item(self@.icons, at);
        let found = law_name_asked_for_itself_scores_one(
            &self.fuzzy(),
            name,
            matches,
        );
        self.lemma_matches_in_use(name, matches);
        found
    }

    /// The candidates for an icon are icons in use: at most as many as are
    /// offered, each an icon of the table that is not obsolete, no two the
    /// same; and there are none where no icon is in use.
    pub proof fn law_candidates_are_in_use(&self, name: Seq<char>, found: Seq<IconView>)
        requires
            self.wf(),
            self.offers(name, found),
        ensures
            found.len() <= self.tuning().max_choices,
            forall|i: int|
                0 <= i < found.len() ==> self@.icons.contains(#[trigger] found[i])
                    && !found[i].obsolete,
            forall|i: int, j: int|
                0 <= i < j < found.len() ==> (#[trigger] found[i]).name != (#[trigger] found[j]).name,
            active_items(self@.icons).len() == 0 ==> found.len() == 0,
    {
        let matches = choose|matches: Seq<MatchView>|
            self.fuzzy_reports(name, matches) && candidates_of(
                self@.icons,
                self.tuning(),
                matches,
                found,
            );
        self.lemma_matches_in_use(name, matches);
        let floor = self.tuning().threshold;
        let ranked = choose|ranked: Seq<MatchView>|
            {
                &&& is_ranked(ranked)
                &&& ranked.to_multiset() == matches.filter(above(floor)).to_multiset()
                &&& found.len() == if ranked.len() <= self.tuning().max_choices {
                    ranked.len()
                } else {
                    self.tuning().max_choices as nat
                }
                &&& forall|i: int|
                    0 <= i < found.len() ==> (#[trigger] ranked[i]).id < self@.icons.len()
                        && found[i] == self@.icons[ranked[i].id as int]
            };
        lemma_ranking_holds_the_kept(matches, ranked, above(floor));
        assert forall|i: int| 0 <= i < found.len() implies self@.icons.contains(
            #[trigger] found[i],
        ) && !found[i].obsolete by {
            assert(matches.contains(ranked[i]));
            let k = choose|k: int| 0 <= k < matches.len() && matches[k] == ranked[i];
            assert(found[i] == self@.icons[matches[k].id as int]);
        }
        assert forall|i: int, j: int| 0 <= i < j < found.len() implies (#[trigger] found[i]).name
            != (#[trigger] found[j]).name by {
            assert(matches.contains(ranked[i]));
            assert(matches.contains(ranked[j]));
            let a = choose|a: int| 0 <= a < matches.len() && matches[a] == ranked[i];
            let b = choose|b: int| 0 <= b < matches.len() && matches[b] == ranked[j];
            assert(ranked[i].name != ranked[j].name);
        }
        if active_items(self@.icons).len() == 0 {
            assert(matches.len() == 0);
            assert(matches.filter(above(floor)).len() == 0) by {
                matches.lemma_filter_len(above(floor));
            }
        }
    }

    /// The number of icons.
    pub fn len(&self) -> (n: usize)
        ensures
            n == self@.icons.len(),
    {
        self.icons.len()
    }

    /// The icon at position `at`.
    pub fn icon_at(&self, at: usize) -> (icon: &Icon)
        requires
            at < self@.icons.len(),
        ensures
            icon@ == self@.icons[at as int],
    {
        self.icons.get(at)
    }

    /// The exact and the prefix rules, in the order of each kind.
    pub fn rules(&self) -> (rules: Vec<Substitution>)
        ensures
            rule_views(rules@) == self@.exact + self@.prefix,
    {
        let mut rules: Vec<Substitution> = Vec::new();
        let mut i: usize = 0;
        assert(rule_views(rules@) =~= rule_views(self.exact_sub@).take(0));
        while i < self.exact_sub.len()
            invariant
                i <= self.exact_sub.len(),
                rule_views(rules@) == rule_views(self.exact_sub@).take(i as int),
            decreases self.exact_sub.len() - i,
        {
            let ghost before = rules@;
            rules.push(self.exact_sub[i].duplicate());
            assert(rule_views(rules@) =~= rule_views(before).push(self.exact_sub@[i as int]@));
            assert(rule_views(self.exact_sub@).take(i + 1) =~= rule_views(self.exact_sub@).take(
                i as int,
            ).push(self.exact_sub@[i as int]@));
            i += 1;
        }
        assert(rule_views(self.exact_sub@).take(i as int) =~= rule_views(self.exact_sub@));
        let mut j: usize = 0;
        assert(rule_views(rules@) =~= self@.exact + self@.prefix.take(0));
        while j < self.prefix_sub.len()
            invariant
                j <= self.prefix_sub.len(),
                rule_views(rules@) == self@.exact + self@.prefix.take(j as int),
            decreases self.prefix_sub.len() - j,
        {
            let ghost before = rules@;
            rules.push(self.prefix_sub[j].duplicate());
            assert(rule_views(rules@) =~= rule_views(before).push(self.prefix_sub@[j as int]@));
            assert(self@.prefix.take(j + 1) =~= self@.prefix.take(j as int).push(
                self.prefix_sub@[j as int]@,
            ));
            assert(rule_views(rules@) =~= self@.exact + self@.prefix.take(j + 1));
            j += 1;
        }
        assert(self@.prefix.take(j as int) =~= self@.prefix);
        rules
    }

    /// The icon with the codepoint `c`: the last one, where several share
    /// it.
    pub fn get_icon_by_codepoint(&self, c: char) -> (found: Option<&Icon>)
        requires
            self.wf(),
        ensures
            match (found, self@.by_codepoint(c)) {
                (Some(icon), Some(view)) => icon@ == view,
                (None, None) => true,
                _ => false,
            },
    {
        let code = code_of(c);
        proof {
            lemma_last_index_of(icon_codes(self.icons@), code);
        }
        match self.index.get(&code) {
            Some(at) => Some(self.icons.get(*at)),
            None => None,
        }
    }

    /// The icon called `name`.
    pub fn get_icon_by_name(&self, name: &str) -> (found: Option<&Icon>)
        requires
            self.wf(),
        ensures
            match (found, self@.by_name(name@)) {
                (Some(icon), Some(view)) => icon@ == view,
                (None, None) => true,
                _ => false,
            },
    {
        self.icons.get_by_name(name)
    }

    /// The replacement that the rules give to `icon`.
    pub fn get_substitution(&self, icon: &Icon) -> (found: Option<&Icon>)
        requires
            self.wf(),
        ensures
            match (found, self@.substitution(icon@)) {
                (Some(f), Some(view)) => f@ == view,
                (None, None) => true,
                _ => false,
            },
    {
        match self.codepoint_target(icon) {
            Some(found) => Some(found),
            None => match self.exact_target(icon) {
                Some(found) => Some(found),
                None => self.prefix_target(icon),
            },
        }
    }

    /// The replacement that the codepoint rules give to `icon`.
    fn codepoint_target(&self, icon: &Icon) -> (found: Option<&Icon>)
        requires
            self.wf(),
        ensures
            match (found, self@.codepoint_target(icon@)) {
                (Some(f), Some(view)) => f@ == view,
                (None, None) => true,
                _ => false,
            },
    {
        let code = code_of(icon.codepoint);
        match self.codepoint_sub.get(&code) {
            Some(to) => self.get_icon_by_codepoint(*to),
            None => None,
        }
    }

    /// The replacement that the exact rules give to `icon`.
    fn exact_target(&self, icon: &Icon) -> (found: Option<&Icon>)
        requires
            self.wf(),
        ensures
            match (found, self@.exact_target(icon@)) {
                (Some(f), Some(view)) => f@ == view,
                (None, None) => true,
                _ => false,
            },
    {
        let ghost sources = rule_sources(self@.exact);
        let mut rule: Option<usize> = None;
        let mut i: usize = 0;
        while i < self.exact_sub.len()
            invariant
                i <= self.exact_sub.len(),
                sources == rule_sources(self@.exact),
                sources.len() == self.exact_sub.len(),
                match rule {
                    Some(k) => k == last_index_of(sources.take(i as int), icon.name@) && k < i,
                    None => last_index_of(sources.take(i as int), icon.name@) == -1,
                },
            decreases self.exact_sub.len() - i,
        {
            proof {
                assert(sources.take(i + 1).drop_last() =~= sources.take(i as int));
                assert(sources.take(i + 1).last() == self.exact_sub@[i as int].from@);
            }
            if self.exact_sub[i].from == icon.name {
                rule = Some(i);
            }
            i += 1;
        }
        assert(sources.take(i as int) =~= sources);
        match rule {
            Some(k) => {
                assert(self@.exact[k as int].to == self.exact_sub@[k as int].to@);
                self.icons.get_by_name(self.exact_sub[k].to.as_str())
            },
            None => None,
        }
    }

    /// The replacement that the prefix rules give to `icon`.
    fn prefix_target(&self, icon: &Icon) -> (found: Option<&Icon>)
        requires
            self.wf(),
        ensures
            match (found, prefix_substitution(self@.icons, self@.prefix, icon.name@)) {
                (Some(f), Some(view)) => f@ == view,
                (None, None) => true,
                _ => false,
            },
    {
        let name = chars_of(icon.name.as_str());
        let ghost rules = self@.prefix;
        let mut i: usize = 0;
        assert(rules.skip(0) =~= rules);
        while i < self.prefix_sub.len()
            invariant
                i <= self.prefix_sub.len(),
                self.wf(),
                name@ == icon.name@,
                rules == self@.prefix,
                rules.len() == self.prefix_sub.len(),
                prefix_substitution(self@.icons, rules, icon.name@) == prefix_substitution(
                    self@.icons,
                    rules.skip(i as int),
                    icon.name@,
                ),
            decreases self.prefix_sub.len() - i,
        {
            proof {
                assert(rules.skip(i as int).drop_first() =~= rules.skip(i + 1));
                assert(rules.skip(i as int)[0] == self.prefix_sub@[i as int]@);
            }
            let rule = &self.prefix_sub[i];
            let from = chars_of(rule.from.as_str());
            if starts_with(&name, &from) {
                let mut renamed = rule.to.clone();
                let mut k: usize = from.len();
                assert(name@.subrange(from.len() as int, k as int) =~= Seq::<char>::empty());
                while k < name.len()
                    invariant
                        from.len() <= k <= name.len(),
                        renamed@ == rule.to@ + name@.subrange(from.len() as int, k as int),
                    decreases name.len() - k,
                {
                    renamed.push(name[k]);
                    assert(name@.subrange(from.len() as int, k + 1) =~= name@.subrange(
                        from.len() as int,
                        k as int,
                    ).push(name@[k as int]));
                    k += 1;
                }
                assert(name@.subrange(from.len() as int, name.len() as int) =~= name@.skip(
                    from.len() as int,
                ));
                match self.icons.get_by_name(renamed.as_str()) {
                    Some(found) => {
                        if !found.obsolete {
                            return Some(found);
                        }
                    },
                    None => {},
                }
            }
            i += 1;
        }
        None
    }

    /// The candidates that `matches` give: the icons of the best matches
    /// above the threshold, at most as many as are offered, from the best
    /// on. The matches are what `fuzzy_matches` has found for the name of
    /// the icon in question.
    pub fn get_candidates(&self, matches: &Vec<Match>) -> (found: Vec<Icon>)
        requires
            forall|i: int| 0 <= i < matches.len() ==> (#[trigger] matches[i]).id < self@.icons.len(),
        ensures
            candidates_of(
                self@.icons,
                self.tuning(),
                match_views(matches@),
                icon_views(found@),
            ),
    {
        let kept = keep_above(matches, self.tuning.threshold);
        let ranked = rank(&kept);
        let ghost all = match_views(ranked@);
        proof {
            let pred = above(self.tuning.threshold);
            let views = match_views(matches@);
            assert forall|i: int| 0 <= i < all.len() implies (#[trigger] all[i]).id
                < self@.icons.len() by {
                all.to_multiset_ensures();
                views.filter(pred).to_multiset_ensures();
                assert(all.contains(all[i]));
                assert(all.to_multiset().count(all[i]) > 0);
                assert(match_views(kept@) == views.filter(pred));
                assert(views.filter(pred).to_multiset().count(all[i]) > 0);
                assert(views.filter(pred).contains(all[i]));
                views.lemma_filter_contains_rev(pred, all[i]);
                let k = choose|k: int| 0 <= k < views.len() && views[k] == all[i];
                assert(views[k] == matches@[k]@);
            }
        }
        let mut found: Vec<Icon> = Vec::new();
        let mut i: usize = 0;
        while i < ranked.len() && i < self.tuning.max_choices
            invariant
                i <= ranked.len(),
                i <= self.tuning.max_choices,
                all == match_views(ranked@),
                found.len() == i,
                forall|k: int| 0 <= k < all.len() ==> (#[trigger] all[k]).id < self@.icons.len(),
                forall|k: int|
                    0 <= k < i ==> (#[trigger] icon_views(found@)[k]) == self@.icons[all[k].id as int],
            decreases ranked.len() - i,
        {
            assert(all[i as int] == ranked@[i as int]@);
            let icon = self.icons.get(ranked[i].id).duplicate();
            let ghost before = found@;
            found.push(icon);
            assert(icon_views(found@) =~= icon_views(before).push(icon@));
            i += 1;
        }
        proof {
            assert(icon_views(found@).len() == i);
            assert forall|k: int| 0 <= k < icon_views(found@).len() implies (#[trigger] all[k]).id
                < self@.icons.len() && icon_views(found@)[k] == self@.icons[all[k].id as int] by {
                assert(icon_views(found@)[k] == self@.icons[all[k].id as int]);
            }
        }
        found
    }

    /// What the fuzzy index reports for `query`, with the score of each
    /// item; every item is an icon of the table that is not obsolete.
    pub fn fuzzy_matches(&self, query: &str) -> (matches: Vec<Match>)
        requires
            self.wf(),
        ensures
            self.fuzzy_reports(query@, match_views(matches@)),
            forall|i: int|
                0 <= i < matches.len() ==> {
                    let m = #[trigger] matches[i];
                    &&& m.id < self@.icons.len()
                    &&& self@.icons[m.id as int].name == m.name@
                    &&& !self@.icons[m.id as int].obsolete
                },
    {
        let matches = self.corpus.matches(query);
        proof {
            lemma_active_items(self.icons@);
            let overlaps = match_views(matches@).map_values(|m: MatchView| m.overlap());
            assert forall|i: int| 0 <= i < matches.len() implies {
                let m = #[trigger] matches[i];
                &&& m.id < self@.icons.len()
                &&& self@.icons[m.id as int].name == m.name@
                &&& !self@.icons[m.id as int].obsolete
            } by {
                let m = matches[i];
                assert(overlaps[i] == m@.overlap());
                let items = self.corpus.items();
                assert(items.contains((overlaps[i].0, overlaps[i].1)));
                let k = choose|k: int| 0 <= k < items.len() && items[k] == (m.name@, m.id);
                assert(active_items(self.icons@)[k] == (m.name@, m.id));
            }
        }
        matches
    }
}

/// The positions of the icons by their codepoints: the last icon of a
/// codepoint counts.
fn build_index(icons: &IconTable) -> (index: HashMap<u32, usize>)
    ensures
        forall|code: u32| (#[trigger] index@.contains_key(code)) <==> code_position(icons@, code) >= 0,
        forall|code: u32| #[trigger]
            index@.contains_key(code) ==> index@[code] == code_position(icons@, code),
{
    let ghost codes = icon_codes(icons@);
    let mut index: HashMap<u32, usize> = HashMap::new();
    let n = icons.len();
    let mut i: usize = 0;
    while i < n
        invariant
            i <= n,
            n == icons@.len(),
            codes == icon_codes(icons@),
            forall|code: u32|
                (#[trigger] index@.contains_key(code)) <==> last_index_of(codes.take(i as int), code)
                    >= 0,
            forall|code: u32| #[trigger]
                index@.contains_key(code) ==> index@[code] == last_index_of(
                    codes.take(i as int),
                    code,
                ),
        decreases n - i,
    {
        proof {
            assert(codes.take(i + 1).drop_last() =~= codes.take(i as int));
            assert(codes.take(i + 1).last() == icons@[i as int].codepoint as u32);
        }
        let code = code_of(icons.get(i).codepoint);
        index.insert(code, i);
        i += 1;
    }
    assert(codes.take(n as int) =~= codes);
    index
}

/// The fuzzy index over the icons that are not obsolete.
fn build_corpus(icons: &IconTable, tuning: Tuning) -> (corpus: NGramIndex)
    requires
        icons.wf(),
        tuning.valid(),
    ensures
        corpus.wf(),
        corpus.items() == active_items(icons@),
        corpus.spec_arity() == tuning.arity,
        corpus.spec_pad_len() == tuning.pad_len,
        corpus.spec_warp() == tuning.warp,
{
    let mut corpus = NGramIndex::new(tuning.arity, tuning.pad_len, tuning.warp);
    let n = icons.len();
    let mut i: usize = 0;
    assert(icons@.take(0) =~= Seq::<IconView>::empty());
    while i < n
        invariant
            i <= n,
            n == icons@.len(),
            icons.wf(),
            corpus.wf(),
            corpus.spec_arity() == tuning.arity,
            corpus.spec_pad_len() == tuning.pad_len,
            corpus.spec_warp() == tuning.warp,
            corpus.items() == active_items(icons@.take(i as int)),
        decreases n - i,
    {
        let icon = icons.get(i);
        proof {
            let head = icons@.take(i as int);
            assert(icons@.take(i + 1).drop_last() =~= head);
            assert(icons@.take(i + 1).last() == icon@);
            lemma_active_items(head);
            let names = item_names(active_items(head));
            lemma_first_index_of(names, icon.name@);
            let at = first_index_of(names, icon.name@);
            if at < names.len() {
                let e = active_items(head)[at];
                assert(names[at] == e.0);
                assert(head[e.1 as int] == icons@[e.1 as int]);
                assert(icons@[e.1 as int].name == icons@[i as int].name);
            }
        }
        if !icon.obsolete {
            corpus.insert(icon.name.clone(), i);
        }
        i += 1;
    }
    assert(icons@.take(n as int) =~= icons@);
    corpus
}

/// The substring index over the names of the icons that are not obsolete.
fn build_names(icons: &IconTable) -> (names: ContainmentIndex)
    ensures
        names.wf(),
        names@.to_set() == active_names(icons@),
{
    let mut names = ContainmentIndex::new();
    let n = icons.len();
    let mut i: usize = 0;
    assert(names@.to_set() =~= active_names(icons@.take(0)));
    while i < n
        invariant
            i <= n,
            n == icons@.len(),
            names.wf(),
            names@.to_set() == active_names(icons@.take(i as int)),
        decreases n - i,
    {
        let icon = icons.get(i);
        let ghost before = names@.to_set();
        if !icon.obsolete {
            names.insert(icon.name.as_str());
        }
        proof {
            let head = icons@.take(i as int);
            let next = icons@.take(i + 1);
            let want = if icon.obsolete {
                before
            } else {
                before.insert(icon.name@)
            };
            assert(active_names(next) =~= want) by {
                assert forall|name: Seq<char>| active_names(next).contains(name) implies want.contains(
                    name,
                ) by {
                    let k = choose|k: int|
                        0 <= k < next.len() && !(#[trigger] next[k]).obsolete && next[k].name == name;
                    if k < i {
                        assert(head[k] == next[k]);
                    }
                }
                assert forall|name: Seq<char>| want.contains(name) implies active_names(next).contains(
                    name,
                ) by {
                    if before.contains(name) {
                        let k = choose|k: int|
                            0 <= k < head.len() && !(#[trigger] head[k]).obsolete && head[k].name
                                == name;
                        assert(next[k] == head[k]);
                    } else {
                        assert(next[i as int] == icon@);
                    }
                }
            }
        }
        i += 1;
    }
    assert(icons@.take(n as int) =~= icons@);
    names
}

impl RuntimeBuilder {
    /// Ends the gathering: the run holds the icons and the rules of the
    /// builder, and its indexes are made.
    pub fn build(self) -> (runtime: Runtime)
        requires
            self.wf(),
        ensures
            runtime.wf(),
            runtime@ == self@,
            runtime.tuning() == self.tuning(),
    {
        let _count = self.icons.len();
        let index = build_index(&self.icons);
        let corpus = build_corpus(&self.icons, self.tuning);
        let names = build_names(&self.icons);
        Runtime {
            icons: self.icons,
            index,
            corpus,
            names,
            exact_sub: self.exact_sub,
            prefix_sub: self.prefix_sub,
            codepoint_sub: self.codepoint_sub,
            tuning: self.tuning,
        }
    }
}

/// Why a line typed at the prompt picks no icon.
#[derive(Clone, Debug, PartialEq, Eq)]
pub enum Rejection {
    /// The line is empty or writes no number where it should.
    Invalid,
    /// No icon in use has this name.
    Name(String),
    /// No icon in use has this character.
    Icon(char),
    /// No candidate has this number.
    Candidate(usize),
    /// No icon in use has this codepoint.
    Codepoint(u32),
}

/// What a [`Rejection`] holds, as plain values.
pub enum RejectionView {
    Invalid,
    Name(Seq<char>),
    Icon(char),
    Candidate(usize),
    Codepoint(u32),
}

impl View for Rejection {
    type V = RejectionView;

    open spec fn view(&self) -> RejectionView {
        match self {
            Rejection::Invalid => RejectionView::Invalid,
            Rejection::Name(name) => RejectionView::Name(name@),
            Rejection::Icon(c) => RejectionView::Icon(*c),
            Rejection::Candidate(n) => RejectionView::Candidate(*n),
            Rejection::Codepoint(v) => RejectionView::Codepoint(*v),
        }
    }
}

impl Rules {
    /// The icon in use with the codepoint `c`.
    pub open spec fn in_use_by_codepoint(self, c: char) -> Option<IconView> {
        match self.by_codepoint(c) {
            Some(icon) => if icon.obsolete {
                None
            } else {
                Some(icon)
            },
            None => None,
        }
    }

    /// The icon of the table that is in use and is the same as `icon` by
    /// name and codepoint.
    pub open spec fn in_use_like(self, icon: IconView) -> Option<IconView> {
        match self.by_name(icon.name) {
            Some(found) => if !found.obsolete && found.codepoint == icon.codepoint {
                Some(found)
            } else {
                None
            },
            None => None,
        }
    }

    /// The icon that the line `line` picks: the first word of the line is
    /// read as the number of a candidate (from 1), as a name, as a character
    /// or as a codepoint, and the icon must be in the table and in use,
    /// also where it is picked as a candidate.
    pub open spec fn pick(self, candidates: Seq<IconView>, line: Seq<char>) -> Result<
        IconView,
        RejectionView,
    > {
        match spec_parse_input(first_word(line)) {
            None => Err(RejectionView::Invalid),
            Some(UserInputView::Name(name)) => match self.by_name(name) {
                Some(icon) => if icon.obsolete {
                    Err(RejectionView::Name(name))
                } else {
                    Ok(icon)
                },
                None => Err(RejectionView::Name(name)),
            },
            Some(UserInputView::Char(c)) => match self.in_use_by_codepoint(c) {
                Some(icon) => Ok(icon),
                None => Err(RejectionView::Icon(c)),
            },
            Some(UserInputView::Candidate(n)) => if 1 <= n <= candidates.len() {
                match self.in_use_like(candidates[n - 1]) {
                    Some(icon) => Ok(icon),
                    None => Err(RejectionView::Candidate(n)),
                }
            } else {
                Err(RejectionView::Candidate(n))
            },
            Some(UserInputView::Codepoint(v)) => if is_scalar(v) {
                match self.in_use_by_codepoint(v as char) {
                    Some(icon) => Ok(icon),
                    None => Err(RejectionView::Codepoint(v)),
                }
            } else {
                Err(RejectionView::Codepoint(v))
            },
        }
    }
}

/// Whatever a line picks is an icon of the table that is in use.
pub proof fn law_picked_is_in_use(rules: Rules, candidates: Seq<IconView>, line: Seq<char>)
    ensures
        match rules.pick(candidates, line) {
            Ok(icon) => rules.icons.contains(icon) && !icon.obsolete,
            Err(_) => true,
        },
{
    match rules.pick(candidates, line) {
        Ok(icon) => {
            match spec_parse_input(first_word(line)) {
                Some(UserInputView::Name(name)) => {
                    lemma_first_index_of(crate::table::icon_names(rules.icons), name);
                },
                Some(UserInputView::Char(c)) => {
                    lemma_last_index_of(icon_codes(rules.icons), c as u32);
                },
                Some(UserInputView::Candidate(n)) => {
                    lemma_first_index_of(
                        crate::table::icon_names(rules.icons),
                        candidates[n - 1].name,
                    );
                },
                Some(UserInputView::Codepoint(v)) => {
                    lemma_last_index_of(icon_codes(rules.icons), (v as char) as u32);
                },
                None => {},
            }
        },
        Err(_) => {},
    }
}

impl Runtime {
    /// The icon that the line typed at the prompt picks, or why it picks
    /// none.
    pub fn pick_icon(&self, candidates: &Vec<Icon>, line: &str) -> (picked: Result<Icon, Rejection>)
        requires
            self.wf(),
        ensures
            match self@.pick(icon_views(candidates@), line@) {
                Ok(icon) => picked is Ok && picked->Ok_0@ == icon,
                Err(why) => picked is Err && picked->Err_0@ == why,
            },
    {
        let chars = chars_of(line);
        assert(chars@.skip(0) =~= line@);
        let (from, to) = find_word(&chars, 0);
        let word = crate::text::string_of(&chars, from, to);
        let input = match UserInput::from_str(word.as_str()) {
            Ok(input) => input,
            Err(_) => {
                return Err(Rejection::Invalid);
            },
        };
        match input {
            UserInput::Name(name) => {
                match self.get_icon_by_name(name.as_str()) {
                    Some(icon) => if icon.obsolete {
                        Err(Rejection::Name(name))
                    } else {
                        Ok(icon.duplicate())
                    },
                    None => Err(Rejection::Name(name)),
                }
            },
            UserInput::Char(c) => match self.in_use(c) {
                Some(icon) => Ok(icon.duplicate()),
                None => Err(Rejection::Icon(c)),
            },
            UserInput::Candidate(n) => {
                if 1 <= n && n <= candidates.len() {
                    assert(icon_views(candidates@)[n - 1] == candidates@[n - 1]@);
                    let candidate = &candidates[n - 1];
                    match self.get_icon_by_name(candidate.name.as_str()) {
                        Some(icon) => if !icon.obsolete && icon.codepoint == candidate.codepoint {
                            Ok(icon.duplicate())
                        } else {
                            Err(Rejection::Candidate(n))
                        },
                        None => Err(Rejection::Candidate(n)),
                    }
                } else {
                    Err(Rejection::Candidate(n))
                }
            },
            UserInput::Codepoint(v) => match char::from_u32(v) {
                Some(c) => match self.in_use(c) {
                    Some(icon) => Ok(icon.duplicate()),
                    None => Err(Rejection::Codepoint(v)),
                },
                None => Err(Rejection::Codepoint(v)),
            },
        }
    }

    /// The icon in use with the codepoint `c`.
    pub fn in_use(&self, c: char) -> (found: Option<&Icon>)
        requires
            self.wf(),
        ensures
            match (found, self@.in_use_by_codepoint(c)) {
                (Some(icon), Some(view)) => icon@ == view,
                (None, None) => true,
                _ => false,
            },
    {
        match self.get_icon_by_codepoint(c) {
            Some(icon) => if icon.obsolete {
                None
            } else {
                Some(icon)
            },
            None => None,
        }
    }
}

} // verus!
