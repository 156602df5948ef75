//! The suggestions for what the user types at the prompt.

use crate::automaton::{accepts, Contains, Exact};
use crate::contain::{contains_run, first_matches, key_names, law_search_is_containment,
    lemma_same_word, restart_skips, searches_for};
use crate::icon::{Icon, IconView};
use crate::ngram::{is_ranked, keep_near, law_ranking_is_unique, lemma_filter_no_duplicates,
    lemma_ranking_holds_the_kept, match_views, near, rank, Match, MatchView};
use crate::runtime::{lemma_name_finds_icon, Rules, Runtime};
use crate::text::{decimal_text, push_decimal};
use vstd::prelude::*;
use vstd::seq_lib::seq_to_set_is_finite;
use vstd::set_lib::lemma_len_subset;
use vstd::utf8::encode_utf8;

verus! {

/// The score above which a name is suggested: six tenths, as the bits of
/// its single-precision form.
pub const THRESHOLD: u32 = 0x3F19_999A;

/// The number of suggestions that are made at most, and the number of names
/// that the substring search adds at most.
pub const MAX_SUGGESTIONS: usize = 100;

/// The labels `1` to `n`, which stand for the candidates.
pub open spec fn number_labels(n: nat) -> Seq<Seq<char>> {
    Seq::new(n, |i: int| decimal_text((i + 1) as nat))
}

/// How an icon is shown in a suggestion: the icon itself, a space and its
/// name.
pub open spec fn label(icon: IconView) -> Seq<char> {
    seq![icon.codepoint, ' '] + icon.name
}

/// The label of the icon called `name`, or the name where no icon is
/// called so.
pub open spec fn name_label(rules: Rules, name: Seq<char>) -> Seq<char> {
    match rules.by_name(name) {
        Some(icon) => label(icon),
        None => name,
    }
}

/// The labels of the icons that `matches` name by their positions.
pub open spec fn match_labels(icons: Seq<IconView>, matches: Seq<MatchView>) -> Seq<Seq<char>> {
    matches.map_values(|m: MatchView| label(icons[m.id as int]))
}

/// The labels of the icons called `names`.
pub open spec fn name_labels(rules: Rules, names: Seq<Seq<char>>) -> Seq<Seq<char>> {
    names.map_values(|n: Seq<char>| name_label(rules, n))
}

/// The first `limit` different elements of `s`, each where it comes first.
pub open spec fn distinct_upto(s: Seq<Seq<char>>, limit: nat) -> Seq<Seq<char>>
    decreases s.len(),
{
    if s.len() == 0 {
        Seq::empty()
    } else {
        let before = distinct_upto(s.drop_last(), limit);
        if before.len() >= limit || before.contains(s.last()) {
            before
        } else {
            before.push(s.last())
        }
    }
}

/// The views of `texts`, in order.
pub open spec fn text_views(texts: Seq<String>) -> Seq<Seq<char>> {
    texts.map_values(|t: String| t@)
}

/// The number of missing n-grams below which a name is suggested whatever
/// its score: one less than twice the arity, or no bound where that is no
/// number of the machine.
pub open spec fn spec_slack(arity: usize) -> usize {
    if 1 <= arity <= usize::MAX / 2 {
        (2 * arity - 1) as usize
    } else {
        usize::MAX
    }
}

/// The suggestions that the ranked matches and the names found by the
/// substring search give: the labels of the matches, then those of the
/// names, each label once and at most `limit` of them.
pub open spec fn merged(
    rules: Rules,
    ranked: Seq<MatchView>,
    contained: Seq<Seq<char>>,
    limit: nat,
) -> Seq<Seq<char>> {
    distinct_upto(match_labels(rules.icons, ranked) + name_labels(rules, contained), limit)
}

/// Writes the label of `icon`.
pub fn label_of(icon: &Icon) -> (text: String)
    ensures
        text@ == label(icon@),
{
    let mut text = String::new();
    text.push(icon.codepoint);
    text.push(' ');
    text.append(icon.name.as_str());
    assert(text@ =~= label(icon@));
    text
}

/// Whether `texts` holds `text`.
fn holds(texts: &Vec<String>, text: &String) -> (yes: bool)
    ensures
        yes == text_views(texts@).contains(text@),
{
    let mut i: usize = 0;
    while i < texts.len()
        invariant
            i <= texts.len(),
            forall|k: int| 0 <= k < i ==> text_views(texts@)[k] != text@,
        decreases texts.len() - i,
    {
        if texts[i] == *text {
            assert(text_views(texts@)[i as int] == text@);
            return true;
        }
        i += 1;
    }
    false
}

/// Appends `text` to `out` unless `out` holds it or holds `limit` texts.
fn add_distinct(
    out: &mut Vec<String>,
    text: String,
    limit: usize,
    Ghost(seen): Ghost<Seq<Seq<char>>>,
)
    requires
        text_views(old(out)@) == distinct_upto(seen, limit as nat),
    ensures
        text_views(final(out)@) == distinct_upto(seen.push(text@), limit as nat),
{
    assert(seen.push(text@).drop_last() =~= seen);
    if out.len() < limit && !holds(out, &text) {
        let ghost before = out@;
        out.push(text);
        assert(text_views(out@) =~= text_views(before).push(text@));
    }
}

/// What suggests completions for the text typed at the prompt.
#[derive(Clone, Debug)]
pub struct Autocompleter {
    /// The number of candidates that were offered for the icon in question.
    pub candidates: usize,
    /// The first suggestion of the last call.
    pub last: Option<String>,
    /// The score above which a name is suggested, as the bits of its
    /// single-precision form.
    pub threshold: u32,
    /// The number of suggestions that are made at most, and the number of
    /// names that the substring search adds at most.
    pub max_suggestions: usize,
}

impl Autocompleter {
    /// A completer for a question with `candidates` candidates, with the
    /// usual settings.
    pub fn new(candidates: usize) -> (completer: Autocompleter)
        ensures
            completer.candidates == candidates,
            completer.last is None,
            completer.threshold == THRESHOLD,
            completer.max_suggestions == MAX_SUGGESTIONS,
    {
        Autocompleter {
            candidates,
            last: None,
            threshold: THRESHOLD,
            max_suggestions: MAX_SUGGESTIONS,
        }
    }

    /// `found` are suggestions for `input`: the numbers of the candidates
    /// for empty input; else the icons that the fuzzy index finds near,
    /// ranked, followed by those whose names the substring search finds.
    pub open spec fn suggests(&self, runtime: &Runtime, input: Seq<char>, found: Seq<Seq<char>>) -> bool {
        if input.len() == 0 {
            found == number_labels(self.candidates as nat)
        } else {
            exists|matches: Seq<MatchView>, ranked: Seq<MatchView>, c: Contains<Exact>|
                {
                    &&& runtime.fuzzy_reports(input, matches)
                    &&& is_ranked(ranked)
                    &&& ranked.to_multiset() == matches.filter(
                        near(self.threshold, spec_slack(runtime.arity())),
                    ).to_multiset()
                    &&& searches_for(&c, encode_utf8(input))
                    &&& found == merged(
                        runtime@,
                        ranked,
                        first_matches(
                            runtime.indexed_names(),
                            |name: Seq<char>| accepts(&c, encode_utf8(name)),
                            self.max_suggestions as nat,
                        ),
                        self.max_suggestions as nat,
                    )
                }
        }
    }

    /// The suggestions for `input`; the first of them is remembered.
    pub fn suggestions(&mut self, runtime: &Runtime, input: &str) -> (found: Vec<String>)
        requires
            runtime.wf(),
        ensures
            final(self).candidates == old(self).candidates,
            final(self).threshold == old(self).threshold,
            final(self).max_suggestions == old(self).max_suggestions,
            old(self).suggests(runtime, input@, text_views(found@)),
            match final(self).last {
                Some(first) => found.len() > 0 && first@ == found[0]@,
                None => found.len() == 0,
            },
    {
        let found = if input.is_empty() {
            self.numbers()
        } else {
            let matches = runtime.fuzzy_matches(input);
            let kept = keep_near(&matches, self.threshold, slack(runtime.corpus_arity()));
            let ranked = rank(&kept);
            let contained = runtime.names_containing(input, self.max_suggestions);
            proof {
                let views = match_views(matches@);
                let pred = near(self.threshold, spec_slack(runtime.arity()));
                let all = match_views(ranked@);
                assert forall|i: int| 0 <= i < ranked.len() implies (#[trigger] ranked[i]).id
                    < runtime@.icons.len() by {
                    all.to_multiset_ensures();
                    views.filter(pred).to_multiset_ensures();
                    assert(all[i] == ranked[i]@);
                    assert(all.contains(all[i]));
                    assert(all.to_multiset().count(all[i]) > 0);
                    assert(views.filter(pred).to_multiset().count(all[i]) > 0);
                    assert(views.filter(pred).contains(all[i]));
                    views.lemma_filter_contains_rev(pred, all[i]);
                    let k = choose|k: int| 0 <= k < views.len() && views[k] == all[i];
                    assert(views[k] == matches@[k]@);
                }
            }
            merge(runtime, &ranked, &contained, self.max_suggestions)
        };
        self.last = if found.len() > 0 {
            Some(found[0].clone())
        } else {
            None
        };
        found
    }

    /// The labels `1` to the number of candidates.
    pub fn numbers(&self) -> (found: Vec<String>)
        ensures
            text_views(found@) == number_labels(self.candidates as nat),
    {
        let mut found: Vec<String> = Vec::new();
        let mut i: usize = 0;
        while i < self.candidates
            invariant
                i <= self.candidates,
                found.len() == i,
                forall|k: int| 0 <= k < i ==> (#[trigger] found[k])@ == decimal_text((k + 1) as nat),
            decreases self.candidates - i,
        {
            let mut text = String::new();
            push_decimal(&mut text, i + 1);
            assert(text@ =~= decimal_text((i + 1) as nat));
            found.push(text);
            i += 1;
        }
        assert(text_views(found@) =~= number_labels(self.candidates as nat));
        found
    }

    /// The completion that is offered for `input`: the highlighted
    /// suggestion, else the first suggestion of the last call, else the
    /// first candidate where nothing is typed.
    pub fn completion(&self, input: &str, highlighted: Option<String>) -> (text: Option<String>)
        ensures
            match (highlighted, self.last) {
                (Some(h), _) => text is Some && text->0@ == h@,
                (None, Some(l)) => text is Some && text->0@ == l@,
                (None, None) => if input@.len() == 0 {
                    text is Some && text->0@ == decimal_text(1)
                } else {
                    text is None
                },
            },
    {
        match highlighted {
            Some(h) => Some(h),
            None => match &self.last {
                Some(l) => Some(l.clone()),
                None => if input.is_empty() {
                    let mut text = String::new();
                    push_decimal(&mut text, 1);
                    assert(text@ =~= decimal_text(1));
                    Some(text)
                } else {
                    None
                },
            },
        }
    }
}

/// The number of missing n-grams below which a name is suggested whatever
/// its score.
pub fn slack(arity: usize) -> (n: usize)
    ensures
        n == spec_slack(arity),
{
    if 1 <= arity && arity <= usize::MAX / 2 {
        2 * arity - 1
    } else {
        usize::MAX
    }
}

/// The suggestions that ranked matches and the names found by the substring
/// search give, at most `limit` of them.
pub fn merge(runtime: &Runtime, ranked: &Vec<Match>, contained: &Vec<String>, limit: usize) -> (found:
    Vec<String>)
    requires
        runtime.wf(),
        forall|i: int| 0 <= i < ranked.len() ==> (#[trigger] ranked[i]).id < runtime@.icons.len(),
    ensures
        text_views(found@) == merged(
            runtime@,
            match_views(ranked@),
            key_names(contained@),
            limit as nat,
        ),
{
    let ghost first = match_labels(runtime@.icons, match_views(ranked@));
    let ghost second = name_labels(runtime@, key_names(contained@));
    let mut found: Vec<String> = Vec::new();
    let mut i: usize = 0;
    assert(first.take(0) =~= Seq::<Seq<char>>::empty());
    assert(text_views(found@) =~= Seq::<Seq<char>>::empty());
    while i < ranked.len()
        invariant
            i <= ranked.len(),
            runtime.wf(),
            forall|k: int| 0 <= k < ranked.len() ==> (#[trigger] ranked[k]).id < runtime@.icons.len(),
            first == match_labels(runtime@.icons, match_views(ranked@)),
            text_views(found@) == distinct_upto(first.take(i as int), limit as nat),
        decreases ranked.len() - i,
    {
        let text = label_of(runtime.icon_at(ranked[i].id));
        proof {
            assert(first[i as int] == text@);
            assert(first.take(i + 1) =~= first.take(i as int).push(text@));
        }
        add_distinct(&mut found, text, limit, Ghost(first.take(i as int)));
        i += 1;
    }
    assert(first.take(ranked.len() as int) =~= first);
    let mut j: usize = 0;
    assert(first + second.take(0) =~= first);
    while j < contained.len()
        invariant
            j <= contained.len(),
            runtime.wf(),
            second == name_labels(runtime@, key_names(contained@)),
            text_views(found@) == distinct_upto(first + second.take(j as int), limit as nat),
        decreases contained.len() - j,
    {
        let text = match runtime.get_icon_by_name(contained[j].as_str()) {
            Some(icon) => label_of(icon),
            None => contained[j].clone(),
        };
        proof {
            assert(key_names(contained@)[j as int] == contained@[j as int]@);
            assert(second[j as int] == text@);
            assert((first + second.take(j as int)).push(text@) =~= first + second.take(j + 1));
        }
        add_distinct(&mut found, text, limit, Ghost(first + second.take(j as int)));
        j += 1;
    }
    assert(second.take(contained.len() as int) =~= second);
    found
}

/// What the first different elements of a sequence are: at most `limit` of
/// them, each once and each an element of the sequence; and every element
/// of the sequence is among them, unless there are `limit` of them.
pub proof fn lemma_distinct_upto(s: Seq<Seq<char>>, limit: nat)
    ensures
        distinct_upto(s, limit).len() <= limit,
        distinct_upto(s, limit).no_duplicates(),
        forall|i: int|
            0 <= i < distinct_upto(s, limit).len() ==> s.contains(
                #[trigger] distinct_upto(s, limit)[i],
            ),
        distinct_upto(s, limit).len() < limit ==> forall|k: int|
            0 <= k < s.len() ==> distinct_upto(s, limit).contains(#[trigger] s[k]),
    decreases s.len(),
{
    if s.len() > 0 {
        let head = s.drop_last();
        lemma_distinct_upto(head, limit);
        let before = distinct_upto(head, limit);
        let now = distinct_upto(s, limit);
        assert forall|i: int| 0 <= i < now.len() implies s.contains(#[trigger] now[i]) by {
            if i < before.len() {
                assert(now[i] == before[i]);
                assert(head.contains(before[i]));
                let k = choose|k: int| 0 <= k < head.len() && head[k] == before[i];
                assert(s[k] == now[i]);
            } else {
                assert(s[s.len() - 1] == now[i]);
            }
        }
        if now.len() < limit {
            assert forall|k: int| 0 <= k < s.len() implies now.contains(#[trigger] s[k]) by {
                if k < head.len() {
                    assert(head[k] == s[k]);
                    assert(before.contains(head[k]));
                    let i = choose|i: int| 0 <= i < before.len() && before[i] == head[k];
                    assert(now[i] == s[k]);
                } else if before.contains(s.last()) {
                    let i = choose|i: int| 0 <= i < before.len() && before[i] == s.last();
                    assert(now[i] == s[k]);
                } else {
                    assert(now[now.len() - 1] == s[k]);
                }
            }
        }
    }
}

/// The label of an icon ends with its name.
pub proof fn lemma_label_holds_name(icon: IconView)
    ensures
        label(icon).len() == icon.name.len() + 2,
        label(icon).skip(2) == icon.name,
{
    assert(label(icon).skip(2) =~= icon.name);
}

/// The names that the substring index finds for a search are names of
/// icons in use, each once.
pub proof fn lemma_contained_in_use(
    runtime: &Runtime,
    c: &Contains<Exact>,
    limit: nat,
    k: int,
) -> (at: int)
    requires
        runtime.wf(),
        0 <= k < first_matches(
            runtime.indexed_names(),
            |name: Seq<char>| accepts(c, encode_utf8(name)),
            limit,
        ).len(),
    ensures
        0 <= at < runtime@.icons.len(),
        !runtime@.icons[at].obsolete,
        runtime@.icons[at].name == first_matches(
            runtime.indexed_names(),
            |name: Seq<char>| accepts(c, encode_utf8(name)),
            limit,
        )[k],
        name_label(
            runtime@,
            first_matches(
                runtime.indexed_names(),
                |name: Seq<char>| accepts(c, encode_utf8(name)),
                limit,
            )[k],
        ) == label(runtime@.icons[at]),
{
    runtime.lemma_indexes();
    let names = runtime.indexed_names();
    let pred = |name: Seq<char>| accepts(c, encode_utf8(name));
    let all = names.filter(pred);
    let contained = first_matches(names, pred, limit);
    let name = contained[k];
    assert(all[k] == name);
    assert(all.contains(name));
    names.lemma_filter_contains_rev(pred, name);
    assert(names.to_set().contains(name));
    let icons = runtime@.icons;
    let at = choose|at: int| 0 <= at < icons.len() && !(#[trigger] icons[at]).obsolete && icons[at].name == name;
    lemma_name_finds_icon(runtime@, at);
    at
}

/// `text` is the label of an icon of `icons` that is in use.
pub open spec fn labels_icon_in_use(icons: Seq<IconView>, text: Seq<char>) -> bool {
    exists|at: int|
        0 <= at < icons.len() && !(#[trigger] icons[at]).obsolete && text == label(icons[at])
}

/// Every suggestion for text that was typed is the label of an icon in use;
/// no suggestion comes twice, and there are no more than the completer
/// makes at most.
pub proof fn law_suggestions_are_icons_in_use(
    completer: &Autocompleter,
    runtime: &Runtime,
    input: Seq<char>,
    found: Seq<Seq<char>>,
)
    requires
        runtime.wf(),
        input.len() > 0,
        completer.suggests(runtime, input, found),
    ensures
        found.len() <= completer.max_suggestions,
        found.no_duplicates(),
        forall|i: int| 0 <= i < found.len() ==> labels_icon_in_use(runtime@.icons, #[trigger] found[i]),
{
    let limit = completer.max_suggestions as nat;
    let (matches, ranked, c) = choose|
        matches: Seq<MatchView>,
        ranked: Seq<MatchView>,
        c: Contains<Exact>,
    |
        {
            &&& runtime.fuzzy_reports(input, matches)
            &&& is_ranked(ranked)
            &&& ranked.to_multiset() == matches.filter(
                near(completer.threshold, spec_slack(runtime.arity())),
            ).to_multiset()
            &&& searches_for(&c, encode_utf8(input))
            &&& found == merged(
                runtime@,
                ranked,
                first_matches(
                    runtime.indexed_names(),
                    |name: Seq<char>| accepts(&c, encode_utf8(name)),
                    limit,
                ),
                limit,
            )
        };
    let icons = runtime@.icons;
    let contained = first_matches(
        runtime.indexed_names(),
        |name: Seq<char>| accepts(&c, encode_utf8(name)),
        limit,
    );
    let first = match_labels(icons, ranked);
    let second = name_labels(runtime@, contained);
    let all = first + second;
    lemma_distinct_upto(all, limit);
    runtime.lemma_matches_in_use(input, matches);
    lemma_ranking_holds_the_kept(
        matches,
        ranked,
        near(completer.threshold, spec_slack(runtime.arity())),
    );
    assert forall|i: int| 0 <= i < found.len() implies labels_icon_in_use(
        icons,
        #[trigger] found[i],
    ) by {
        assert(all.contains(found[i]));
        let k = choose|k: int| 0 <= k < all.len() && all[k] == found[i];
        if k < first.len() {
            assert(matches.contains(ranked[k]));
            let m = choose|m: int| 0 <= m < matches.len() && matches[m] == ranked[k];
            let at = ranked[k].id as int;
            assert(!icons[at].obsolete && found[i] == label(icons[at]));
        } else {
            let at = lemma_contained_in_use(runtime, &c, limit, k - first.len());
            assert(second[k - first.len()] == name_label(runtime@, contained[k - first.len()]));
            assert(!icons[at].obsolete && found[i] == label(icons[at]));
        }
    }
}

/// An icon in use whose name holds what was typed is suggested, as long as
/// the list of suggestions is not full and the restarts of the search do
/// not skip what was typed in the name.
pub proof fn law_name_with_query_is_suggested(
    completer: &Autocompleter,
    runtime: &Runtime,
    input: Seq<char>,
    found: Seq<Seq<char>>,
    icon: IconView,
    search: &Contains<Exact>,
)
    requires
        runtime.wf(),
        input.len() > 0,
        completer.suggests(runtime, input, found),
        found.len() < completer.max_suggestions,
        runtime@.icons.contains(icon),
        !icon.obsolete,
        searches_for(search, encode_utf8(input)),
        contains_run(encode_utf8(icon.name), encode_utf8(input)),
        !restart_skips(search, encode_utf8(icon.name)),
    ensures
        found.contains(label(icon)),
{
    let limit = completer.max_suggestions as nat;
    let (matches, ranked, c) = choose|
        matches: Seq<MatchView>,
        ranked: Seq<MatchView>,
        c: Contains<Exact>,
    |
        {
            &&& runtime.fuzzy_reports(input, matches)
            &&& is_ranked(ranked)
            &&& ranked.to_multiset() == matches.filter(
                near(completer.threshold, spec_slack(runtime.arity())),
            ).to_multiset()
            &&& searches_for(&c, encode_utf8(input))
            &&& found == merged(
                runtime@,
                ranked,
                first_matches(
                    runtime.indexed_names(),
                    |name: Seq<char>| accepts(&c, encode_utf8(name)),
                    limit,
                ),
                limit,
            )
        };
    runtime.lemma_indexes();
    let icons = runtime@.icons;
    let names = runtime.indexed_names();
    let pred = |name: Seq<char>| accepts(&c, encode_utf8(name));
    let kept = names.filter(pred);
    let contained = first_matches(names, pred, limit);
    let first = match_labels(icons, ranked);
    let second = name_labels(runtime@, contained);
    let all = first + second;
    lemma_distinct_upto(all, limit);
    // the list is not full, so it holds the label of every name that the
    // search has found
    assert forall|j: int| 0 <= j < contained.len() implies found.contains(
        #[trigger] second[j],
    ) by {
        assert(all[first.len() + j] == second[j]);
    }
    // the search has found no more names than fit into the list
    if kept.len() > limit {
        assert(contained.len() == limit);
        assert(names.no_duplicates());
        lemma_filter_no_duplicates(names, pred);
        assert forall|i: int, j: int|
            0 <= i < second.len() && 0 <= j < second.len() && i != j implies second[i]
            != second[j] by {
            let a = lemma_contained_in_use(runtime, &c, limit, i);
            let b = lemma_contained_in_use(runtime, &c, limit, j);
            lemma_label_holds_name(icons[a]);
            lemma_label_holds_name(icons[b]);
            assert(contained[i] == kept[i] && contained[j] == kept[j]);
        }
        assert(second.no_duplicates());
        second.unique_seq_to_set();
        found.lemma_cardinality_of_set();
        seq_to_set_is_finite(found);
        assert(second.to_set().subset_of(found.to_set())) by {
            assert forall|x: Seq<char>| second.to_set().contains(x) implies found.to_set().contains(
                x,
            ) by {
                let j = choose|j: int| 0 <= j < second.len() && second[j] == x;
                assert(found.contains(second[j]));
            }
        }
        lemma_len_subset(second.to_set(), found.to_set());
        assert(false);
    }
    assert(contained == kept);
    // the search finds the name of the icon
    let name = icon.name;
    let at = choose|at: int| 0 <= at < icons.len() && icons[at] == icon;
    assert(names.to_set().contains(name));
    let k = choose|k: int| 0 <= k < names.len() && names[k] == name;
    law_search_is_containment(search, encode_utf8(name));
    lemma_same_word(search, &c, encode_utf8(name));
    assert(pred(names[k]));
    names.lemma_filter_contains(pred, k);
    let j = choose|j: int| 0 <= j < kept.len() && kept[j] == name;
    lemma_name_finds_icon(runtime@, at);
    assert(second[j] == name_label(runtime@, contained[j]));
    assert(found.contains(second[j]));
}

impl Autocompleter {
    /// `found` are the suggestions that given matches give for text that
    /// was typed: the matches that are near, ranked, followed by the icons
    /// whose names the substring search finds.
    pub open spec fn suggests_from(
        &self,
        runtime: &Runtime,
        input: Seq<char>,
        matches: Seq<MatchView>,
        found: Seq<Seq<char>>,
    ) -> bool {
        exists|ranked: Seq<MatchView>, c: Contains<Exact>|
            {
                &&& is_ranked(ranked)
                &&& ranked.to_multiset() == matches.filter(
                    near(self.threshold, spec_slack(runtime.arity())),
                ).to_multiset()
                &&& searches_for(&c, encode_utf8(input))
                &&& found == merged(
                    runtime@,
                    ranked,
                    first_matches(
                        runtime.indexed_names(),
                        |name: Seq<char>| accepts(&c, encode_utf8(name)),
                        self.max_suggestions as nat,
                    ),
                    self.max_suggestions as nat,
                )
            }
    }
}

/// The suggestions that given matches give are fixed: the same suggestions
/// in the same order, however the matches were ranked.
pub proof fn law_suggestions_are_fixed(
    completer: &Autocompleter,
    runtime: &Runtime,
    input: Seq<char>,
    matches: Seq<MatchView>,
    a: Seq<Seq<char>>,
    b: Seq<Seq<char>>,
)
    requires
        forall|i: int, j: int|
            0 <= i < j < matches.len() ==> (#[trigger] matches[i]).name != (#[trigger] matches[j]).name,
        completer.suggests_from(runtime, input, matches, a),
        completer.suggests_from(runtime, input, matches, b),
    ensures
        a == b,
{
    let limit = completer.max_suggestions as nat;
    let pred = near(completer.threshold, spec_slack(runtime.arity()));
    let names = runtime.indexed_names();
    let (ra, ca) = choose|ranked: Seq<MatchView>, c: Contains<Exact>|
        {
            &&& is_ranked(ranked)
            &&& ranked.to_multiset() == matches.filter(pred).to_multiset()
            &&& searches_for(&c, encode_utf8(input))
            &&& a == merged(
                runtime@,
                ranked,
                first_matches(names, |name: Seq<char>| accepts(&c, encode_utf8(name)), limit),
                limit,
            )
        };
    let (rb, cb) = choose|ranked: Seq<MatchView>, c: Contains<Exact>|
        {
            &&& is_ranked(ranked)
            &&& ranked.to_multiset() == matches.filter(pred).to_multiset()
            &&& searches_for(&c, encode_utf8(input))
            &&& b == merged(
                runtime@,
                ranked,
                first_matches(names, |name: Seq<char>| accepts(&c, encode_utf8(name)), limit),
                limit,
            )
        };
    lemma_ranking_holds_the_kept(matches, ra, pred);
    law_ranking_is_unique(ra, rb);
    let pa = |name: Seq<char>| accepts(&ca, encode_utf8(name));
    let pb = |name: Seq<char>| accepts(&cb, encode_utf8(name));
    assert forall|name: Seq<char>| #[trigger] pa(name) == pb(name) by {
        lemma_same_word(&ca, &cb, encode_utf8(name));
    }
    assert(pa =~= pb);
}

} // verus!
