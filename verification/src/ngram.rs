//! The fuzzy index over icon names, kept by the `noodler` crate, and the
//! ranking of what it finds.

use crate::order::{bytes_eq, bytes_le, lemma_lex_antisymmetric, lemma_lex_total,
    lemma_lex_transitive, lex_le};
use crate::text::first_index_of;
use noodler::NGram;
use vstd::prelude::*;
use vstd::seq_lib::{to_multiset_insert, to_multiset_remove};
use vstd::string::StrSliceExecFns;
use vstd::utf8::{encode_utf8, encode_utf8_decode_utf8};

verus! {

/// `noodler::NGram`, of which nothing is read but through the functions
/// below.
#[verifier::external_type_specification]
#[verifier::external_body]
#[verifier::reject_recursive_types(T)]
pub struct ExNGram<T>(NGram<T>);

/// The items of the index with their numbers, in the order of insertion.
pub uninterp spec fn corpus_items(c: NGram<(String, usize)>) -> Seq<(Seq<char>, usize)>;

/// The number of characters per n-gram that the index was made with.
pub uninterp spec fn corpus_arity(c: NGram<(String, usize)>) -> usize;

/// The number of padding characters on each side that the index was made
/// with.
pub uninterp spec fn corpus_pad_len(c: NGram<(String, usize)>) -> usize;

/// The items that share an n-gram with `query` in an index of `items` made
/// with `arity` and `pad_len`, each as its name, its number, the number of
/// its n-grams, the number of the query's n-grams and the number of n-grams
/// that the two share.
pub uninterp spec fn ngram_overlaps(
    arity: usize,
    pad_len: usize,
    items: Seq<(Seq<char>, usize)>,
    query: Seq<char>,
) -> Set<(Seq<char>, usize, usize, usize, usize)>;

/// The exponent that the index was made with.
pub uninterp spec fn corpus_warp(c: NGram<(String, usize)>) -> u16;

/// The bits of the number one in single precision.
pub const ONE: u32 = 0x3F80_0000;

/// The greatest exponent that an index is made with.
pub const MAX_WARP: u16 = 7;

/// The greatest number of n-grams of an item and a query together that is
/// scored. With exponents up to `MAX_WARP` the powers of such numbers stay
/// in the range of single precision.
pub const MAX_NGRAMS: usize = 0x2_0000;

/// Whether the index is asked for the score of `shared` n-grams among
/// `all`: some n-gram is not shared, and the numbers are in range. Other
/// counts get the score 0.
pub open spec fn scorable(shared: usize, all: usize) -> bool {
    shared < all && all <= MAX_NGRAMS
}

/// The counts of an item and a query with the same n-grams: they share
/// `shared` n-grams and have twice as many together.
pub open spec fn full_overlap(shared: usize, all: usize) -> bool {
    1 <= shared && all == 2 * shared && all <= MAX_NGRAMS
}

/// The number of n-grams of a name of `len` characters, once padded, where
/// it has any.
pub open spec fn ngram_count(arity: usize, pad_len: usize, len: nat) -> int {
    len + 2 * pad_len + 1 - arity
}

/// What the counts of an overlap are: the item and the query have the
/// n-grams of their padded names; they share at least one n-gram and no
/// more than either has; and an item with the name that is asked for shares
/// all of them.
pub open spec fn counts_hold(
    arity: usize,
    pad_len: usize,
    query: Seq<char>,
    overlap: (Seq<char>, usize, usize, usize, usize),
) -> bool {
    &&& overlap.2 == ngram_count(arity, pad_len, overlap.0.len())
    &&& overlap.3 == ngram_count(arity, pad_len, query.len())
    &&& 1 <= overlap.4 <= overlap.2
    &&& overlap.4 <= overlap.3
    &&& overlap.0 == query ==> overlap.4 == overlap.2
}

/// The names of `items`, in order.
pub open spec fn item_names(items: Seq<(Seq<char>, usize)>) -> Seq<Seq<char>> {
    items.map_values(|e: (Seq<char>, usize)| e.0)
}

/// An item that shares n-grams with a query, as the index reports it.
#[derive(Clone, Debug, PartialEq, Eq)]
pub struct Overlap {
    pub name: String,
    pub id: usize,
    pub item_ngrams: usize,
    pub query_ngrams: usize,
    pub shared_ngrams: usize,
}

impl Overlap {
    /// The overlap as plain values.
    pub open spec fn tuple(self) -> (Seq<char>, usize, usize, usize, usize) {
        (self.name@, self.id, self.item_ngrams, self.query_ngrams, self.shared_ngrams)
    }
}

/// The overlaps that `found` holds, without their order.
pub open spec fn overlap_set(found: Seq<Overlap>) -> Set<(Seq<char>, usize, usize, usize, usize)> {
    Set::new(
        |t: (Seq<char>, usize, usize, usize, usize)|
            exists|i: int| 0 <= i < found.len() && (#[trigger] found[i]).tuple() == t,
    )
}

/// The builder of `noodler::NGram`, with `arity`, `pad_len` and `warp` set:
/// the new index holds no item and has the arity, the padding and the
/// exponent asked for.
#[verifier::external_body]
fn corpus_new(arity: usize, pad_len: usize, warp: u16) -> (c: NGram<(String, usize)>)
    requires
        1 <= arity,
        pad_len < arity,
    ensures
        corpus_items(c) == Seq::<(Seq<char>, usize)>::empty(),
        corpus_arity(c) == arity,
        corpus_pad_len(c) == pad_len,
        corpus_warp(c) == warp,
{
    NGram::builder().arity(arity).pad_len(pad_len).warp(warp.into()).build()
}

/// `NGram::insert`: an item whose name the index holds is dropped, another
/// goes last; arity, padding and exponent stay.
#[verifier::external_body]
fn corpus_insert(c: &mut NGram<(String, usize)>, name: String, id: usize)
    ensures
        corpus_items(*final(c)) == if first_index_of(item_names(corpus_items(*old(c))), name@)
            < corpus_items(*old(c)).len() {
            corpus_items(*old(c))
        } else {
            corpus_items(*old(c)).push((name@, id))
        },
        corpus_arity(*final(c)) == corpus_arity(*old(c)),
        corpus_pad_len(*final(c)) == corpus_pad_len(*old(c)),
        corpus_warp(*final(c)) == corpus_warp(*old(c)),
{
    c.insert((name, id))
}

/// `NGram::items_sharing_ngrams`: the items that share an n-gram with
/// `query`, in no particular order; each is an item of the index and comes
/// once. Which items these are, and with which counts, has the name
/// `ngram_overlaps` here. The call is not made for a query whose padded
/// form is shorter than an n-gram.
///
/// Of the counts this much is said: an item and the query have as many
/// n-grams as their padded names have places for one; the shared n-grams
/// are counted with the lesser of their two numbers, so that they are at
/// least one and no more than either has, and all of them for an item with
/// the name that is asked for. Such an item is among the items handed out
/// where its padded name holds an n-gram.
#[verifier::external_body]
fn corpus_overlaps(c: &NGram<(String, usize)>, query: &str) -> (found: Vec<Overlap>)
    requires
        query@.len() + 2 * corpus_pad_len(*c) + 1 >= corpus_arity(*c),
    ensures
        overlap_set(found@) == ngram_overlaps(
            corpus_arity(*c),
            corpus_pad_len(*c),
            corpus_items(*c),
            query@,
        ),
        forall|i: int|
            0 <= i < found.len() ==> corpus_items(*c).contains(
                ((#[trigger] found[i]).name@, found[i].id),
            ),
        forall|i: int, j: int|
            0 <= i < j < found.len() ==> (#[trigger] found[i]).name@ != (#[trigger] found[j]).name@,
        forall|i: int|
            0 <= i < found.len() ==> counts_hold(
                corpus_arity(*c),
                corpus_pad_len(*c),
                query@,
                (#[trigger] found[i]).tuple(),
            ),
        item_names(corpus_items(*c)).contains(query@) && ngram_count(
            corpus_arity(*c),
            corpus_pad_len(*c),
            query@.len(),
        ) >= 1 ==> exists|i: int| 0 <= i < found.len() && (#[trigger] found[i]).name@ == query@,
{
    c.items_sharing_ngrams(query).map(
        |t| Overlap {
            name: t.item.0.clone(),
            id: t.item.1,
            item_ngrams: t.item_ngrams,
            query_ngrams: t.query_ngrams,
            shared_ngrams: t.shared_ngrams,
        },
    ).collect()
}

/// `NGram::similarity` with the exponent of the index, as the bits of the
/// number it returns. The call is made only where some n-gram is not
/// shared and the powers stay in range, so that the number is no quotient
/// by zero and no difference of infinities. Of the number one thing is
/// claimed: where item and query have the same n-grams, nothing differs,
/// and it is the quotient of a power by itself, one. What it is otherwise
/// comes out of floating-point powers and is left open.
#[verifier::external_body]
fn corpus_similarity(c: &NGram<(String, usize)>, shared: usize, all: usize) -> (bits: u32)
    requires
        scorable(shared, all),
        1 <= corpus_warp(*c) <= MAX_WARP,
    ensures
        full_overlap(shared, all) ==> bits == ONE,
{
    c.similarity(shared, all, None).to_bits()
}

/// An item that shares n-grams with a query, with its score.
///
/// The score is the similarity that the index gives, held as the bits of
/// its single-precision form. Scores are compared by their bits, which
/// order the numbers from zero on as their values do.
#[derive(Clone, Debug, PartialEq, Eq)]
pub struct Match {
    pub name: String,
    pub id: usize,
    pub score: u32,
    pub item_ngrams: usize,
    pub query_ngrams: usize,
    pub shared_ngrams: usize,
}

/// What a [`Match`] holds, as plain values.
pub struct MatchView {
    pub name: Seq<char>,
    pub id: usize,
    pub score: u32,
    pub item_ngrams: usize,
    pub query_ngrams: usize,
    pub shared_ngrams: usize,
}

impl View for Match {
    type V = MatchView;

    open spec fn view(&self) -> MatchView {
        MatchView {
            name: self.name@,
            id: self.id,
            score: self.score,
            item_ngrams: self.item_ngrams,
            query_ngrams: self.query_ngrams,
            shared_ngrams: self.shared_ngrams,
        }
    }
}

impl MatchView {
    /// The overlap that was scored.
    pub open spec fn overlap(self) -> (Seq<char>, usize, usize, usize, usize) {
        (self.name, self.id, self.item_ngrams, self.query_ngrams, self.shared_ngrams)
    }

    /// The number of the query's n-grams that the item lacks.
    pub open spec fn missing(self) -> int {
        if self.shared_ngrams <= self.query_ngrams {
            self.query_ngrams - self.shared_ngrams
        } else {
            0
        }
    }

    /// The match stands at or before `other` in a ranking: the higher score
    /// first, then the lesser name, then the lesser number.
    pub open spec fn ranks_before(self, other: MatchView) -> bool {
        let a = encode_utf8(self.name);
        let b = encode_utf8(other.name);
        self.score > other.score || (self.score == other.score && (if a == b {
            self.id <= other.id
        } else {
            lex_le(a, b)
        }))
    }
}

/// The views of `matches`, in order.
pub open spec fn match_views(matches: Seq<Match>) -> Seq<MatchView> {
    matches.map_values(|m: Match| m@)
}

/// Every match stands at or before those behind it.
pub open spec fn is_ranked(ms: Seq<MatchView>) -> bool {
    forall|i: int, j: int| 0 <= i < j < ms.len() ==> (#[trigger] ms[i]).ranks_before(#[trigger] ms[j])
}

/// Of two matches, one stands at or before the other.
pub proof fn lemma_ranks_total(a: MatchView, b: MatchView)
    ensures
        a.ranks_before(b) || b.ranks_before(a),
{
    lemma_lex_total(encode_utf8(a.name), encode_utf8(b.name));
}

/// What stands at or before a match stands at or before what that match
/// stands at or before.
pub proof fn lemma_ranks_transitive(a: MatchView, b: MatchView, c: MatchView)
    requires
        a.ranks_before(b),
        b.ranks_before(c),
    ensures
        a.ranks_before(c),
{
    let ea = encode_utf8(a.name);
    let eb = encode_utf8(b.name);
    let ec = encode_utf8(c.name);
    if a.score == b.score && b.score == c.score {
        if ea != eb && eb != ec {
            lemma_lex_transitive(ea, eb, ec);
            if ea == ec {
                lemma_lex_antisymmetric(ea, eb);
            }
        }
    }
}

impl Match {
    /// A copy of the match.
    pub fn duplicate(&self) -> (copy: Match)
        ensures
            copy@ == self@,
    {
        Match {
            name: self.name.clone(),
            id: self.id,
            score: self.score,
            item_ngrams: self.item_ngrams,
            query_ngrams: self.query_ngrams,
            shared_ngrams: self.shared_ngrams,
        }
    }

    /// The number of the query's n-grams that the item lacks.
    pub fn missing(&self) -> (n: usize)
        ensures
            n == self@.missing(),
    {
        if self.shared_ngrams <= self.query_ngrams {
            self.query_ngrams - self.shared_ngrams
        } else {
            0
        }
    }

    /// Whether the match stands at or before `other` in a ranking.
    pub fn ranks_before(&self, other: &Match) -> (before: bool)
        ensures
            before == self@.ranks_before(other@),
    {
        if self.score != other.score {
            return self.score > other.score;
        }
        let a = self.name.as_str().as_bytes();
        let b = other.name.as_str().as_bytes();
        if bytes_eq(a, b) {
            self.id <= other.id
        } else {
            bytes_le(a, b)
        }
    }
}

/// The test for a score above `floor`.
pub open spec fn above(floor: u32) -> spec_fn(MatchView) -> bool {
    |m: MatchView| m.score > floor
}

/// The test for a score above `floor` or fewer than `slack` of the query's
/// n-grams missing.
pub open spec fn near(floor: u32, slack: usize) -> spec_fn(MatchView) -> bool {
    |m: MatchView| m.score > floor || m.missing() < slack
}

/// The matches of `matches` whose score is above `floor`, in their order.
pub fn keep_above(matches: &Vec<Match>, floor: u32) -> (kept: Vec<Match>)
    ensures
        match_views(kept@) == match_views(matches@).filter(above(floor)),
{
    let ghost pred = above(floor);
    let mut kept: Vec<Match> = Vec::new();
    let mut i: usize = 0;
    assert(match_views(matches@).take(0).filter(pred) =~= Seq::<MatchView>::empty());
    assert(match_views(kept@) =~= Seq::<MatchView>::empty());
    while i < matches.len()
        invariant
            i <= matches.len(),
            pred == above(floor),
            match_views(kept@) == match_views(matches@).take(i as int).filter(pred),
        decreases matches.len() - i,
    {
        proof {
            let all = match_views(matches@);
            assert(all.take(i + 1) =~= all.take(i as int).push(matches@[i as int]@));
            all.take(i as int).lemma_filter_push(matches@[i as int]@, pred);
        }
        if matches[i].score > floor {
            let ghost before = kept@;
            kept.push(matches[i].duplicate());
            assert(match_views(kept@) =~= match_views(before).push(matches@[i as int]@));
        }
        i += 1;
    }
    assert(match_views(matches@).take(matches.len() as int) =~= match_views(matches@));
    kept
}

/// The matches of `matches` whose score is above `floor` or that lack fewer
/// than `slack` of the query's n-grams, in their order.
pub fn keep_near(matches: &Vec<Match>, floor: u32, slack: usize) -> (kept: Vec<Match>)
    ensures
        match_views(kept@) == match_views(matches@).filter(near(floor, slack)),
{
    let ghost pred = near(floor, slack);
    let mut kept: Vec<Match> = Vec::new();
    let mut i: usize = 0;
    assert(match_views(matches@).take(0).filter(pred) =~= Seq::<MatchView>::empty());
    assert(match_views(kept@) =~= Seq::<MatchView>::empty());
    while i < matches.len()
        invariant
            i <= matches.len(),
            pred == near(floor, slack),
            match_views(kept@) == match_views(matches@).take(i as int).filter(pred),
        decreases matches.len() - i,
    {
        proof {
            let all = match_views(matches@);
            assert(all.take(i + 1) =~= all.take(i as int).push(matches@[i as int]@));
            all.take(i as int).lemma_filter_push(matches@[i as int]@, pred);
        }
        if matches[i].score > floor || matches[i].missing() < slack {
            let ghost before = kept@;
            kept.push(matches[i].duplicate());
            assert(match_views(kept@) =~= match_views(before).push(matches@[i as int]@));
        }
        i += 1;
    }
    assert(match_views(matches@).take(matches.len() as int) =~= match_views(matches@));
    kept
}

/// The matches of `matches` from the best to the worst: by falling score,
/// then by rising name, then by rising number.
pub fn rank(matches: &Vec<Match>) -> (ranked: Vec<Match>)
    ensures
        is_ranked(match_views(ranked@)),
        match_views(ranked@).to_multiset() == match_views(matches@).to_multiset(),
{
    let mut ranked: Vec<Match> = Vec::new();
    let mut i: usize = 0;
    assert(match_views(ranked@) =~= match_views(matches@).take(0));
    while i < matches.len()
        invariant
            i <= matches.len(),
            is_ranked(match_views(ranked@)),
            match_views(ranked@).to_multiset() == match_views(matches@).take(i as int).to_multiset(),
        decreases matches.len() - i,
    {
        let next = matches[i].duplicate();
        let mut at: usize = 0;
        while at < ranked.len() && ranked[at].ranks_before(&next)
            invariant
                at <= ranked.len(),
                forall|k: int| 0 <= k < at ==> (#[trigger] ranked@[k])@.ranks_before(next@),
            decreases ranked.len() - at,
        {
            at += 1;
        }
        let ghost before = match_views(ranked@);
        ranked.insert(at, next);
        proof {
            let after = match_views(ranked@);
            let all = match_views(matches@);
            assert(after =~= before.insert(at as int, next@));
            to_multiset_insert(before, at as int, next@);
            assert(all.take(i + 1) =~= all.take(i as int).push(next@));
            all.take(i as int).to_multiset_ensures();
            assert forall|x: int, y: int| 0 <= x < y < after.len() implies (#[trigger] after[x]).ranks_before(
                #[trigger] after[y],
            ) by {
                if y < at {
                    assert(after[x] == before[x] && after[y] == before[y]);
                } else if y == at {
                    assert(after[x] == before[x]);
                } else if x == at {
                    // `next` stands before what it was put in front of, and
                    // that before all behind it
                    lemma_ranks_total(before[at as int], next@);
                    if y - 1 > at {
                        assert(before[at as int].ranks_before(before[y - 1]));
                        lemma_ranks_transitive(next@, before[at as int], before[y - 1]);
                    }
                } else if x < at {
                    assert(after[x] == before[x] && after[y] == before[y - 1]);
                } else {
                    assert(after[x] == before[x - 1] && after[y] == before[y - 1]);
                }
            }
        }
        i += 1;
    }
    assert(match_views(matches@).take(matches.len() as int) =~= match_views(matches@));
    ranked
}

/// The fuzzy index over names.
pub struct NGramIndex {
    corpus: NGram<(String, usize)>,
    arity: usize,
    pad_len: usize,
    warp: u16,
}


impl NGramIndex {
    /// The items of the index with their numbers, in the order of insertion.
    pub closed spec fn items(&self) -> Seq<(Seq<char>, usize)> {
        corpus_items(self.corpus)
    }

    /// The number of characters per n-gram.
    pub closed spec fn spec_arity(&self) -> usize {
        self.arity
    }

    /// The number of padding characters on each side of a name.
    pub closed spec fn spec_pad_len(&self) -> usize {
        self.pad_len
    }

    /// The exponent that is applied to the counts of n-grams.
    pub closed spec fn spec_warp(&self) -> u16 {
        self.warp
    }

    /// The index's invariant: it was made with its arity, padding and
    /// exponent, and these are in range.
    pub closed spec fn wf(&self) -> bool {
        &&& corpus_arity(self.corpus) == self.arity
        &&& corpus_pad_len(self.corpus) == self.pad_len
        &&& corpus_warp(self.corpus) == self.warp
        &&& 1 <= self.warp <= MAX_WARP
        &&& 1 <= self.arity
        &&& self.pad_len < self.arity
    }

    /// Whether a query of `len` characters holds an n-gram once padded.
    pub open spec fn long_enough(&self, len: nat) -> bool {
        len + 2 * self.spec_pad_len() + 1 >= self.spec_arity()
    }

    /// What the index reports for `query`: the items that share an n-gram
    /// with it, and none where the padded query is shorter than an n-gram.
    pub closed spec fn spec_overlaps(&self, query: Seq<char>) -> Set<
        (Seq<char>, usize, usize, usize, usize),
    > {
        if self.long_enough(query.len()) {
            ngram_overlaps(self.arity, self.pad_len, corpus_items(self.corpus), query)
        } else {
            Set::empty()
        }
    }

    /// `found` holds what the index reports for `query`: each overlap once,
    /// each of an item of the index.
    pub open spec fn reports(&self, query: Seq<char>, found: Seq<(Seq<char>, usize, usize, usize, usize)>) -> bool {
        &&& found.to_set() == self.spec_overlaps(query)
        &&& forall|i: int| 0 <= i < found.len() ==> self.items().contains(((#[trigger] found[i]).0, found[i].1))
        &&& forall|i: int, j: int| 0 <= i < j < found.len() ==> (#[trigger] found[i]).0 != (#[trigger] found[j]).0
        &&& forall|i: int|
            0 <= i < found.len() ==> counts_hold(
                self.spec_arity(),
                self.spec_pad_len(),
                query,
                #[trigger] found[i],
            )
        &&& item_names(self.items()).contains(query) && ngram_count(
            self.spec_arity(),
            self.spec_pad_len(),
            query.len(),
        ) >= 1 ==> exists|i: int| 0 <= i < found.len() && (#[trigger] found[i]).0 == query
    }

    /// What is known of the scores of `matches`: counts that are not scored
    /// have the score 0, and an item with the n-grams of the query and no
    /// others has the score one.
    pub open spec fn scored(&self, matches: Seq<MatchView>) -> bool {
        forall|i: int|
            0 <= i < matches.len() ==> {
                let m = #[trigger] matches[i];
                &&& !(m.item_ngrams + m.query_ngrams <= MAX_NGRAMS && m.shared_ngrams
                    < m.item_ngrams + m.query_ngrams) ==> m.score == 0
                &&& m.item_ngrams == m.shared_ngrams && m.query_ngrams == m.shared_ngrams && 1
                    <= m.shared_ngrams <= MAX_NGRAMS / 2 ==> m.score == ONE
            }
    }

    /// `matches` are an answer of the index to `query`: what it reports,
    /// each item once, with a score for each.
    pub open spec fn answers(&self, query: Seq<char>, matches: Seq<MatchView>) -> bool {
        &&& self.reports(query, matches.map_values(|m: MatchView| m.overlap()))
        &&& self.scored(matches)
    }

    /// An empty index with n-grams of `arity` characters, `pad_len` padding
    /// characters on each side of a name and the exponent `warp`.
    pub fn new(arity: usize, pad_len: usize, warp: u16) -> (index: NGramIndex)
        requires
            1 <= arity,
            pad_len < arity,
            1 <= warp <= MAX_WARP,
        ensures
            index.wf(),
            index.items() == Seq::<(Seq<char>, usize)>::empty(),
            index.spec_arity() == arity,
            index.spec_pad_len() == pad_len,
            index.spec_warp() == warp,
    {
        NGramIndex { corpus: corpus_new(arity, pad_len, warp), arity, pad_len, warp }
    }

    /// The number of characters per n-gram.
    pub fn arity(&self) -> (n: usize)
        ensures
            n == self.spec_arity(),
    {
        self.arity
    }

    /// Adds the item `name` with the number `id`, unless the index holds an
    /// item of that name.
    pub fn insert(&mut self, name: String, id: usize)
        requires
            old(self).wf(),
        ensures
            final(self).wf(),
            final(self).spec_arity() == old(self).spec_arity(),
            final(self).spec_pad_len() == old(self).spec_pad_len(),
            final(self).spec_warp() == old(self).spec_warp(),
            final(self).items() == if first_index_of(item_names(old(self).items()), name@) < old(self).items().len() {
                old(self).items()
            } else {
                old(self).items().push((name@, id))
            },
    {
        corpus_insert(&mut self.corpus, name, id);
    }

    /// The items that share an n-gram with `query`, in no particular order.
    pub fn overlaps(&self, query: &str) -> (found: Vec<Overlap>)
        requires
            self.wf(),
        ensures
            self.reports(query@, found@.map_values(|o: Overlap| o.tuple())),
    {
        let len = query.unicode_len();
        let enough = len >= self.arity || len as u128 + 2 * (self.pad_len as u128) + 1
            >= self.arity as u128;
        if !enough {
            let found: Vec<Overlap> = Vec::new();
            assert(found@.map_values(|o: Overlap| o.tuple()).to_set() =~= Set::empty());
            return found;
        }
        let found = corpus_overlaps(&self.corpus, query);
        proof {
            let tuples = found@.map_values(|o: Overlap| o.tuple());
            assert(tuples.to_set() =~= overlap_set(found@)) by {
                assert forall|t: (Seq<char>, usize, usize, usize, usize)|
                    tuples.to_set().contains(t) implies overlap_set(found@).contains(t) by {
                    let i = choose|i: int| 0 <= i < tuples.len() && tuples[i] == t;
                    assert(found@[i].tuple() == t);
                }
                assert forall|t: (Seq<char>, usize, usize, usize, usize)|
                    overlap_set(found@).contains(t) implies tuples.to_set().contains(t) by {
                    let i = choose|i: int| 0 <= i < found@.len() && (#[trigger] found@[i]).tuple() == t;
                    assert(tuples[i] == t);
                }
            }
            assert forall|i: int| 0 <= i < tuples.len() implies self.items().contains(
                ((#[trigger] tuples[i]).0, tuples[i].1),
            ) by {
                assert(tuples[i] == found@[i].tuple());
            }
            assert forall|i: int, j: int| 0 <= i < j < tuples.len() implies (#[trigger] tuples[i]).0
                != (#[trigger] tuples[j]).0 by {
                assert(tuples[i] == found@[i].tuple() && tuples[j] == found@[j].tuple());
            }
            assert forall|i: int| 0 <= i < tuples.len() implies counts_hold(
                self.spec_arity(),
                self.spec_pad_len(),
                query@,
                #[trigger] tuples[i],
            ) by {
                assert(tuples[i] == found@[i].tuple());
            }
            if item_names(self.items()).contains(query@) && ngram_count(
                self.spec_arity(),
                self.spec_pad_len(),
                query@.len(),
            ) >= 1 {
                let i = choose|i: int| 0 <= i < found.len() && (#[trigger] found[i]).name@ == query@;
                assert(tuples[i] == found@[i].tuple());
                assert(tuples[i].0 == query@);
            }
        }
        found
    }

    /// The items that share an n-gram with `query`, each with the score that
    /// the index gives it, in no particular order.
    ///
    /// The index is asked for a score only where some n-gram is not shared
    /// and item and query have no more than `MAX_NGRAMS` n-grams together;
    /// other counts get the score 0.
    pub fn matches(&self, query: &str) -> (found: Vec<Match>)
        requires
            self.wf(),
        ensures
            self.answers(query@, match_views(found@)),
    {
        let overlaps = self.overlaps(query);
        let ghost tuples = overlaps@.map_values(|o: Overlap| o.tuple());
        let mut found: Vec<Match> = Vec::new();
        let mut i: usize = 0;
        while i < overlaps.len()
            invariant
                i <= overlaps.len(),
                tuples == overlaps@.map_values(|o: Overlap| o.tuple()),
                found.len() == i,
                self.wf(),
                forall|k: int| 0 <= k < i ==> (#[trigger] found@[k])@.overlap() == tuples[k],
                forall|k: int|
                    0 <= k < i ==> {
                        let m = #[trigger] found@[k];
                        &&& !(m.item_ngrams + m.query_ngrams <= MAX_NGRAMS && m.shared_ngrams
                            < m.item_ngrams + m.query_ngrams) ==> m.score == 0
                        &&& m.item_ngrams == m.shared_ngrams && m.query_ngrams == m.shared_ngrams
                            && 1 <= m.shared_ngrams <= MAX_NGRAMS / 2 ==> m.score == ONE
                    },
            decreases overlaps.len() - i,
        {
            let o = &overlaps[i];
            let score = match o.item_ngrams.checked_add(o.query_ngrams) {
                Some(all) => if o.shared_ngrams < all && all <= MAX_NGRAMS {
                    corpus_similarity(&self.corpus, o.shared_ngrams, all)
                } else {
                    0
                },
                None => 0,
            };
            found.push(
                Match {
                    name: o.name.clone(),
                    id: o.id,
                    score,
                    item_ngrams: o.item_ngrams,
                    query_ngrams: o.query_ngrams,
                    shared_ngrams: o.shared_ngrams,
                },
            );
            i += 1;
        }
        assert(match_views(found@).map_values(|m: MatchView| m.overlap()) =~= tuples);
        assert forall|k: int| 0 <= k < found.len() implies {
            let m = #[trigger] match_views(found@)[k];
            &&& !(m.item_ngrams + m.query_ngrams <= MAX_NGRAMS && m.shared_ngrams < m.item_ngrams
                + m.query_ngrams) ==> m.score == 0
            &&& m.item_ngrams == m.shared_ngrams && m.query_ngrams == m.shared_ngrams && 1
                <= m.shared_ngrams <= MAX_NGRAMS / 2 ==> m.score == ONE
        } by {
            assert(match_views(found@)[k] == found@[k]@);
        }
        found
    }
}

/// Two matches of different names do not tie: only one of them stands at or
/// before the other.
pub proof fn lemma_ranks_apart(a: MatchView, b: MatchView)
    requires
        a.name != b.name,
        a.ranks_before(b),
    ensures
        !b.ranks_before(a),
{
    let ea = encode_utf8(a.name);
    let eb = encode_utf8(b.name);
    encode_utf8_decode_utf8(a.name);
    encode_utf8_decode_utf8(b.name);
    if b.ranks_before(a) {
        lemma_lex_antisymmetric(ea, eb);
    }
}

/// Matches of different names have one ranking only: whatever the order in
/// which the index reports them, they are ranked alike.
pub proof fn law_ranking_is_unique(a: Seq<MatchView>, b: Seq<MatchView>)
    requires
        is_ranked(a),
        is_ranked(b),
        a.to_multiset() == b.to_multiset(),
        forall|i: int, j: int|
            0 <= i < j < a.len() ==> (#[trigger] a[i]).name != (#[trigger] a[j]).name,
    ensures
        a == b,
    decreases a.len(),
{
    a.to_multiset_ensures();
    b.to_multiset_ensures();
    if a.len() == 0 {
        assert(a =~= b);
    } else {
        let n = a.len() - 1;
        let x = a[n];
        let y = b[n];
        // the last of each ranking stands in the other one
        assert(a.contains(x));
        assert(a.to_multiset().count(x) > 0);
        assert(b.contains(x));
        let j = choose|j: int| 0 <= j < b.len() && b[j] == x;
        assert(b.contains(y));
        assert(b.to_multiset().count(y) > 0);
        assert(a.contains(y));
        let i = choose|i: int| 0 <= i < a.len() && a[i] == y;
        if x != y {
            // each stands before the other, though their names differ
            assert(i < n);
            assert(j < n);
            assert(a[i].ranks_before(a[n]));
            assert(b[j].ranks_before(b[n]));
            lemma_ranks_apart(y, x);
        }
        to_multiset_remove(a, n);
        to_multiset_remove(b, n);
        assert(a.remove(n) =~= a.drop_last());
        assert(b.remove(n) =~= b.drop_last());
        assert forall|p: int, q: int| 0 <= p < q < a.drop_last().len() implies (#[trigger] a.drop_last()[p]).name
            != (#[trigger] a.drop_last()[q]).name by {
            assert(a.drop_last()[p] == a[p] && a.drop_last()[q] == a[q]);
        }
        assert(is_ranked(a.drop_last())) by {
            assert forall|p: int, q: int| 0 <= p < q < a.drop_last().len() implies (#[trigger] a.drop_last()[p]).ranks_before(
                #[trigger] a.drop_last()[q],
            ) by {
                assert(a.drop_last()[p] == a[p] && a.drop_last()[q] == a[q]);
            }
        }
        assert(is_ranked(b.drop_last())) by {
            assert forall|p: int, q: int| 0 <= p < q < b.drop_last().len() implies (#[trigger] b.drop_last()[p]).ranks_before(
                #[trigger] b.drop_last()[q],
            ) by {
                assert(b.drop_last()[p] == b[p] && b.drop_last()[q] == b[q]);
            }
        }
        law_ranking_is_unique(a.drop_last(), b.drop_last());
        assert(a =~= a.drop_last().push(x));
        assert(b =~= b.drop_last().push(y));
    }
}

/// What is kept of a sequence without duplicates has none.
pub proof fn lemma_filter_no_duplicates<T>(s: Seq<T>, pred: spec_fn(T) -> bool)
    requires
        s.no_duplicates(),
    ensures
        s.filter(pred).no_duplicates(),
    decreases s.len(),
{
    if s.len() > 0 {
        let head = s.drop_last();
        lemma_filter_no_duplicates(head, pred);
        assert(s =~= head.push(s.last()));
        head.lemma_filter_push(s.last(), pred);
        if pred(s.last()) {
            let kept = head.filter(pred);
            if kept.contains(s.last()) {
                head.lemma_filter_contains_rev(pred, s.last());
                let k = choose|k: int| 0 <= k < head.len() && head[k] == s.last();
                assert(s[k] == s[s.len() - 1]);
            }
            assert forall|i: int, j: int|
                0 <= i < kept.push(s.last()).len() && 0 <= j < kept.push(s.last()).len() && i
                    != j implies kept.push(s.last())[i] != kept.push(s.last())[j] by {
                if i < kept.len() && j < kept.len() {
                } else if i < kept.len() {
                    assert(kept.contains(kept[i]));
                } else {
                    assert(kept.contains(kept[j]));
                }
            }
        }
    }
}

/// A ranking of the matches that meet `pred` holds these matches and no
/// others, each once, where no two matches share a name.
pub proof fn lemma_ranking_holds_the_kept(
    matches: Seq<MatchView>,
    ranked: Seq<MatchView>,
    pred: spec_fn(MatchView) -> bool,
)
    requires
        forall|i: int, j: int|
            0 <= i < j < matches.len() ==> (#[trigger] matches[i]).name != (#[trigger] matches[j]).name,
        ranked.to_multiset() == matches.filter(pred).to_multiset(),
    ensures
        ranked.no_duplicates(),
        ranked.len() == matches.filter(pred).len(),
        forall|i: int|
            0 <= i < ranked.len() ==> matches.contains(#[trigger] ranked[i]) && pred(ranked[i]),
        forall|k: int|
            0 <= k < matches.len() && pred(#[trigger] matches[k]) ==> ranked.contains(matches[k]),
        forall|i: int, j: int|
            0 <= i < j < ranked.len() ==> (#[trigger] ranked[i]).name != (#[trigger] ranked[j]).name,
{
    let kept = matches.filter(pred);
    assert(matches.no_duplicates());
    lemma_filter_no_duplicates(matches, pred);
    kept.lemma_multiset_has_no_duplicates();
    ranked.lemma_multiset_has_no_duplicates_conv();
    ranked.to_multiset_ensures();
    kept.to_multiset_ensures();
    assert forall|i: int| 0 <= i < ranked.len() implies matches.contains(#[trigger] ranked[i])
        && pred(ranked[i]) by {
        assert(ranked.contains(ranked[i]));
        assert(ranked.to_multiset().count(ranked[i]) > 0);
        assert(kept.to_multiset().count(ranked[i]) > 0);
        assert(kept.contains(ranked[i]));
        matches.lemma_filter_contains_rev(pred, ranked[i]);
        let k = choose|k: int| 0 <= k < kept.len() && kept[k] == ranked[i];
        matches.lemma_filter_pred(pred, k);
    }
    assert forall|k: int|
        0 <= k < matches.len() && pred(#[trigger] matches[k]) implies ranked.contains(
        matches[k],
    ) by {
        matches.lemma_filter_contains(pred, k);
        assert(kept.to_multiset().count(matches[k]) > 0);
        assert(ranked.to_multiset().count(matches[k]) > 0);
    }
    assert forall|i: int, j: int| 0 <= i < j < ranked.len() implies (#[trigger] ranked[i]).name
        != (#[trigger] ranked[j]).name by {
        assert(matches.contains(ranked[i]));
        assert(matches.contains(ranked[j]));
        let a = choose|a: int| 0 <= a < matches.len() && matches[a] == ranked[i];
        let b = choose|b: int| 0 <= b < matches.len() && matches[b] == ranked[j];
        assert(ranked[i] != ranked[j]);
    }
}

/// An item that has the n-grams of the query and no others gets the score
/// one: so does a name that is asked for itself, where the index counts all
/// its n-grams as shared.
pub proof fn law_full_overlap_scores_one(
    index: &NGramIndex,
    query: Seq<char>,
    matches: Seq<MatchView>,
    at: int,
)
    requires
        index.answers(query, matches),
        0 <= at < matches.len(),
        matches[at].item_ngrams == matches[at].shared_ngrams,
        matches[at].query_ngrams == matches[at].shared_ngrams,
        1 <= matches[at].shared_ngrams <= MAX_NGRAMS / 2,
    ensures
        matches[at].score == ONE,
{
}

/// A name of the index that is asked for itself is in the answer: it
/// shares all its n-grams with itself and has the score one.
pub proof fn law_name_asked_for_itself_scores_one(
    index: &NGramIndex,
    name: Seq<char>,
    matches: Seq<MatchView>,
) -> (at: int)
    requires
        index.answers(name, matches),
        item_names(index.items()).contains(name),
        1 <= ngram_count(index.spec_arity(), index.spec_pad_len(), name.len()) <= MAX_NGRAMS / 2,
    ensures
        0 <= at < matches.len(),
        matches[at].name == name,
        matches[at].shared_ngrams == matches[at].item_ngrams,
        matches[at].shared_ngrams == matches[at].query_ngrams,
        matches[at].score == ONE,
{
    let overlaps = matches.map_values(|m: MatchView| m.overlap());
    let at = choose|i: int| 0 <= i < overlaps.len() && (#[trigger] overlaps[i]).0 == name;
    assert(overlaps[at] == matches[at].overlap());
    assert(counts_hold(index.spec_arity(), index.spec_pad_len(), name, overlaps[at]));
    at
}

/// An index without items reports nothing, whatever is asked.
pub proof fn law_empty_index_reports_nothing(
    index: &NGramIndex,
    query: Seq<char>,
    found: Seq<(Seq<char>, usize, usize, usize, usize)>,
)
    requires
        index.items().len() == 0,
        index.reports(query, found),
    ensures
        found.len() == 0,
{
    if found.len() > 0 {
        assert(index.items().contains((found[0].0, found[0].1)));
    }
}

} // verus!
