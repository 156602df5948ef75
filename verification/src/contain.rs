//! The substring index over icon names: a sorted set of names that is
//! streamed through a byte automaton.

use crate::automaton::{accepts, accepts_bytes, lemma_run_split, run, Automaton, Contains, Exact,
    Search};
use crate::order::{bytes_eq, bytes_le, lemma_lex_antisymmetric, lemma_lex_total,
    lemma_lex_transitive, lex_le};
use vstd::prelude::*;
use vstd::slice::slice_to_vec;
use vstd::utf8::{encode_utf8, encode_utf8_decode_utf8};

verus! {

/// `needle` stands in `hay` at position `at`.
pub open spec fn occurs_at(hay: Seq<u8>, needle: Seq<u8>, at: int) -> bool {
    &&& 0 <= at
    &&& at + needle.len() <= hay.len()
    &&& hay.subrange(at, at + needle.len()) == needle
}

/// `hay` holds `needle` as a contiguous run of bytes.
pub open spec fn contains_run(hay: Seq<u8>, needle: Seq<u8>) -> bool {
    exists|at: int| occurs_at(hay, needle, at)
}

/// The search for `needle`: the decorated automaton of its exact match.
pub open spec fn searches_for(c: &Contains<Exact>, needle: Seq<u8>) -> bool {
    c.inner.word@ == needle
}

/// The search has found its word, or stands at the start of an attempt,
/// once it has read the first `at` bytes of `hay`.
pub open spec fn attempt_begins(c: &Contains<Exact>, hay: Seq<u8>, at: int) -> bool {
    &&& 0 <= at <= hay.len()
    &&& ({
        let state = run(c, c.spec_start(), hay.take(at));
        state is Done || state == Search::Running(Some(0usize))
    })
}

/// The search gives up an attempt inside every place where its word stands
/// in `hay`, and so misses it: `hay` holds the word, but nowhere where an
/// attempt begins.
pub open spec fn restart_skips(c: &Contains<Exact>, hay: Seq<u8>) -> bool {
    &&& contains_run(hay, c.inner.word@)
    &&& forall|at: int| #[trigger] occurs_at(hay, c.inner.word@, at) ==> !attempt_begins(c, hay, at)
}

/// What the search has read: once done, its word stands in it; during an
/// attempt, it ends with the part of the word that the attempt has matched.
pub proof fn lemma_search_state(c: &Contains<Exact>, bytes: Seq<u8>)
    ensures
        match run(c, c.spec_start(), bytes) {
            Search::Done => contains_run(bytes, c.inner.word@),
            Search::Running(s) => {
                &&& s is Some
                &&& s->0 < c.inner.word.len()
                &&& s->0 <= bytes.len()
                &&& bytes.skip(bytes.len() - s->0) == c.inner.word@.take(s->0 as int)
            },
        },
    decreases bytes.len(),
{
    let word = c.inner.word@;
    if bytes.len() == 0 {
        if word.len() == 0 {
            assert(bytes.subrange(0, 0) =~= word);
            assert(occurs_at(bytes, word, 0));
        } else {
            assert(bytes.skip(0) =~= word.take(0));
        }
    } else {
        let head = bytes.drop_last();
        lemma_search_state(c, head);
        match run(c, c.spec_start(), head) {
            Search::Done => {
                let at = choose|at: int| occurs_at(head, word, at);
                assert(bytes.subrange(at, at + word.len()) =~= head.subrange(at, at + word.len()));
                assert(occurs_at(bytes, word, at));
            },
            Search::Running(s) => {
                let k = s->0;
                if word[k as int] == bytes.last() {
                    assert(bytes.skip(bytes.len() - (k + 1)) =~= head.skip(head.len() - k).push(
                        bytes.last(),
                    ));
                    assert(word.take(k + 1) =~= word.take(k as int).push(word[k as int]));
                    if k + 1 == word.len() {
                        let at = bytes.len() - word.len();
                        assert(word.take(k + 1) =~= word);
                        assert(bytes.subrange(at, at + word.len()) =~= bytes.skip(at));
                        assert(occurs_at(bytes, word, at));
                    }
                } else {
                    assert(bytes.skip(bytes.len() as int) =~= word.take(0));
                }
            },
        }
    }
}

/// A search that is done stays done.
pub proof fn lemma_done_stays(c: &Contains<Exact>, bytes: Seq<u8>)
    ensures
        run(c, Search::Done, bytes) is Done,
    decreases bytes.len(),
{
    if bytes.len() > 0 {
        lemma_done_stays(c, bytes.drop_last());
    }
}

/// An attempt that begins where the word stands reads it to its end.
proof fn lemma_attempt_progress(c: &Contains<Exact>, hay: Seq<u8>, at: int, read: int)
    requires
        attempt_begins(c, hay, at),
        occurs_at(hay, c.inner.word@, at),
        0 <= read <= c.inner.word.len(),
    ensures
        ({
            let state = run(c, c.spec_start(), hay.take(at + read));
            state is Done || (read < c.inner.word.len() && state == Search::Running(
                Some(read as usize),
            ))
        }),
    decreases read,
{
    let word = c.inner.word@;
    lemma_search_state(c, hay.take(at + read));
    if read > 0 {
        lemma_attempt_progress(c, hay, at, read - 1);
        assert(hay.take(at + read).drop_last() =~= hay.take(at + read - 1));
        assert(hay.take(at + read).last() == hay[at + read - 1]);
        assert(hay.subrange(at, at + word.len())[read - 1] == word[read - 1]);
    }
}

/// Two searches for the same word read alike.
pub proof fn lemma_same_word(a: &Contains<Exact>, b: &Contains<Exact>, bytes: Seq<u8>)
    requires
        a.inner.word@ == b.inner.word@,
    ensures
        run(a, a.spec_start(), bytes) == run(b, b.spec_start(), bytes),
        accepts(a, bytes) == accepts(b, bytes),
    decreases bytes.len(),
{
    if bytes.len() > 0 {
        lemma_same_word(a, b, bytes.drop_last());
    }
}

/// Soundness of the search: what it accepts holds its word.
pub proof fn lemma_search_sound(c: &Contains<Exact>, hay: Seq<u8>)
    requires
        accepts(c, hay),
    ensures
        contains_run(hay, c.inner.word@),
{
    lemma_search_state(c, hay);
}

/// The search accepts a string in which its word stands where an attempt
/// begins.
pub proof fn lemma_search_finds(c: &Contains<Exact>, hay: Seq<u8>, at: int)
    requires
        occurs_at(hay, c.inner.word@, at),
        attempt_begins(c, hay, at),
    ensures
        accepts(c, hay),
{
    let word = c.inner.word@;
    let end = at + word.len();
    lemma_attempt_progress(c, hay, at, word.len() as int);
    assert(hay =~= hay.take(end) + hay.skip(end));
    lemma_run_split(c, c.spec_start(), hay.take(end), hay.skip(end));
    lemma_done_stays(c, hay.skip(end));
}

/// Where the search stands, its last attempt began: once done, its word
/// stands where an attempt began; during an attempt, the attempt began as
/// many bytes back as it has matched.
pub proof fn lemma_search_attempts(c: &Contains<Exact>, bytes: Seq<u8>)
    ensures
        match run(c, c.spec_start(), bytes) {
            Search::Done => exists|at: int|
                #[trigger] occurs_at(bytes, c.inner.word@, at) && attempt_begins(c, bytes, at),
            Search::Running(s) => {
                &&& s is Some
                &&& s->0 <= bytes.len()
                &&& run(c, c.spec_start(), bytes.take(bytes.len() - s->0)) == Search::<
                    Option<usize>,
                >::Running(Some(0usize))
            },
        },
    decreases bytes.len(),
{
    let word = c.inner.word@;
    lemma_search_state(c, bytes);
    if bytes.len() == 0 {
        assert(bytes.take(0) =~= bytes);
        if word.len() == 0 {
            assert(bytes.subrange(0, 0) =~= word);
            assert(occurs_at(bytes, word, 0) && attempt_begins(c, bytes, 0));
        }
    } else {
        let head = bytes.drop_last();
        lemma_search_attempts(c, head);
        lemma_search_state(c, head);
        match run(c, c.spec_start(), head) {
            Search::Done => {
                let at = choose|at: int|
                    #[trigger] occurs_at(head, word, at) && attempt_begins(c, head, at);
                assert(bytes.subrange(at, at + word.len()) =~= head.subrange(at, at + word.len()));
                assert(bytes.take(at) =~= head.take(at));
                assert(occurs_at(bytes, word, at) && attempt_begins(c, bytes, at));
            },
            Search::Running(s) => {
                let k = s->0;
                let began = head.len() - k;
                assert(bytes.take(began) =~= head.take(began));
                match run(c, c.spec_start(), bytes) {
                    Search::Done => {
                        // the attempt that began at `began` has read the word
                        assert(k + 1 == word.len());
                        assert(bytes.skip(began) =~= head.skip(began).push(bytes.last()));
                        assert(word =~= word.take(k as int).push(word[k as int]));
                        assert(bytes.subrange(began, began + word.len()) =~= bytes.skip(began));
                        assert(occurs_at(bytes, word, began) && attempt_begins(c, bytes, began));
                    },
                    Search::Running(t) => {
                        if t->0 == 0 {
                            assert(bytes.take(bytes.len() as int) =~= bytes);
                        }
                    },
                }
            },
        }
    }
}

/// What the search accepts is not skipped: the restarts skip the word in
/// `hay` exactly if `hay` holds the word and the search does not accept it.
pub proof fn lemma_skipped_is_missed(c: &Contains<Exact>, hay: Seq<u8>)
    ensures
        restart_skips(c, hay) <==> contains_run(hay, c.inner.word@) && !accepts(c, hay),
{
    if accepts(c, hay) {
        lemma_search_attempts(c, hay);
    }
    if contains_run(hay, c.inner.word@) && !restart_skips(c, hay) {
        let at = choose|at: int|
            #[trigger] occurs_at(hay, c.inner.word@, at) && attempt_begins(c, hay, at);
        lemma_search_finds(c, hay, at);
    }
}

/// The search accepts `hay` exactly if `hay` holds its word as a contiguous
/// run of bytes, for every `hay` in which the restarts do not skip the word.
pub proof fn law_search_is_containment(c: &Contains<Exact>, hay: Seq<u8>)
    requires
        !restart_skips(c, hay),
    ensures
        accepts(c, hay) <==> contains_run(hay, c.inner.word@),
{
    if accepts(c, hay) {
        lemma_search_sound(c, hay);
    }
    if contains_run(hay, c.inner.word@) {
        let at = choose|at: int|
            #[trigger] occurs_at(hay, c.inner.word@, at) && attempt_begins(c, hay, at);
        lemma_search_finds(c, hay, at);
    }
}

/// The first `limit` of the elements of `s` that meet `pred`, in their
/// order.
pub open spec fn first_matches<T>(s: Seq<T>, pred: spec_fn(T) -> bool, limit: nat) -> Seq<T> {
    let all = s.filter(pred);
    if all.len() <= limit {
        all
    } else {
        all.take(limit as int)
    }
}

/// What a prefix holds of the elements that meet `pred` is the beginning of
/// what the whole holds.
pub proof fn lemma_filter_prefix<T>(s: Seq<T>, pred: spec_fn(T) -> bool, k: int)
    requires
        0 <= k <= s.len(),
    ensures
        s.take(k).filter(pred).len() <= s.filter(pred).len(),
        s.take(k).filter(pred) == s.filter(pred).take(s.take(k).filter(pred).len() as int),
    decreases s.len() - k,
{
    if k == s.len() {
        assert(s.take(k) =~= s);
        assert(s.filter(pred).take(s.filter(pred).len() as int) =~= s.filter(pred));
    } else {
        lemma_filter_prefix(s, pred, k + 1);
        assert(s.take(k + 1) =~= s.take(k).push(s[k]));
        s.take(k).lemma_filter_push(s[k], pred);
        let short = s.take(k).filter(pred);
        let long = s.take(k + 1).filter(pred);
        assert(short =~= long.take(short.len() as int));
        assert(short =~= s.filter(pred).take(short.len() as int));
    }
}

/// The names of `keys`, in order.
pub open spec fn key_names(keys: Seq<String>) -> Seq<Seq<char>> {
    keys.map_values(|k: String| k@)
}

/// Every name stands strictly before those behind it, by its bytes.
pub open spec fn strictly_sorted(names: Seq<Seq<char>>) -> bool {
    forall|i: int, j: int|
        0 <= i < j < names.len() ==> lex_le(
            encode_utf8(#[trigger] names[i]),
            encode_utf8(#[trigger] names[j]),
        ) && names[i] != names[j]
}

/// The set of names that the substring search goes through, sorted by
/// their bytes.
pub struct ContainmentIndex {
    keys: Vec<String>,
}

impl View for ContainmentIndex {
    type V = Seq<Seq<char>>;

    closed spec fn view(&self) -> Seq<Seq<char>> {
        key_names(self.keys@)
    }
}

impl ContainmentIndex {
    /// The index's invariant: its names are sorted, and none comes twice.
    pub open spec fn wf(&self) -> bool {
        strictly_sorted(self@)
    }

    /// An index without names.
    pub fn new() -> (index: ContainmentIndex)
        ensures
            index.wf(),
            index@ == Seq::<Seq<char>>::empty(),
    {
        let index = ContainmentIndex { keys: Vec::new() };
        assert(index@ =~= Seq::<Seq<char>>::empty());
        index
    }

    /// The number of names.
    pub fn len(&self) -> (n: usize)
        ensures
            n == self@.len(),
    {
        self.keys.len()
    }

    /// The name at position `at`.
    pub fn get(&self, at: usize) -> (name: &str)
        requires
            at < self@.len(),
        ensures
            name@ == self@[at as int],
    {
        self.keys[at].as_str()
    }

    /// Puts `name` in its place, unless the index holds it.
    pub fn insert(&mut self, name: &str) -> (added: bool)
        requires
            old(self).wf(),
        ensures
            final(self).wf(),
            added == !old(self)@.contains(name@),
            final(self)@.to_set() == old(self)@.to_set().insert(name@),
            !added ==> final(self)@ == old(self)@,
    {
        let ghost before = self@;
        let bytes = name.as_bytes();
        let mut at: usize = 0;
        while at < self.keys.len() && !bytes_le(bytes, self.keys[at].as_str().as_bytes())
            invariant
                at <= self.keys.len(),
                self@ == before,
                bytes@ == encode_utf8(name@),
                forall|k: int|
                    0 <= k < at ==> !lex_le(encode_utf8(name@), encode_utf8(#[trigger] before[k])),
            decreases self.keys.len() - at,
        {
            at += 1;
        }
        proof {
            assert forall|k: int| 0 <= k < at implies before[k] != name@ by {
                crate::order::lemma_lex_reflexive(encode_utf8(name@));
            }
        }
        if at < self.keys.len() && bytes_eq(bytes, self.keys[at].as_str().as_bytes()) {
            proof {
                encode_utf8_decode_utf8(name@);
                encode_utf8_decode_utf8(before[at as int]);
                assert(before[at as int] == name@);
                assert(before.to_set().insert(name@) =~= before.to_set());
            }
            return false;
        }
        proof {
            assert(!before.contains(name@)) by {
                if before.contains(name@) {
                    let k = choose|k: int| 0 <= k < before.len() && before[k] == name@;
                    if k > at {
                        // the name at `at` stands at or behind `name`, and
                        // strictly before the name at `k`
                        lemma_lex_antisymmetric(
                            encode_utf8(name@),
                            encode_utf8(before[at as int]),
                        );
                        encode_utf8_decode_utf8(name@);
                        encode_utf8_decode_utf8(before[at as int]);
                    }
                }
            }
        }
        self.keys.insert(at, name.to_owned());
        proof {
            let after = self@;
            assert(after =~= before.insert(at as int, name@));
            assert(after.to_set() =~= before.to_set().insert(name@)) by {
                assert forall|x: Seq<char>| after.to_set().contains(x) implies before.to_set().insert(
                    name@,
                ).contains(x) by {
                    let k = choose|k: int| 0 <= k < after.len() && after[k] == x;
                    if k < at {
                        assert(before[k] == x);
                    } else if k > at {
                        assert(before[k - 1] == x);
                    }
                }
                assert forall|x: Seq<char>| before.to_set().insert(name@).contains(
                    x,
                ) implies after.to_set().contains(x) by {
                    if x == name@ {
                        assert(after[at as int] == x);
                    } else {
                        let k = choose|k: int| 0 <= k < before.len() && before[k] == x;
                        if k < at {
                            assert(after[k] == x);
                        } else {
                            assert(after[k + 1] == x);
                        }
                    }
                }
            }
            assert forall|i: int, j: int| 0 <= i < j < after.len() implies lex_le(
                encode_utf8(#[trigger] after[i]),
                encode_utf8(#[trigger] after[j]),
            ) && after[i] != after[j] by {
                let n = encode_utf8(name@);
                if j < at {
                    assert(after[i] == before[i] && after[j] == before[j]);
                } else if j == at {
                    assert(after[i] == before[i]);
                    lemma_lex_total(n, encode_utf8(before[i]));
                } else if i == at {
                    assert(after[j] == before[j - 1]);
                    if j - 1 > at {
                        lemma_lex_transitive(
                            n,
                            encode_utf8(before[at as int]),
                            encode_utf8(before[j - 1]),
                        );
                    }
                } else if i < at {
                    assert(after[i] == before[i] && after[j] == before[j - 1]);
                } else {
                    assert(after[i] == before[i - 1] && after[j] == before[j - 1]);
                }
            }
        }
        true
    }

    /// The position of the first name at or behind `from` that `automaton`
    /// accepts: the stream of matches, one at a time.
    pub fn next_match<A: Automaton>(&self, automaton: &A, from: usize) -> (found: Option<usize>)
        ensures
            match found {
                Some(at) => {
                    &&& from <= at < self@.len()
                    &&& accepts(automaton, encode_utf8(self@[at as int]))
                    &&& forall|k: int|
                        from <= k < at ==> !accepts(automaton, encode_utf8(#[trigger] self@[k]))
                },
                None => forall|k: int|
                    from <= k < self@.len() ==> !accepts(
                        automaton,
                        encode_utf8(#[trigger] self@[k]),
                    ),
            },
    {
        let mut at: usize = from;
        while at < self.keys.len()
            invariant
                from <= at,
                forall|k: int|
                    from <= k < at && k < self@.len() ==> !accepts(
                        automaton,
                        encode_utf8(#[trigger] self@[k]),
                    ),
            decreases self.keys.len() - at,
        {
            if accepts_bytes(automaton, self.keys[at].as_str().as_bytes()) {
                return Some(at);
            }
            at += 1;
        }
        None
    }

    /// The first `limit` names that `automaton` accepts, in the order of the
    /// index.
    pub fn search<A: Automaton>(&self, automaton: &A, limit: usize) -> (found: Vec<String>)
        ensures
            key_names(found@) == first_matches(
                self@,
                |name: Seq<char>| accepts(automaton, encode_utf8(name)),
                limit as nat,
            ),
    {
        let ghost pred = |name: Seq<char>| accepts(automaton, encode_utf8(name));
        let mut found: Vec<String> = Vec::new();
        let mut at: usize = 0;
        assert(self@.take(0).filter(pred) =~= Seq::<Seq<char>>::empty());
        assert(key_names(found@) =~= Seq::<Seq<char>>::empty());
        while at < self.keys.len() && found.len() < limit
            invariant
                at <= self.keys.len(),
                found.len() <= limit,
                pred == |name: Seq<char>| accepts(automaton, encode_utf8(name)),
                key_names(found@) == self@.take(at as int).filter(pred),
            decreases self.keys.len() - at,
        {
            proof {
                assert(self@.take(at + 1) =~= self@.take(at as int).push(self@[at as int]));
                self@.take(at as int).lemma_filter_push(self@[at as int], pred);
            }
            if accepts_bytes(automaton, self.keys[at].as_str().as_bytes()) {
                let ghost before = found@;
                found.push(self.keys[at].clone());
                assert(key_names(found@) =~= key_names(before).push(self@[at as int]));
            }
            at += 1;
        }
        proof {
            lemma_filter_prefix(self@, pred, at as int);
            if at == self.keys.len() {
                assert(self@.take(at as int) =~= self@);
            }
        }
        found
    }

    /// The first `limit` names in which the search for `query` finds it, in
    /// the order of the index.
    pub fn containing(&self, query: &str, limit: usize) -> (found: Vec<String>)
        ensures
            exists|c: Contains<Exact>|
                searches_for(&c, encode_utf8(query@)) && key_names(found@) == first_matches(
                    self@,
                    |name: Seq<char>| accepts(&c, encode_utf8(name)),
                    limit as nat,
                ),
    {
        let c = Contains { inner: Exact { word: slice_to_vec(query.as_bytes()) } };
        let found = self.search(&c, limit);
        assert(searches_for(&c, encode_utf8(query@)));
        found
    }
}

/// A name of the index is among the names that the search for a query
/// accepts exactly if it holds the query as a contiguous run of bytes,
/// unless the restarts of the search skip the query in that name.
pub proof fn law_matches_contain_query(index: &ContainmentIndex, c: &Contains<Exact>, name: Seq<char>)
    requires
        index@.contains(name),
        !restart_skips(c, encode_utf8(name)),
    ensures
        index@.filter(|n: Seq<char>| accepts(c, encode_utf8(n))).contains(name) <==> contains_run(
            encode_utf8(name),
            c.inner.word@,
        ),
{
    let pred = |n: Seq<char>| accepts(c, encode_utf8(n));
    law_search_is_containment(c, encode_utf8(name));
    let found = index@.filter(pred);
    if found.contains(name) {
        let k = choose|k: int| 0 <= k < found.len() && found[k] == name;
        index@.lemma_filter_pred(pred, k);
    }
    if pred(name) {
        let k = choose|k: int| 0 <= k < index@.len() && index@[k] == name;
        index@.lemma_filter_contains(pred, k);
    }
}

} // verus!
