//! Byte automata: the one that accepts a given string, and the decorator
//! that turns an automaton into a search for what it accepts inside a
//! longer string.

use vstd::prelude::*;

verus! {

/// A deterministic automaton over bytes.
pub trait Automaton {
    type State;

    /// The state before any byte.
    spec fn spec_start(&self) -> Self::State;

    /// Whether what was read up to `state` is accepted.
    spec fn spec_is_match(&self, state: Self::State) -> bool;

    /// Whether some continuation from `state` may be accepted.
    spec fn spec_can_match(&self, state: Self::State) -> bool;

    /// The state after `byte` is read in `state`.
    spec fn spec_accept(&self, state: Self::State, byte: u8) -> Self::State;

    /// A state that cannot match is not a match, and stays so whatever
    /// follows.
    proof fn lemma_dead_end(&self, state: Self::State, byte: u8)
        requires
            !self.spec_can_match(state),
        ensures
            !self.spec_is_match(state),
            !self.spec_can_match(self.spec_accept(state, byte)),
    ;

    /// The state before any byte.
    fn start(&self) -> (state: Self::State)
        ensures
            state == self.spec_start(),
    ;

    /// Whether what was read up to `state` is accepted.
    fn is_match(&self, state: &Self::State) -> (yes: bool)
        ensures
            yes == self.spec_is_match(*state),
    ;

    /// Whether some continuation from `state` may be accepted.
    fn can_match(&self, state: &Self::State) -> (yes: bool)
        ensures
            yes == self.spec_can_match(*state),
    ;

    /// The state after `byte` is read in `state`.
    fn accept(&self, state: &Self::State, byte: u8) -> (next: Self::State)
        ensures
            next == self.spec_accept(*state, byte),
    ;
}

/// The state of `a` after it has read `bytes` from `state`.
pub open spec fn run<A: Automaton>(a: &A, state: A::State, bytes: Seq<u8>) -> A::State
    decreases bytes.len(),
{
    if bytes.len() == 0 {
        state
    } else {
        a.spec_accept(run(a, state, bytes.drop_last()), bytes.last())
    }
}

/// Whether `a` accepts `bytes`.
pub open spec fn accepts<A: Automaton>(a: &A, bytes: Seq<u8>) -> bool {
    a.spec_is_match(run(a, a.spec_start(), bytes))
}

/// Once `a` cannot match, it accepts no continuation.
pub proof fn lemma_dead_run<A: Automaton>(a: &A, state: A::State, bytes: Seq<u8>)
    requires
        !a.spec_can_match(state),
    ensures
        !a.spec_can_match(run(a, state, bytes)),
        !a.spec_is_match(run(a, state, bytes)),
    decreases bytes.len(),
{
    if bytes.len() == 0 {
        a.lemma_dead_end(state, 0);
    } else {
        lemma_dead_run(a, state, bytes.drop_last());
        a.lemma_dead_end(run(a, state, bytes.drop_last()), bytes.last());
        a.lemma_dead_end(run(a, state, bytes), 0);
    }
}

/// Reading `head` and then `tail` is reading `head + tail`.
pub proof fn lemma_run_split<A: Automaton>(a: &A, state: A::State, head: Seq<u8>, tail: Seq<u8>)
    ensures
        run(a, state, head + tail) == run(a, run(a, state, head), tail),
    decreases tail.len(),
{
    if tail.len() == 0 {
        assert(head + tail =~= head);
    } else {
        lemma_run_split(a, state, head, tail.drop_last());
        assert((head + tail).drop_last() =~= head + tail.drop_last());
    }
}

/// Whether `a` accepts `bytes`.
pub fn accepts_bytes<A: Automaton>(a: &A, bytes: &[u8]) -> (yes: bool)
    ensures
        yes == accepts(a, bytes@),
{
    let mut state = a.start();
    let mut i: usize = 0;
    while i < bytes.len()
        invariant
            i <= bytes.len(),
            state == run(a, a.spec_start(), bytes@.take(i as int)),
        decreases bytes.len() - i,
    {
        if !a.can_match(&state) {
            proof {
                assert(bytes@ =~= bytes@.take(i as int) + bytes@.skip(i as int));
                lemma_run_split(a, a.spec_start(), bytes@.take(i as int), bytes@.skip(i as int));
                lemma_dead_run(a, state, bytes@.skip(i as int));
            }
            return false;
        }
        proof {
            assert(bytes@.take(i + 1).drop_last() =~= bytes@.take(i as int));
        }
        state = a.accept(&state, bytes[i]);
        i += 1;
    }
    assert(bytes@.take(bytes.len() as int) =~= bytes@);
    a.is_match(&state)
}

/// The automaton that accepts `word` and nothing else.
pub struct Exact {
    pub word: Vec<u8>,
}

impl Automaton for Exact {
    /// The number of bytes of the word that were read, or nothing once a
    /// byte has differed.
    type State = Option<usize>;

    open spec fn spec_start(&self) -> Option<usize> {
        Some(0)
    }

    open spec fn spec_is_match(&self, state: Option<usize>) -> bool {
        state == Some(self.word.len())
    }

    open spec fn spec_can_match(&self, state: Option<usize>) -> bool {
        state is Some
    }

    open spec fn spec_accept(&self, state: Option<usize>, byte: u8) -> Option<usize> {
        match state {
            Some(k) => if k < self.word.len() && self.word@[k as int] == byte {
                Some((k + 1) as usize)
            } else {
                None
            },
            None => None,
        }
    }

    proof fn lemma_dead_end(&self, state: Option<usize>, byte: u8) {
    }

    fn start(&self) -> (state: Option<usize>) {
        Some(0)
    }

    fn is_match(&self, state: &Option<usize>) -> (yes: bool) {
        match state {
            Some(k) => *k == self.word.len(),
            None => false,
        }
    }

    fn can_match(&self, state: &Option<usize>) -> (yes: bool) {
        state.is_some()
    }

    fn accept(&self, state: &Option<usize>, byte: u8) -> (next: Option<usize>) {
        match state {
            Some(k) => if *k < self.word.len() && self.word[*k] == byte {
                Some(*k + 1)
            } else {
                None
            },
            None => None,
        }
    }
}

/// What `Exact` has read is the beginning of its word, as long as it lives.
pub proof fn lemma_exact_run(a: &Exact, bytes: Seq<u8>)
    ensures
        match run(a, a.spec_start(), bytes) {
            Some(k) => k == bytes.len() && k <= a.word.len() && bytes == a.word@.take(k as int),
            None => bytes.len() > 0 && !(bytes.len() <= a.word.len() && bytes == a.word@.take(
                bytes.len() as int,
            )),
        },
    decreases bytes.len(),
{
    if bytes.len() == 0 {
        assert(bytes =~= a.word@.take(0));
    } else {
        let head = bytes.drop_last();
        lemma_exact_run(a, head);
        match run(a, a.spec_start(), head) {
            Some(k) => {
                if k < a.word.len() && a.word@[k as int] == bytes.last() {
                    assert(bytes =~= a.word@.take(k + 1));
                } else if bytes.len() <= a.word.len() && bytes == a.word@.take(bytes.len() as int) {
                    assert(bytes.last() == a.word@[k as int]);
                }
            },
            None => {
                if bytes.len() <= a.word.len() && bytes == a.word@.take(bytes.len() as int) {
                    assert(head =~= a.word@.take(head.len() as int));
                }
            },
        }
    }
}

/// The exact automaton accepts its word and nothing else.
pub proof fn law_exact_accepts_its_word(a: &Exact, bytes: Seq<u8>)
    ensures
        accepts(a, bytes) <==> bytes == a.word@,
{
    lemma_exact_run(a, bytes);
    assert(a.word@.take(a.word.len() as int) =~= a.word@);
}

/// The state of a search: either what the inner automaton accepts was found,
/// or the inner automaton is part way through an attempt.
pub enum Search<S> {
    Done,
    Running(S),
}

/// The decorator that looks for what `inner` accepts inside a longer string.
///
/// It follows `inner` from the start of an attempt. When `inner` matches,
/// the search is done and stays so. When `inner` cannot match any more, the
/// attempt is given up and the next one starts with the byte that follows.
/// The search can match as long as the attempt or a new one can.
pub struct Contains<A> {
    pub inner: A,
}

impl<A: Automaton> Automaton for Contains<A> {
    type State = Search<A::State>;

    open spec fn spec_start(&self) -> Search<A::State> {
        if self.inner.spec_is_match(self.inner.spec_start()) {
            Search::Done
        } else {
            Search::Running(self.inner.spec_start())
        }
    }

    open spec fn spec_is_match(&self, state: Search<A::State>) -> bool {
        state is Done
    }

    open spec fn spec_can_match(&self, state: Search<A::State>) -> bool {
        match state {
            Search::Done => true,
            Search::Running(s) => self.inner.spec_can_match(s) || self.inner.spec_can_match(
                self.inner.spec_start(),
            ),
        }
    }

    open spec fn spec_accept(&self, state: Search<A::State>, byte: u8) -> Search<A::State> {
        match state {
            Search::Done => Search::Done,
            Search::Running(s) => {
                let next = self.inner.spec_accept(s, byte);
                if self.inner.spec_is_match(next) {
                    Search::Done
                } else if !self.inner.spec_can_match(next) {
                    Search::Running(self.inner.spec_start())
                } else {
                    Search::Running(next)
                }
            },
        }
    }

    proof fn lemma_dead_end(&self, state: Search<A::State>, byte: u8) {
        match state {
            Search::Done => {},
            Search::Running(s) => {
                self.inner.lemma_dead_end(s, byte);
                self.inner.lemma_dead_end(self.inner.spec_accept(s, byte), byte);
            },
        }
    }

    fn start(&self) -> (state: Search<A::State>) {
        let s = self.inner.start();
        if self.inner.is_match(&s) {
            Search::Done
        } else {
            Search::Running(s)
        }
    }

    fn is_match(&self, state: &Search<A::State>) -> (yes: bool) {
        match state {
            Search::Done => true,
            Search::Running(_) => false,
        }
    }

    fn can_match(&self, state: &Search<A::State>) -> (yes: bool) {
        match state {
            Search::Done => true,
            Search::Running(s) => self.inner.can_match(s) || self.inner.can_match(
                &self.inner.start(),
            ),
        }
    }

    fn accept(&self, state: &Search<A::State>, byte: u8) -> (next: Search<A::State>) {
        match state {
            Search::Done => Search::Done,
            Search::Running(s) => {
                let next = self.inner.accept(s, byte);
                if self.inner.is_match(&next) {
                    Search::Done
                } else if !self.inner.can_match(&next) {
                    Search::Running(self.inner.start())
                } else {
                    Search::Running(next)
                }
            },
        }
    }
}

} // verus!
