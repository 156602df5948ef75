//! The sliding window over the lines of a stream.
//!
//! The reader keeps the current line with a few lines before and after it in
//! one buffer. It never reads: the caller hands it the lines, a few at a
//! time, as they come from the stream.

use std::collections::VecDeque;
use vstd::prelude::*;
use vstd::slice::slice_subrange;

verus! {

/// The sum of `sizes`.
pub open spec fn total(sizes: Seq<usize>) -> int
    decreases sizes.len(),
{
    if sizes.len() == 0 {
        0
    } else {
        total(sizes.drop_last()) + sizes.last()
    }
}

/// The number of `sizes` that are not zero.
pub open spec fn filled(sizes: Seq<usize>) -> int
    decreases sizes.len(),
{
    if sizes.len() == 0 {
        0
    } else {
        filled(sizes.drop_last()) + if sizes.last() > 0 {
            1int
        } else {
            0int
        }
    }
}

/// The lines one after the other.
pub open spec fn joined(lines: Seq<Seq<u8>>) -> Seq<u8>
    decreases lines.len(),
{
    if lines.len() == 0 {
        Seq::empty()
    } else {
        joined(lines.drop_last()) + lines.last()
    }
}

/// The lengths of the lines that hold a byte, in order.
pub open spec fn sizes_of(lines: Seq<Seq<u8>>) -> Seq<usize>
    decreases lines.len(),
{
    if lines.len() == 0 {
        Seq::empty()
    } else if lines.last().len() == 0 {
        sizes_of(lines.drop_last())
    } else {
        sizes_of(lines.drop_last()).push(lines.last().len() as usize)
    }
}

/// The byte sequences that `lines` hold.
pub open spec fn line_views(lines: Seq<Vec<u8>>) -> Seq<Seq<u8>> {
    lines.map_values(|l: Vec<u8>| l@)
}

/// The lengths of the lines that hold a byte are at most as many as the
/// lines, sum up to the length of the lines joined, and are none of them
/// zero.
pub proof fn lemma_sizes_of(lines: Seq<Seq<u8>>)
    requires
        forall|i: int| 0 <= i < lines.len() ==> (#[trigger] lines[i]).len() <= usize::MAX,
    ensures
        sizes_of(lines).len() <= lines.len(),
        total(sizes_of(lines)) == joined(lines).len(),
        forall|i: int| 0 <= i < sizes_of(lines).len() ==> #[trigger] sizes_of(lines)[i] > 0,
    decreases lines.len(),
{
    if lines.len() > 0 {
        let head = lines.drop_last();
        assert forall|i: int| 0 <= i < head.len() implies (#[trigger] head[i]).len()
            <= usize::MAX by {
            assert(head[i] == lines[i]);
        }
        lemma_sizes_of(head);
        if lines.last().len() > 0 {
            assert(sizes_of(lines).drop_last() =~= sizes_of(head));
        }
    }
}

/// One more size adds itself to the sum, and to the count where it is not
/// zero.
pub proof fn lemma_total_take(sizes: Seq<usize>, k: int)
    requires
        0 <= k < sizes.len(),
    ensures
        total(sizes.take(k + 1)) == total(sizes.take(k)) + sizes[k],
        filled(sizes.take(k + 1)) == filled(sizes.take(k)) + if sizes[k] > 0 {
            1int
        } else {
            0int
        },
{
    assert(sizes.take(k + 1).drop_last() =~= sizes.take(k));
}

/// The sum of the first sizes is at most the sum of all, and their count
/// of sizes that are not zero at most their number.
pub proof fn lemma_total_bounds(sizes: Seq<usize>, k: int)
    requires
        0 <= k <= sizes.len(),
    ensures
        0 <= total(sizes.take(k)) <= total(sizes),
        0 <= filled(sizes.take(k)) <= k,
    decreases sizes.len() - k,
{
    lemma_total_nonnegative(sizes.take(k));
    if k < sizes.len() {
        lemma_total_take(sizes, k);
        lemma_total_bounds(sizes, k + 1);
    } else {
        assert(sizes.take(k) =~= sizes);
    }
}

/// A sum of sizes is not negative, and at most as many are not zero as
/// there are.
pub proof fn lemma_total_nonnegative(sizes: Seq<usize>)
    ensures
        0 <= total(sizes),
        0 <= filled(sizes) <= sizes.len(),
    decreases sizes.len(),
{
    if sizes.len() > 0 {
        lemma_total_nonnegative(sizes.drop_last());
    }
}

/// The sum and the count over two stretches are those over each, added.
pub proof fn lemma_total_concat(a: Seq<usize>, b: Seq<usize>)
    ensures
        total(a + b) == total(a) + total(b),
        filled(a + b) == filled(a) + filled(b),
    decreases b.len(),
{
    if b.len() == 0 {
        assert(a + b =~= a);
    } else {
        lemma_total_concat(a, b.drop_last());
        assert((a + b).drop_last() =~= a + b.drop_last());
    }
}

/// The sum of a stretch of `sizes` is the difference of the sums up to its
/// ends.
pub proof fn lemma_total_subrange(sizes: Seq<usize>, from: int, to: int)
    requires
        0 <= from <= to <= sizes.len(),
    ensures
        total(sizes.subrange(from, to)) == total(sizes.take(to)) - total(sizes.take(from)),
        filled(sizes.subrange(from, to)) == filled(sizes.take(to)) - filled(sizes.take(from)),
{
    lemma_total_concat(sizes.take(from), sizes.subrange(from, to));
    assert(sizes.take(from) + sizes.subrange(from, to) =~= sizes.take(to));
}

/// Drops the first `n` bytes of the buffer: what follows them stays.
fn drop_front(buffer: &mut Vec<u8>, n: usize)
    requires
        n <= old(buffer)@.len(),
    ensures
        final(buffer)@ == old(buffer)@.skip(n as int),
{
    let rest = buffer.split_off(n);
    *buffer = rest;
    assert(buffer@ =~= old(buffer)@.skip(n as int));
}

/// A sequence starts with `prefix`.
pub open spec fn has_prefix(bytes: Seq<u8>, prefix: Seq<u8>) -> bool {
    prefix.len() <= bytes.len() && bytes.take(prefix.len() as int) == prefix
}

/// The bytes start with a byte order mark of UTF-8, UTF-16 or UTF-32.
pub open spec fn has_byte_order_mark(bytes: Seq<u8>) -> bool {
    ||| has_prefix(bytes, seq![0xEFu8, 0xBBu8, 0xBFu8])
    ||| has_prefix(bytes, seq![0x00u8, 0x00u8, 0xFEu8, 0xFFu8])
    ||| has_prefix(bytes, seq![0xFFu8, 0xFEu8, 0x00u8, 0x00u8])
    ||| has_prefix(bytes, seq![0xFEu8, 0xFFu8])
    ||| has_prefix(bytes, seq![0xFFu8, 0xFEu8])
}

/// The bytes are taken for binary data: they start with no byte order mark,
/// and hold a zero among their first 1024 bytes or start as a PDF or a PNG
/// file does.
pub open spec fn looks_binary(bytes: Seq<u8>) -> bool {
    &&& !has_byte_order_mark(bytes)
    &&& {
        ||| exists|i: int| 0 <= i < bytes.len() && i < 1024 && bytes[i] == 0u8
        ||| has_prefix(bytes, seq![0x25u8, 0x50u8, 0x44u8, 0x46u8])
        ||| has_prefix(bytes, seq![0x89u8, 0x50u8, 0x4Eu8, 0x47u8])
    }
}

/// `content_inspector::inspect`, asked whether it reports binary data: it
/// does so for bytes that start with no byte order mark and hold a zero
/// among their first 1024 bytes or start as a PDF or a PNG file does.
#[verifier::external_body]
fn inspect_is_binary(buffer: &[u8]) -> (binary: bool)
    ensures
        binary == looks_binary(buffer@),
{
    content_inspector::inspect(buffer).is_binary()
}

/// What a buffer seems to hold.
#[derive(Clone, Copy, Debug, PartialEq, Eq, Structural)]
pub enum ContentType {
    Binary,
    Text,
}

/// The window over a stream: the lines around the current one.
pub struct InputReader {
    buffer: Vec<u8>,
    /// The length of each line in the buffer; a padding line has length 0.
    line_sizes: VecDeque<usize>,
    /// The number of the line that comes next.
    line_count: usize,
    /// The position in the stream of the line that comes next.
    offset: usize,
    /// The position in the buffer of the line that comes next.
    rel_offset: usize,
    before: usize,
    after: usize,
    started: bool,
    done: bool,
    /// The bytes that the reader was handed so far.
    stream: Ghost<Seq<u8>>,
}

/// One line of the stream with the lines around it.
#[derive(Debug)]
pub struct InputLine<'a> {
    buffer: &'a [u8],
    line_sizes: &'a VecDeque<usize>,
    before: usize,
    line_count: usize,
    offset: usize,
    rel_offset: usize,
    size: usize,
}

/// A stretch of the window around a span, as a diagnostic shows it.
pub struct SpanContents<'a> {
    /// The bytes of the stretch.
    pub data: &'a [u8],
    /// Where the stretch begins in the stream.
    pub offset: usize,
    /// The number of bytes of the stretch.
    pub len: usize,
    /// The number of the line in which the stretch begins.
    pub line: usize,
    /// The column at which the stretch begins in that line.
    pub column: usize,
    /// The number of the current line, plus the number of lines from it to
    /// the end of the stretch where lines after it were asked for.
    pub line_count: usize,
}

/// Where a stretch of context lies: its ends in the window, and what a
/// diagnostic says of it.
pub struct SpanPlace {
    pub start: int,
    pub end: int,
    pub offset: int,
    pub line: int,
    pub column: int,
    pub line_count: int,
}

/// How many of the lines that end before `end` are taken as context before:
/// at most `limit`, going back as long as the lines hold a byte.
pub open spec fn lines_back(sizes: Seq<usize>, end: int, limit: int) -> int
    decreases limit,
{
    if limit <= 0 || end <= 0 || end > sizes.len() || sizes[end - 1] == 0 {
        0
    } else {
        1 + lines_back(sizes, end - 1, limit - 1)
    }
}

/// How many of the lines from `start` on are taken as context: at most
/// `limit`, going on as long as the lines hold a byte.
pub open spec fn lines_ahead(sizes: Seq<usize>, start: int, limit: int) -> int
    decreases limit,
{
    if limit <= 0 || start < 0 || start >= sizes.len() || sizes[start] == 0 {
        0
    } else {
        1 + lines_ahead(sizes, start + 1, limit - 1)
    }
}

impl InputReader {
    /// The lengths of the buffered lines.
    pub closed spec fn sizes(&self) -> Seq<usize> {
        self.line_sizes@
    }

    /// The buffered bytes.
    pub closed spec fn bytes(&self) -> Seq<u8> {
        self.buffer@
    }

    /// The number of lines kept before the current one.
    pub closed spec fn spec_before(&self) -> usize {
        self.before
    }

    /// The number of lines kept after the current one.
    pub closed spec fn spec_after(&self) -> usize {
        self.after
    }

    /// Whether a line was asked for.
    pub closed spec fn started(&self) -> bool {
        self.started
    }

    /// Whether the end of the stream was reported.
    pub closed spec fn exhausted(&self) -> bool {
        self.done
    }

    /// The number of the line that comes next.
    pub closed spec fn next_number(&self) -> usize {
        self.line_count
    }

    /// The position in the stream of the line that comes next.
    pub closed spec fn next_offset(&self) -> usize {
        self.offset
    }

    /// The bytes that the reader was handed so far, in order: the stream as
    /// far as it was read.
    pub closed spec fn stream(&self) -> Seq<u8> {
        self.stream@
    }

    /// The number of bytes that the reader was handed so far.
    pub closed spec fn fed(&self) -> int {
        self.offset + self.buffer@.len() - self.rel_offset
    }

    /// The reader's invariant.
    pub closed spec fn wf(&self) -> bool {
        &&& self.before + self.after < usize::MAX
        &&& total(self.line_sizes@) == self.buffer@.len()
        &&& self.line_sizes@.len() <= self.before + self.after + 1
        &&& self.done ==> self.started
        &&& !self.started ==> {
            &&& self.line_sizes@.len() == 0
            &&& self.rel_offset == 0
            &&& self.offset == 0
            &&& self.line_count == 0
            &&& self.stream@.len() == 0
        }
        &&& self.started && !self.done ==> {
            &&& self.stream@.len() == self.offset + self.buffer@.len() - self.rel_offset
            &&& self.stream@.skip(self.stream@.len() - self.buffer@.len()) == self.buffer@
            &&& self.line_sizes@.len() > self.before
            &&& self.rel_offset == total(self.line_sizes@.take(self.before + 1))
            &&& self.rel_offset <= self.offset
            &&& self.line_count <= self.offset
            &&& filled(self.line_sizes@.take(self.before + 1)) <= self.line_count
            &&& self.offset + self.buffer@.len() - self.rel_offset <= usize::MAX
            &&& forall|i: int|
                self.before <= i < self.line_sizes@.len() ==> #[trigger] self.line_sizes@[i] > 0
        }
    }

    /// How many lines the next call of `next_line` takes in: those after the
    /// current line and the line itself at first, one line later, none once
    /// the stream has ended.
    pub open spec fn spec_wanted(&self) -> int {
        if self.exhausted() {
            0
        } else if self.started() {
            1
        } else {
            self.spec_after() + 1
        }
    }

    /// A reader without lines, for a window of `before` lines before the
    /// current one and `after` lines after it.
    pub fn new(before: usize, after: usize) -> (reader: InputReader)
        requires
            before + after < usize::MAX,
        ensures
            reader.wf(),
            !reader.started(),
            !reader.exhausted(),
            reader.spec_before() == before,
            reader.spec_after() == after,
            reader.sizes() == Seq::<usize>::empty(),
            reader.bytes() == Seq::<u8>::empty(),
            reader.next_number() == 0,
            reader.next_offset() == 0,
            reader.fed() == 0,
            reader.stream() == Seq::<u8>::empty(),
    {
        InputReader {
            buffer: Vec::new(),
            line_sizes: VecDeque::new(),
            line_count: 0,
            offset: 0,
            rel_offset: 0,
            before,
            after,
            started: false,
            done: false,
            stream: Ghost(Seq::empty()),
        }
    }

    /// How many lines the next call of `next_line` takes in.
    pub fn wanted(&self) -> (n: usize)
        requires
            self.wf(),
        ensures
            n == self.spec_wanted(),
    {
        if self.done {
            0
        } else if self.started {
            1
        } else {
            self.after + 1
        }
    }

    /// How many more bytes the reader can be handed.
    pub fn room(&self) -> (n: usize)
        requires
            self.wf(),
            !self.exhausted(),
        ensures
            n == usize::MAX - self.fed(),
    {
        if !self.started {
            usize::MAX
        } else {
            proof {
                lemma_total_bounds(self.line_sizes@, self.before + 1);
            }
            usize::MAX - self.offset - (self.buffer.len() - self.rel_offset)
        }
    }

    /// Moves the window on by one line and hands out the line that is now
    /// the current one, with the lines around it.
    ///
    /// `fresh` holds the lines that were read from the stream since the last
    /// call, each with its line break; a line without bytes stands for the
    /// end of the stream and is passed over. The first call pads the window
    /// with empty lines before the first line. A later call drops the oldest
    /// line of the window. Once no line is left at the place of the current
    /// line, the stream has ended and every call says so.
    pub fn next_line(&mut self, fresh: &Vec<Vec<u8>>) -> (line: Option<InputLine<'_>>)
        requires
            old(self).wf(),
            fresh.len() <= old(self).spec_wanted(),
            !old(self).exhausted() ==> old(self).fed() + joined(line_views(fresh@)).len()
                <= usize::MAX,
        ensures
            final(self).wf(),
            final(self).spec_before() == old(self).spec_before(),
            final(self).spec_after() == old(self).spec_after(),
            final(self).sizes().len() <= final(self).spec_before() + final(self).spec_after() + 1,
            old(self).exhausted() ==> {
                &&& line is None
                &&& final(self).exhausted()
                &&& final(self).sizes() == old(self).sizes()
                &&& final(self).bytes() == old(self).bytes()
                &&& final(self).stream() == old(self).stream()
            },
            !old(self).exhausted() ==> {
                let before = old(self).spec_before();
                let kept = if old(self).started() {
                    old(self).sizes().drop_first()
                } else {
                    Seq::new(before as nat, |i: int| 0usize)
                };
                let kept_bytes = if old(self).started() {
                    old(self).bytes().skip(old(self).sizes()[0] as int)
                } else {
                    old(self).bytes()
                };
                &&& final(self).started()
                &&& final(self).stream() == old(self).stream() + joined(line_views(fresh@))
                &&& final(self).sizes() == kept + sizes_of(line_views(fresh@))
                &&& final(self).bytes() == kept_bytes + joined(line_views(fresh@))
                &&& final(self).fed() == old(self).fed() + joined(line_views(fresh@)).len()
                    || final(self).exhausted()
                &&& match line {
                    Some(l) => {
                        &&& l.wf()
                        &&& l.sizes() == final(self).sizes()
                        &&& l.bytes() == final(self).bytes()
                        &&& l.spec_before() == before
                        &&& l.number() == old(self).next_number()
                        &&& l.position() == old(self).next_offset()
                        &&& l.position() + l.spec_size() <= final(self).stream().len()
                        &&& l.spec_contents() == final(self).stream().subrange(
                            l.position() as int,
                            l.position() + l.spec_size(),
                        )
                        &&& l.lies_in(final(self).stream())
                        &&& !final(self).exhausted()
                        &&& final(self).next_number() == old(self).next_number() + 1
                        &&& final(self).next_offset() == old(self).next_offset() + l.spec_size()
                    },
                    None => {
                        &&& final(self).sizes().len() <= before
                        &&& final(self).exhausted()
                        &&& final(self).next_number() == usize::MAX
                    },
                }
            },
    {
        if self.done {
            return None;
        }
        self.make_room();
        self.take_in(fresh);
        proof {
            let now = self.line_sizes@;
            if now.len() > self.before {
                lemma_total_take(now, self.before as int);
                lemma_total_bounds(now, self.before + 1);
            }
        }
        if self.line_sizes.len() > self.before {
            let size = self.line_sizes[self.before];
            let number = self.line_count;
            let position = self.offset;
            let rel = self.rel_offset;
            self.line_count = number + 1;
            self.offset = position + size;
            self.rel_offset = rel + size;
            Some(
                InputLine {
                    buffer: self.buffer.as_slice(),
                    line_sizes: &self.line_sizes,
                    before: self.before,
                    line_count: number,
                    offset: position,
                    rel_offset: rel,
                    size,
                },
            )
        } else {
            self.done = true;
            self.line_count = usize::MAX;
            None
        }
    }

    /// The state between two steps of `next_line`: the oldest line is gone,
    /// and the line that comes next stands behind `before` lines if it is
    /// there.
    closed spec fn ready(&self) -> bool {
        &&& self.before + self.after < usize::MAX
        &&& self.started
        &&& !self.done
        &&& total(self.line_sizes@) == self.buffer@.len()
        &&& self.line_sizes@.len() >= self.before
        &&& self.rel_offset == total(self.line_sizes@.take(self.before as int))
        &&& self.rel_offset <= self.offset
        &&& self.line_count <= self.offset
        &&& filled(self.line_sizes@.take(self.before as int)) <= self.line_count
        &&& self.stream@.len() == self.offset + self.buffer@.len() - self.rel_offset
        &&& self.stream@.skip(self.stream@.len() - self.buffer@.len()) == self.buffer@
        &&& forall|i: int|
            self.before <= i < self.line_sizes@.len() ==> #[trigger] self.line_sizes@[i] > 0
    }

    /// Drops the oldest line, or pads the window before the first line.
    fn make_room(&mut self)
        requires
            old(self).wf(),
            !old(self).done,
        ensures
            final(self).ready(),
            final(self).before == old(self).before,
            final(self).after == old(self).after,
            final(self).offset == old(self).offset,
            final(self).line_count == old(self).line_count,
            final(self).stream@ == old(self).stream@,
            final(self).line_sizes@ == if old(self).started {
                old(self).line_sizes@.drop_first()
            } else {
                Seq::new(old(self).before as nat, |i: int| 0usize)
            },
            final(self).buffer@ == if old(self).started {
                old(self).buffer@.skip(old(self).line_sizes@[0] as int)
            } else {
                old(self).buffer@
            },
            final(self).line_sizes@.len() + old(self).spec_wanted() <= final(self).before + final(self).after + 1,
            final(self).offset + final(self).buffer@.len() - final(self).rel_offset == old(self).fed(),
            old(self).fed() <= usize::MAX,
    {
        let ghost old_sizes = self.line_sizes@;
        if self.started {
            proof {
                let b = self.before as int;
                lemma_total_bounds(old_sizes, b + 1);
                lemma_total_subrange(old_sizes, 0, 1);
                lemma_total_subrange(old_sizes, 1, b + 1);
                lemma_total_subrange(old_sizes, 1, old_sizes.len() as int);
                assert(old_sizes.take(old_sizes.len() as int) =~= old_sizes);
                assert(old_sizes.take(0) =~= Seq::<usize>::empty());
                assert(old_sizes.subrange(0, 1) =~= seq![old_sizes[0]]);
                assert(seq![old_sizes[0]].drop_last() =~= Seq::<usize>::empty());
                lemma_total_bounds(old_sizes, 1);
                lemma_total_take(old_sizes, 0);
                lemma_total_nonnegative(old_sizes.subrange(1, b + 1));
                assert(old_sizes[0] <= total(old_sizes.take(b + 1)));
            }
            match self.line_sizes.pop_front() {
                Some(n) => {
                    drop_front(&mut self.buffer, n);
                    self.rel_offset = self.rel_offset - n;
                },
                None => {},
            }
            proof {
                let b = self.before as int;
                let now = self.line_sizes@;
                assert(now =~= old_sizes.drop_first());
                assert(now.take(b) =~= old_sizes.subrange(1, b + 1));
                assert(now =~= old_sizes.subrange(1, old_sizes.len() as int));
                assert forall|i: int| b <= i < now.len() implies #[trigger] now[i] > 0 by {
                    assert(now[i] == old_sizes[i + 1]);
                }
                assert(self.stream@.skip(self.stream@.len() - self.buffer@.len()) =~= self.buffer@);
            }
        } else {
            let mut i: usize = 0;
            while i < self.before
                invariant
                    i <= self.before,
                    self.line_sizes@ == Seq::new(i as nat, |j: int| 0usize),
                    total(self.line_sizes@) == 0,
                    filled(self.line_sizes@) == 0,
                    self.before == old(self).before,
                    self.after == old(self).after,
                    self.buffer@ == old(self).buffer@,
                    self.offset == 0,
                    self.rel_offset == 0,
                    self.line_count == 0,
                    self.stream@ == old(self).stream@,
                    !self.done,
                decreases self.before - i,
            {
                let ghost was = self.line_sizes@;
                self.line_sizes.push_back(0);
                proof {
                    assert(self.line_sizes@.drop_last() =~= was);
                    assert(self.line_sizes@ =~= Seq::new((i + 1) as nat, |j: int| 0usize));
                }
                i += 1;
            }
            self.started = true;
            proof {
                assert(self.line_sizes@.take(self.before as int) =~= self.line_sizes@);
                assert(self.buffer@.len() == 0);
                assert(self.stream@.skip(0) =~= self.buffer@);
            }
        }
    }

    /// Appends the lines of `fresh` that hold a byte.
    fn take_in(&mut self, fresh: &Vec<Vec<u8>>)
        requires
            old(self).ready(),
        ensures
            final(self).ready(),
            final(self).before == old(self).before,
            final(self).after == old(self).after,
            final(self).offset == old(self).offset,
            final(self).line_count == old(self).line_count,
            final(self).rel_offset == old(self).rel_offset,
            final(self).stream@ == old(self).stream@ + joined(line_views(fresh@)),
            final(self).line_sizes@ == old(self).line_sizes@ + sizes_of(line_views(fresh@)),
            final(self).buffer@ == old(self).buffer@ + joined(line_views(fresh@)),
            sizes_of(line_views(fresh@)).len() <= fresh.len(),
    {
        let ghost kept = self.line_sizes@;
        let ghost kept_bytes = self.buffer@;
        let ghost kept_stream = self.stream@;
        let ghost views = line_views(fresh@);
        assert(kept_stream + joined(views.take(0)) =~= kept_stream);
        assert(kept + sizes_of(views.take(0)) =~= kept);
        assert(kept_bytes + joined(views.take(0)) =~= kept_bytes);
        let mut k: usize = 0;
        while k < fresh.len()
            invariant
                k <= fresh.len(),
                views == line_views(fresh@),
                self.line_sizes@ == kept + sizes_of(views.take(k as int)),
                self.buffer@ == kept_bytes + joined(views.take(k as int)),
                self.stream@ == kept_stream + joined(views.take(k as int)),
                self.before == old(self).before,
                self.after == old(self).after,
                self.offset == old(self).offset,
                self.line_count == old(self).line_count,
                self.rel_offset == old(self).rel_offset,
                self.started,
                !self.done,
            decreases fresh.len() - k,
        {
            proof {
                assert(views.take(k + 1).drop_last() =~= views.take(k as int));
                assert(views.take(k + 1).last() == fresh@[k as int]@);
            }
            let size = fresh[k].len();
            if size > 0 {
                let ghost was = self.buffer@;
                self.buffer.extend_from_slice(fresh[k].as_slice());
                self.line_sizes.push_back(size);
                self.stream = Ghost(self.stream@ + fresh@[k as int]@);
                proof {
                    assert(self.stream@ =~= kept_stream + joined(views.take(k + 1)));
                    assert(self.buffer@ =~= was + fresh@[k as int]@);
                    assert(self.line_sizes@ =~= kept + sizes_of(views.take(k + 1)));
                    assert(self.buffer@ =~= kept_bytes + joined(views.take(k + 1)));
                }
            }
            k += 1;
        }
        proof {
            assert(views.take(fresh.len() as int) =~= views);
            assert forall|i: int| 0 <= i < views.len() implies (#[trigger] views[i]).len()
                <= usize::MAX by {
                assert(views[i] == fresh@[i]@);
                assert(fresh@[i].len() <= usize::MAX);
            }
            lemma_sizes_of(views);
            lemma_total_concat(kept, sizes_of(views));
            let now = self.line_sizes@;
            let b = self.before as int;
            assert(now.take(b) =~= kept.take(b));
            assert forall|i: int| b <= i < now.len() implies #[trigger] now[i] > 0 by {
                if i >= kept.len() {
                    assert(now[i] == sizes_of(views)[i - kept.len()]);
                } else {
                    assert(now[i] == kept[i]);
                }
            }
            assert(self.stream@.skip(self.stream@.len() - self.buffer@.len()) =~= self.buffer@) by {
                let cut = kept_stream.len() - kept_bytes.len();
                assert(kept_stream.skip(cut) == kept_bytes);
                assert((kept_stream + joined(views)).skip(cut) =~= kept_stream.skip(cut) + joined(
                    views,
                ));
            }
        }
    }
}

impl<'a> InputLine<'a> {
    /// The lengths of the lines of the window.
    pub closed spec fn sizes(&self) -> Seq<usize> {
        self.line_sizes@
    }

    /// The bytes of the window.
    pub closed spec fn bytes(&self) -> Seq<u8> {
        self.buffer@
    }

    /// The number of lines that the window keeps before this one.
    pub closed spec fn spec_before(&self) -> usize {
        self.before
    }

    /// The number of the line in the stream, from 0.
    pub closed spec fn number(&self) -> usize {
        self.line_count
    }

    /// The position of the line in the stream.
    pub closed spec fn position(&self) -> usize {
        self.offset
    }

    /// The position of the line in the window.
    pub closed spec fn spec_start(&self) -> usize {
        self.rel_offset
    }

    /// The number of bytes of the line.
    pub closed spec fn spec_size(&self) -> usize {
        self.size
    }

    /// The line's invariant.
    pub closed spec fn wf(&self) -> bool {
        &&& self.line_sizes@.len() > self.before
        &&& total(self.line_sizes@) == self.buffer@.len()
        &&& self.rel_offset == total(self.line_sizes@.take(self.before as int))
        &&& self.size == self.line_sizes@[self.before as int]
        &&& self.rel_offset <= self.offset
        &&& self.line_count <= self.offset
        &&& filled(self.line_sizes@.take(self.before as int)) <= self.line_count
        &&& self.offset + self.buffer@.len() - self.rel_offset <= usize::MAX
        &&& forall|i: int|
            self.before <= i < self.line_sizes@.len() ==> #[trigger] self.line_sizes@[i] > 0
    }

    /// The window of the line is the end of `stream`, and the line lies in
    /// the stream where its position says.
    pub open spec fn lies_in(&self, stream: Seq<u8>) -> bool {
        &&& self.spec_start() <= self.position()
        &&& self.position() - self.spec_start() + self.bytes().len() == stream.len()
        &&& self.bytes() == stream.skip(self.position() - self.spec_start())
    }

    /// The bytes of the line: those of the window from the end of the lines
    /// before it to its own end.
    pub open spec fn spec_contents(&self) -> Seq<u8> {
        self.bytes().subrange(
            total(self.sizes().take(self.spec_before() as int)),
            total(self.sizes().take(self.spec_before() + 1)),
        )
    }

    /// Where the line stands in the window and how long it is.
    pub proof fn lemma_place(&self)
        requires
            self.wf(),
        ensures
            self.sizes().len() > self.spec_before(),
            self.spec_start() == total(self.sizes().take(self.spec_before() as int)),
            self.spec_size() == self.sizes()[self.spec_before() as int],
            self.spec_start() + self.spec_size() == total(
                self.sizes().take(self.spec_before() + 1),
            ),
            self.spec_start() + self.spec_size() <= self.bytes().len(),
            self.position() + self.spec_size() <= usize::MAX,
            self.spec_size() > 0,
    {
        lemma_total_take(self.line_sizes@, self.before as int);
        lemma_total_bounds(self.line_sizes@, self.before + 1);
    }

    /// The bytes of the line, with its line break.
    pub fn contents(&self) -> (bytes: &'a [u8])
        requires
            self.wf(),
        ensures
            bytes@ == self.spec_contents(),
    {
        proof {
            self.lemma_place();
        }
        slice_subrange(self.buffer, self.rel_offset, self.rel_offset + self.size)
    }

    /// The position in the stream of the byte at `i` in the line.
    pub fn offset_of(&self, i: usize) -> (at: usize)
        requires
            self.position() + i <= usize::MAX,
        ensures
            at == self.position() + i,
    {
        self.offset + i
    }

    /// The position in the stream at which the window ends.
    pub fn window_end(&self) -> (at: usize)
        requires
            self.wf(),
        ensures
            at == self.position() - self.spec_start() + self.bytes().len(),
            self.position() + self.spec_size() <= at,
    {
        proof {
            self.lemma_place();
        }
        self.offset + (self.buffer.len() - self.rel_offset)
    }

    /// The number of the line in the stream, from 0.
    pub fn line_number(&self) -> (n: usize)
        ensures
            n == self.number(),
    {
        self.line_count
    }

    /// The number of bytes of the line.
    pub fn len(&self) -> (n: usize)
        ensures
            n == self.spec_size(),
    {
        self.size
    }

    /// The lines before this one that are taken as context when `limit`
    /// are asked for: their number and the number of their bytes.
    pub open spec fn spec_context_back(&self, limit: usize) -> (int, int) {
        let b = self.spec_before() as int;
        let lines = lines_back(self.sizes(), b, limit as int);
        (lines, total(self.sizes().subrange(b - lines, b)))
    }

    /// The lines from this one on that are taken as context when `limit`
    /// lines after it are asked for: their number and the number of their
    /// bytes.
    pub open spec fn spec_context_ahead(&self, limit: usize) -> (int, int) {
        let b = self.spec_before() as int;
        let lines = lines_ahead(self.sizes(), b, limit + 1);
        (lines, total(self.sizes().subrange(b, b + lines)))
    }

    /// Where the context of a span of this line lies.
    ///
    /// Without lines before, the stretch begins with the span; else it
    /// begins with the earliest line of context. Without lines after, it
    /// ends with the span; else it ends with the last line of context, or
    /// with the span where that ends later.
    pub open spec fn spec_place(
        &self,
        span_offset: usize,
        span_len: usize,
        lines_before: usize,
        lines_after: usize,
    ) -> SpanPlace {
        let back = self.spec_context_back(lines_before);
        let ahead = self.spec_context_ahead(lines_after);
        let inside = span_offset - self.position();
        SpanPlace {
            start: if lines_before == 0 {
                self.spec_start() + inside
            } else {
                self.spec_start() - back.1
            },
            end: if lines_after == 0 || ahead.1 < inside + span_len {
                self.spec_start() + inside + span_len
            } else {
                self.spec_start() + ahead.1
            },
            offset: if lines_before == 0 {
                span_offset as int
            } else {
                self.position() - back.1
            },
            line: if lines_before == 0 {
                self.number() as int
            } else {
                self.number() - back.0
            },
            column: if lines_before == 0 {
                inside
            } else {
                0
            },
            line_count: if lines_after == 0 {
                self.number() as int
            } else {
                self.number() + ahead.0
            },
        }
    }

    /// Counts the lines of context before this one, and their bytes.
    pub fn context_back(&self, limit: usize) -> (found: (usize, usize))
        requires
            self.wf(),
        ensures
            (found.0 as int, found.1 as int) == self.spec_context_back(limit),
            found.0 <= self.number(),
            found.1 <= self.spec_start(),
            found.1 <= self.position(),
    {
        let ghost sizes = self.line_sizes@;
        let ghost b = self.before as int;
        let mut lines: usize = 0;
        let mut bytes: usize = 0;
        proof {
            lemma_total_bounds(sizes, b);
        }
        while lines < limit && lines < self.before && self.line_sizes[self.before - 1 - lines] > 0
            invariant
                self.wf(),
                sizes == self.line_sizes@,
                b == self.before,
                lines <= self.before,
                lines <= limit,
                lines_back(sizes, b, limit as int) == lines + lines_back(
                    sizes,
                    b - lines,
                    limit - lines,
                ),
                bytes == total(sizes.take(b)) - total(sizes.take(b - lines)),
                lines == filled(sizes.take(b)) - filled(sizes.take(b - lines)),
                0 <= total(sizes.take(b)) <= usize::MAX,
            decreases self.before - lines,
        {
            proof {
                lemma_total_take(sizes, b - lines - 1);
                lemma_total_bounds(sizes, b - lines - 1);
            }
            bytes = bytes + self.line_sizes[self.before - 1 - lines];
            lines = lines + 1;
        }
        proof {
            lemma_total_subrange(sizes, b - lines, b);
            lemma_total_bounds(sizes, b - lines);
        }
        (lines, bytes)
    }

    /// Counts the lines of context from this one on, and their bytes.
    pub fn context_ahead(&self, limit: usize) -> (found: (usize, usize))
        requires
            self.wf(),
        ensures
            (found.0 as int, found.1 as int) == self.spec_context_ahead(limit),
            1 <= found.0 <= found.1,
            self.spec_size() <= found.1,
            self.spec_start() + found.1 <= self.bytes().len(),
            self.number() + found.0 <= usize::MAX,
    {
        let ghost sizes = self.line_sizes@;
        let ghost b = self.before as int;
        let mut lines: usize = 0;
        let mut bytes: usize = 0;
        proof {
            lemma_total_bounds(sizes, b);
        }
        while lines <= limit && lines < self.line_sizes.len() - self.before && self.line_sizes[
            self.before + lines
        ] > 0
            invariant
                self.wf(),
                sizes == self.line_sizes@,
                b == self.before,
                b + lines <= sizes.len(),
                lines <= limit + 1,
                lines_ahead(sizes, b, limit + 1) == lines + lines_ahead(
                    sizes,
                    b + lines,
                    limit + 1 - lines,
                ),
                bytes == total(sizes.take(b + lines)) - total(sizes.take(b)),
                lines <= bytes,
                lines >= 1 ==> bytes >= sizes[b],
                0 <= total(sizes.take(b)),
            decreases sizes.len() - lines,
        {
            proof {
                lemma_total_take(sizes, b + lines);
                lemma_total_bounds(sizes, b + lines + 1);
                lemma_total_bounds(sizes, b + lines);
                if lines == 0 {
                    assert(bytes == 0);
                }
            }
            bytes = bytes + self.line_sizes[self.before + lines];
            lines = lines + 1;
        }
        proof {
            lemma_total_subrange(sizes, b, b + lines);
            lemma_total_bounds(sizes, b + lines);
        }
        (lines, bytes)
    }

    /// The context of the span of `span_len` bytes at `span_offset` in the
    /// stream: the span with up to `lines_before` lines before this line and
    /// up to `lines_after` lines after it, as far as the window holds them.
    /// The span begins in this line and ends in the window; the stretch
    /// covers it.
    pub fn read_span(
        &self,
        span_offset: usize,
        span_len: usize,
        lines_before: usize,
        lines_after: usize,
    ) -> (contents: SpanContents<'a>)
        requires
            self.wf(),
            self.position() <= span_offset <= self.position() + self.spec_size(),
            span_offset + span_len <= self.position() - self.spec_start() + self.bytes().len(),
        ensures
            ({
                let place = self.spec_place(span_offset, span_len, lines_before, lines_after);
                let inside = span_offset - self.position();
                &&& 0 <= place.start <= place.end <= self.bytes().len()
                &&& place.start <= self.spec_start() + inside
                &&& self.spec_start() + inside + span_len <= place.end
                &&& contents.data@ == self.bytes().subrange(place.start, place.end)
                &&& contents.offset + self.spec_start() == self.position() + place.start
                &&& contents.offset <= span_offset
                &&& span_offset + span_len <= contents.offset + contents.len
                &&& contents.offset == place.offset
                &&& contents.len == place.end - place.start
                &&& contents.line == place.line
                &&& contents.column == place.column
                &&& contents.line_count == place.line_count
            }),
    {
        proof {
            self.lemma_place();
        }
        let inside = span_offset - self.offset;
        let start;
        let offset;
        let line;
        let column;
        if lines_before == 0 {
            offset = span_offset;
            column = inside;
            start = self.rel_offset + inside;
            line = self.line_count;
        } else {
            let (lines, bytes) = self.context_back(lines_before);
            offset = self.offset - bytes;
            column = 0;
            start = self.rel_offset - bytes;
            line = self.line_count - lines;
        }
        let span_end = self.rel_offset + inside + span_len;
        let end;
        let line_count;
        if lines_after == 0 {
            end = span_end;
            line_count = self.line_count;
        } else {
            let (lines, bytes) = self.context_ahead(lines_after);
            end = if bytes < inside + span_len {
                span_end
            } else {
                self.rel_offset + bytes
            };
            line_count = self.line_count + lines;
        }
        SpanContents {
            data: slice_subrange(self.buffer, start, end),
            offset,
            len: end - start,
            line,
            column,
            line_count,
        }
    }

    /// What the window seems to hold.
    pub fn content_type(&self) -> (ty: ContentType)
        ensures
            ty == if looks_binary(self.bytes()) {
                ContentType::Binary
            } else {
                ContentType::Text
            },
    {
        if inspect_is_binary(self.buffer) {
            ContentType::Binary
        } else {
            ContentType::Text
        }
    }
}

/// Where the context of a span lies in the stream: the stretch that
/// `read_span` hands out for a line of the stream is the bytes of the
/// stream from the offset that it gives, and it covers the span.
pub proof fn law_context_lies_in_stream(
    line: &InputLine,
    stream: Seq<u8>,
    span_offset: usize,
    span_len: usize,
    lines_before: usize,
    lines_after: usize,
)
    requires
        line.lies_in(stream),
        ({
            let place = line.spec_place(span_offset, span_len, lines_before, lines_after);
            &&& 0 <= place.start <= place.end <= line.bytes().len()
            &&& place.offset + line.spec_start() == line.position() + place.start
        }),
    ensures
        ({
            let place = line.spec_place(span_offset, span_len, lines_before, lines_after);
            &&& 0 <= place.offset
            &&& place.offset + (place.end - place.start) <= stream.len()
            &&& line.bytes().subrange(place.start, place.end) == stream.subrange(
                place.offset,
                place.offset + (place.end - place.start),
            )
        }),
{
    let place = line.spec_place(span_offset, span_len, lines_before, lines_after);
    let cut = line.position() - line.spec_start();
    assert(line.bytes().subrange(place.start, place.end) =~= stream.subrange(
        place.offset,
        place.offset + (place.end - place.start),
    ));
}

} // verus!
