//! Helpers on strings, characters and numbers that the parsers share.

use vstd::prelude::*;
use vstd::string::StringSliceAdditionalSpecFns;
use vstd::utf8::{char_is_scalar, decode_utf8, encode_scalar, encode_utf8, encode_utf8_decode_utf8,
    valid_utf8};

verus! {

/// `String::push`: the character goes to the end of the string.
pub assume_specification[ String::push ](s: &mut String, c: char)
    ensures
        final(s)@ == old(s)@.push(c),
;

/// The characters of `s`, in order.
pub fn chars_of(s: &str) -> (out: Vec<char>)
    ensures
        out@ == s@,
{
    let mut out: Vec<char> = Vec::new();
    let mut it = s.chars();
    for c in iter: it
        invariant
            out@ == iter.seq().take(iter.index()),
    {
        out.push(c);
    }
    out
}

/// The string made of `chars[from..to]`.
pub fn string_of(chars: &Vec<char>, from: usize, to: usize) -> (out: String)
    requires
        from <= to <= chars.len(),
    ensures
        out@ == chars@.subrange(from as int, to as int),
{
    let mut out = String::new();
    let mut i: usize = from;
    while i < to
        invariant
            from <= i <= to <= chars.len(),
            out@ == chars@.subrange(from as int, i as int),
        decreases to - i,
    {
        out.push(chars[i]);
        i += 1;
    }
    out
}

/// Whether `chars[from..to]` spells `word`.
pub fn spells(chars: &Vec<char>, from: usize, to: usize, word: &str) -> (same: bool)
    requires
        from <= to <= chars.len(),
    ensures
        same == (chars@.subrange(from as int, to as int) == word@),
{
    let w = chars_of(word);
    if w.len() != to - from {
        return false;
    }
    let mut i: usize = 0;
    while i < w.len()
        invariant
            from <= to <= chars.len(),
            w.len() == to - from,
            i <= w.len(),
            w@ == word@,
            forall|j: int| 0 <= j < i ==> chars@[from + j] == w@[j],
        decreases w.len() - i,
    {
        if chars[from + i] != w[i] {
            assert(chars@.subrange(from as int, to as int)[i as int] != word@[i as int]);
            return false;
        }
        i += 1;
    }
    assert(chars@.subrange(from as int, to as int) =~= word@);
    true
}

/// The first position of `c` in `s`, or the length of `s` where it has none.
pub open spec fn first_index_of<T>(s: Seq<T>, c: T) -> int
    decreases s.len(),
{
    if s.len() == 0 {
        0
    } else {
        let before = first_index_of(s.drop_last(), c);
        if before < s.len() - 1 {
            before
        } else if s.last() == c {
            s.len() - 1
        } else {
            s.len() as int
        }
    }
}

/// The last position of `c` in `s`, or -1 where it has none.
pub open spec fn last_index_of<T>(s: Seq<T>, c: T) -> int
    decreases s.len(),
{
    if s.len() == 0 {
        -1
    } else if s.last() == c {
        s.len() - 1
    } else {
        last_index_of(s.drop_last(), c)
    }
}

/// The first position of `c` lies in the sequence or at its end, holds `c`
/// where it lies in it, and nothing before it does.
pub proof fn lemma_first_index_of<T>(s: Seq<T>, c: T)
    ensures
        0 <= first_index_of(s, c) <= s.len(),
        first_index_of(s, c) < s.len() ==> s[first_index_of(s, c)] == c,
        forall|j: int| 0 <= j < first_index_of(s, c) ==> s[j] != c,
    decreases s.len(),
{
    if s.len() > 0 {
        let t = s.drop_last();
        lemma_first_index_of(t, c);
        assert forall|j: int| 0 <= j < first_index_of(s, c) implies s[j] != c by {
            if j < t.len() {
                assert(t[j] == s[j]);
            }
        }
    }
}

/// The last position of `c` lies in the sequence or is -1, holds `c` where
/// it lies in it, and nothing behind it does.
pub proof fn lemma_last_index_of<T>(s: Seq<T>, c: T)
    ensures
        -1 <= last_index_of(s, c) < s.len(),
        last_index_of(s, c) >= 0 ==> s[last_index_of(s, c)] == c,
        forall|j: int| last_index_of(s, c) < j < s.len() ==> s[j] != c,
    decreases s.len(),
{
    if s.len() > 0 {
        let t = s.drop_last();
        lemma_last_index_of(t, c);
        assert forall|j: int| last_index_of(s, c) < j < s.len() implies s[j] != c by {
            if j < t.len() {
                assert(t[j] == s[j]);
            }
        }
    }
}

/// The first position of `c` in `chars[from..to]`, counted from `from`,
/// or `to - from` where it has none.
pub fn find_first(chars: &Vec<char>, from: usize, to: usize, c: char) -> (at: usize)
    requires
        from <= to <= chars.len(),
    ensures
        at == first_index_of(chars@.subrange(from as int, to as int), c),
        at <= to - from,
{
    let ghost s = chars@.subrange(from as int, to as int);
    let mut i: usize = from;
    while i < to
        invariant
            from <= i <= to <= chars.len(),
            s == chars@.subrange(from as int, to as int),
            first_index_of(s.take(i - from), c) == i - from,
        decreases to - i,
    {
        proof {
            assert(s.take(i - from + 1).drop_last() =~= s.take(i - from));
            assert(s.take(i - from + 1).last() == chars@[i as int]);
        }
        if chars[i] == c {
            proof {
                lemma_first_index_prefix(s, (i - from + 1) as int, c);
            }
            return i - from;
        }
        i += 1;
    }
    assert(s.take(to - from) =~= s);
    to - from
}

/// A character found in a prefix is the first one of the whole.
pub proof fn lemma_first_index_prefix<T>(s: Seq<T>, k: int, c: T)
    requires
        0 <= k <= s.len(),
        first_index_of(s.take(k), c) < k,
    ensures
        first_index_of(s, c) == first_index_of(s.take(k), c),
    decreases s.len() - k,
{
    if k < s.len() {
        assert(s.take(k + 1).drop_last() =~= s.take(k));
        lemma_first_index_prefix(s, k + 1, c);
    } else {
        assert(s.take(k) =~= s);
    }
}

/// The last position of `c` in `chars[from..to]`, counted from `from`.
pub fn find_last(chars: &Vec<char>, from: usize, to: usize, c: char) -> (at: Option<usize>)
    requires
        from <= to <= chars.len(),
    ensures
        match at {
            Some(i) => i == last_index_of(chars@.subrange(from as int, to as int), c) && i < to
                - from,
            None => last_index_of(chars@.subrange(from as int, to as int), c) == -1,
        },
{
    let ghost s = chars@.subrange(from as int, to as int);
    let mut found: Option<usize> = None;
    let mut i: usize = from;
    while i < to
        invariant
            from <= i <= to <= chars.len(),
            s == chars@.subrange(from as int, to as int),
            match found {
                Some(k) => k == last_index_of(s.take(i - from), c) && k < i - from,
                None => last_index_of(s.take(i - from), c) == -1,
            },
        decreases to - i,
    {
        proof {
            assert(s.take(i - from + 1).drop_last() =~= s.take(i - from));
            assert(s.take(i - from + 1).last() == chars@[i as int]);
        }
        if chars[i] == c {
            found = Some(i - from);
        }
        i += 1;
    }
    assert(s.take(to - from) =~= s);
    found
}

/// The codepoint of `c`.
pub fn code_of(c: char) -> (code: u32)
    ensures
        code == c as u32,
{
    c as u32
}

/// Whether `chars` begins with `prefix`.
pub fn starts_with(chars: &Vec<char>, prefix: &Vec<char>) -> (yes: bool)
    ensures
        yes == (prefix@.len() <= chars@.len() && chars@.take(prefix@.len() as int) == prefix@),
{
    if prefix.len() > chars.len() {
        return false;
    }
    let mut i: usize = 0;
    while i < prefix.len()
        invariant
            i <= prefix.len() <= chars.len(),
            forall|j: int| 0 <= j < i ==> chars@[j] == prefix@[j],
        decreases prefix.len() - i,
    {
        if chars[i] != prefix[i] {
            assert(chars@.take(prefix@.len() as int)[i as int] != prefix@[i as int]);
            return false;
        }
        i += 1;
    }
    assert(chars@.take(prefix@.len() as int) =~= prefix@);
    true
}

/// The white space of ASCII: space, tab, line feed, form feed and carriage
/// return.
pub open spec fn is_ascii_space(c: char) -> bool {
    c == ' ' || c == '\t' || c == '\n' || c == '\x0C' || c == '\r'
}

/// The number of characters of `s` before the first that meets `stop`
/// (white space where `space` is set, anything else where it is not).
pub open spec fn run_length(s: Seq<char>, space: bool) -> int
    decreases s.len(),
{
    if s.len() == 0 || is_ascii_space(s[0]) != space {
        0
    } else {
        1 + run_length(s.drop_first(), space)
    }
}

/// Where the first word of `s` begins: behind its leading white space.
pub open spec fn word_start(s: Seq<char>) -> int {
    run_length(s, true)
}

/// Where the first word of `s` ends: at the first white space behind its
/// beginning, or at the end of `s`.
pub open spec fn word_end(s: Seq<char>) -> int {
    word_start(s) + run_length(s.skip(word_start(s)), false)
}

/// The first word of `s`: its first run of characters that are no white
/// space, which is empty where `s` holds no such character.
pub open spec fn first_word(s: Seq<char>) -> Seq<char> {
    s.subrange(word_start(s), word_end(s))
}

/// Whether `c` is white space of ASCII.
fn is_space(c: char) -> (yes: bool)
    ensures
        yes == is_ascii_space(c),
{
    c == ' ' || c == '\t' || c == '\n' || c == '\x0C' || c == '\r'
}

/// The length of the run of white space (or of other characters) with which
/// `chars[from..]` begins.
pub fn measure_run(chars: &Vec<char>, from: usize, space: bool) -> (n: usize)
    requires
        from <= chars.len(),
    ensures
        n == run_length(chars@.skip(from as int), space),
        from + n <= chars.len(),
{
    let mut i: usize = from;
    while i < chars.len() && is_space(chars[i]) == space
        invariant
            from <= i <= chars.len(),
            run_length(chars@.skip(from as int), space) == (i - from) + run_length(
                chars@.skip(i as int),
                space,
            ),
        decreases chars.len() - i,
    {
        proof {
            assert(chars@.skip(i as int).drop_first() =~= chars@.skip(i + 1));
        }
        i += 1;
    }
    i - from
}

/// The ends of the first word of `chars[from..]`, counted from the start of
/// `chars`.
pub fn find_word(chars: &Vec<char>, from: usize) -> (ends: (usize, usize))
    requires
        from <= chars.len(),
    ensures
        from <= ends.0 <= ends.1 <= chars.len(),
        ends.0 == from + word_start(chars@.skip(from as int)),
        ends.1 == from + word_end(chars@.skip(from as int)),
        chars@.subrange(ends.0 as int, ends.1 as int) == first_word(chars@.skip(from as int)),
{
    let start = from + measure_run(chars, from, true);
    let end = start + measure_run(chars, start, false);
    proof {
        let s = chars@.skip(from as int);
        assert(s.skip(word_start(s)) =~= chars@.skip(start as int));
        assert(chars@.subrange(start as int, end as int) =~= s.subrange(
            word_start(s),
            word_end(s),
        ));
    }
    (start, end)
}

/// `core::str::Utf8Error`, of which nothing is read.
#[verifier::external_type_specification]
#[verifier::external_body]
pub struct ExUtf8Error(core::str::Utf8Error);

/// `core::str::from_utf8`: bytes that are UTF-8 come back as the string
/// that they encode, other bytes are refused.
pub assume_specification[ core::str::from_utf8 ](bytes: &[u8]) -> (text: Result<
    &str,
    core::str::Utf8Error,
>)
    ensures
        text is Ok <==> valid_utf8(bytes@),
        text is Ok ==> text->Ok_0.spec_bytes() == bytes@,
;

/// The characters that `bytes` encode, where they are UTF-8.
pub fn decode(bytes: &[u8]) -> (chars: Option<Vec<char>>)
    ensures
        match chars {
            Some(chars) => {
                &&& valid_utf8(bytes@)
                &&& chars@ == decode_utf8(bytes@)
                &&& encode_utf8(chars@) == bytes@
            },
            None => !valid_utf8(bytes@),
        },
{
    match core::str::from_utf8(bytes) {
        Ok(text) => {
            proof {
                encode_utf8_decode_utf8(text@);
            }
            Some(chars_of(text))
        },
        Err(_) => None,
    }
}

/// The number of bytes that encode `c`.
pub open spec fn utf8_width(c: char) -> int {
    encode_scalar(c as u32).len() as int
}

/// The number of bytes that encode `s`.
pub open spec fn byte_len(s: Seq<char>) -> int {
    encode_utf8(s).len() as int
}

/// The encoding of a sequence with one more character.
pub proof fn lemma_encode_push(s: Seq<char>, c: char)
    ensures
        encode_utf8(s.push(c)) == encode_utf8(s) + encode_scalar(c as u32),
    decreases s.len(),
{
    if s.len() == 0 {
        let empty = Seq::<char>::empty();
        assert(s =~= empty);
        assert(s.push(c).drop_first() =~= empty);
        assert(s.push(c)[0] == c);
        assert(encode_utf8(empty) =~= Seq::<u8>::empty());
        assert(encode_utf8(s.push(c)) =~= encode_scalar(c as u32) + encode_utf8(empty));
        assert(encode_utf8(s.push(c)) =~= encode_utf8(s) + encode_scalar(c as u32));
    } else {
        assert(s.push(c).drop_first() =~= s.drop_first().push(c));
        lemma_encode_push(s.drop_first(), c);
        assert(encode_utf8(s.push(c)) =~= encode_utf8(s) + encode_scalar(c as u32));
    }
}

/// The encoding of a prefix is no longer than that of the whole.
pub proof fn lemma_byte_len_grows(s: Seq<char>, k: int)
    requires
        0 <= k <= s.len(),
    ensures
        byte_len(s.take(k)) <= byte_len(s),
    decreases s.len() - k,
{
    if k < s.len() {
        assert(s.take(k + 1) =~= s.take(k).push(s[k]));
        lemma_encode_push(s.take(k), s[k]);
        lemma_byte_len_grows(s, k + 1);
    } else {
        assert(s.take(k) =~= s);
    }
}

/// The number of bytes that encode `c`.
pub fn utf8_len(c: char) -> (n: usize)
    ensures
        n == utf8_width(c),
        1 <= n <= 4,
{
    proof {
        char_is_scalar(c);
    }
    let v: u32 = c as u32;
    if v < 0x80 {
        1
    } else if v < 0x800 {
        2
    } else if v < 0x10000 {
        3
    } else {
        4
    }
}

/// `n` in base 10.
pub open spec fn decimal_text(n: nat) -> Seq<char>
    decreases n,
{
    if n < 10 {
        seq![(('0' as int) + n) as char]
    } else {
        decimal_text(n / 10).push((('0' as int) + n % 10) as char)
    }
}

/// The decimal digit of a value below 10.
fn decimal_digit(d: usize) -> (c: char)
    requires
        d < 10,
    ensures
        c == (('0' as int) + d) as char,
{
    match d {
        0 => '0',
        1 => '1',
        2 => '2',
        3 => '3',
        4 => '4',
        5 => '5',
        6 => '6',
        7 => '7',
        8 => '8',
        _ => '9',
    }
}

/// Appends `n` in base 10 to `out`.
pub fn push_decimal(out: &mut String, n: usize)
    ensures
        final(out)@ == old(out)@ + decimal_text(n as nat),
    decreases n,
{
    if n >= 10 {
        push_decimal(out, n / 10);
    }
    out.push(decimal_digit(n % 10));
}

} // verus!
