//! Icons, substitution rules and the codepoint notation.

use crate::error::Error;
use crate::text::{chars_of, find_first, find_last, spells, string_of};
use vstd::prelude::*;
use vstd::utf8::is_scalar;

verus! {

/// `char::from_u32`: the character with the codepoint `v`, where `v` is
/// the codepoint of a character.
pub assume_specification[ char::from_u32 ](v: u32) -> (c: Option<char>)
    ensures
        c == if is_scalar(v) {
            Some(v as char)
        } else {
            None::<char>
        },
;

/// A named glyph of the font.
#[derive(Clone, Debug, PartialEq, Eq)]
pub struct Icon {
    pub name: String,
    pub codepoint: char,
    pub obsolete: bool,
}

/// What an [`Icon`] holds, as plain values.
pub struct IconView {
    pub name: Seq<char>,
    pub codepoint: char,
    pub obsolete: bool,
}

impl View for Icon {
    type V = IconView;

    open spec fn view(&self) -> IconView {
        IconView { name: self.name@, codepoint: self.codepoint, obsolete: self.obsolete }
    }
}

impl Icon {
    /// A copy of the icon.
    pub fn duplicate(&self) -> (copy: Icon)
        ensures
            copy == *self,
    {
        Icon { name: self.name.clone(), codepoint: self.codepoint, obsolete: self.obsolete }
    }
}

/// The value of a hexadecimal digit.
pub open spec fn hex_value(c: char) -> Option<int> {
    if '0' <= c <= '9' {
        Some(c as int - '0' as int)
    } else if 'a' <= c <= 'f' {
        Some(c as int - 'a' as int + 10)
    } else if 'A' <= c <= 'F' {
        Some(c as int - 'A' as int + 10)
    } else {
        None
    }
}

/// Every character of `s` is a hexadecimal digit.
pub open spec fn all_hex(s: Seq<char>) -> bool {
    forall|i: int| 0 <= i < s.len() ==> hex_value(#[trigger] s[i]) is Some
}

/// The number that the hexadecimal digits `s` write.
pub open spec fn hex_number(s: Seq<char>) -> int
    decreases s.len(),
{
    if s.len() == 0 {
        0
    } else {
        16 * hex_number(s.drop_last()) + match hex_value(s.last()) {
            Some(d) => d,
            None => 0,
        }
    }
}

/// The unsigned number that `s` writes in base 16: hexadecimal digits of
/// either case after an optional `+`, with a value that fits 32 bits.
pub open spec fn spec_parse_hex(s: Seq<char>) -> Option<u32> {
    let digits = if s.len() > 0 && s[0] == '+' {
        s.skip(1)
    } else {
        s
    };
    if digits.len() > 0 && all_hex(digits) && hex_number(digits) <= u32::MAX {
        Some(hex_number(digits) as u32)
    } else {
        None
    }
}

/// The character whose codepoint `s` writes in base 16.
pub open spec fn spec_parse_codepoint(s: Seq<char>) -> Option<char> {
    match spec_parse_hex(s) {
        Some(v) => if is_scalar(v) {
            Some(v as char)
        } else {
            None
        },
        None => None,
    }
}

/// Digits write no negative number.
pub proof fn lemma_hex_number_bounds(s: Seq<char>)
    ensures
        0 <= hex_number(s),
    decreases s.len(),
{
    if s.len() > 0 {
        lemma_hex_number_bounds(s.drop_last());
    }
}

/// The number written by a prefix is at most the number written by the whole.
pub proof fn lemma_hex_number_grows(s: Seq<char>, k: int)
    requires
        0 <= k <= s.len(),
    ensures
        hex_number(s.take(k)) <= hex_number(s),
    decreases s.len() - k,
{
    if k < s.len() {
        assert(s.take(k + 1).drop_last() =~= s.take(k));
        lemma_hex_number_bounds(s.take(k));
        lemma_hex_number_grows(s, k + 1);
    } else {
        assert(s.take(k) =~= s);
    }
}

/// The value of a hexadecimal digit.
fn hex_digit_value(c: char) -> (d: Option<u32>)
    ensures
        match d {
            Some(v) => hex_value(c) == Some(v as int) && v < 16,
            None => hex_value(c) is None,
        },
{
    let v: u32 = c as u32;
    if 0x30 <= v && v <= 0x39 {
        Some(v - 0x30)
    } else if 0x61 <= v && v <= 0x66 {
        Some(v - 0x61 + 10)
    } else if 0x41 <= v && v <= 0x46 {
        Some(v - 0x41 + 10)
    } else {
        None
    }
}

/// Reads `chars[from..to]` as a number in base 16.
pub fn parse_hex(chars: &Vec<char>, from: usize, to: usize) -> (value: Option<u32>)
    requires
        from <= to <= chars.len(),
    ensures
        value == spec_parse_hex(chars@.subrange(from as int, to as int)),
{
    let ghost s = chars@.subrange(from as int, to as int);
    let start: usize = if from < to && chars[from] == '+' {
        from + 1
    } else {
        from
    };
    let ghost digits = chars@.subrange(start as int, to as int);
    proof {
        if start == from {
            assert(digits =~= s);
        } else {
            assert(digits =~= s.skip(1));
        }
    }
    if start == to {
        return None;
    }
    let mut acc: u32 = 0;
    let mut i: usize = start;
    while i < to
        invariant
            from <= start <= i <= to <= chars.len(),
            start < to,
            s == chars@.subrange(from as int, to as int),
            digits == chars@.subrange(start as int, to as int),
            digits == if s.len() > 0 && s[0] == '+' {
                s.skip(1)
            } else {
                s
            },
            all_hex(digits.take(i - start)),
            acc == hex_number(digits.take(i - start)),
        decreases to - i,
    {
        proof {
            assert(digits.take(i - start + 1).drop_last() =~= digits.take(i - start));
            assert(digits.take(i - start + 1).last() == chars@[i as int]);
            assert(digits[i - start] == chars@[i as int]);
        }
        match hex_digit_value(chars[i]) {
            None => {
                assert(hex_value(digits[i - start]) is None);
                return None;
            },
            Some(d) => {
                if acc > (u32::MAX - d) / 16 {
                    proof {
                        lemma_hex_number_grows(digits, i - start + 1);
                    }
                    return None;
                }
                acc = acc * 16 + d;
                proof {
                    let next = digits.take(i - start + 1);
                    assert forall|j: int| 0 <= j < next.len() implies hex_value(
                        #[trigger] next[j],
                    ) is Some by {
                        if j < i - start {
                            assert(next[j] == digits.take(i - start)[j]);
                        }
                    }
                }
            },
        }
        i += 1;
    }
    assert(digits.take(to - start) =~= digits);
    Some(acc)
}

/// Reads a codepoint written in base 16, as in `f001`.
pub fn parse_codepoint(s: &str) -> (result: Result<char, Error>)
    ensures
        result == match spec_parse_codepoint(s@) {
            Some(c) => Ok::<char, Error>(c),
            None => Err(Error::InvalidCodepoint),
        },
{
    let chars = chars_of(s);
    assert(chars@.subrange(0, chars.len() as int) =~= s@);
    match parse_hex(&chars, 0, chars.len()) {
        Some(v) => match char::from_u32(v) {
            Some(c) => Ok(c),
            None => Err(Error::InvalidCodepoint),
        },
        None => Err(Error::InvalidCodepoint),
    }
}

/// The lower-case hexadecimal digit of a value below 16.
pub open spec fn hex_char(d: int) -> char {
    if d < 10 {
        ('0' as int + d) as char
    } else {
        ('a' as int + d - 10) as char
    }
}

/// `n` in base 16, in lower case and without leading zeros.
pub open spec fn hex_text(n: nat) -> Seq<char>
    decreases n,
{
    if n < 16 {
        seq![hex_char(n as int)]
    } else {
        hex_text(n / 16).push(hex_char((n % 16) as int))
    }
}

/// The lower-case hexadecimal digit of a value below 16.
fn hex_digit(d: u32) -> (c: char)
    requires
        d < 16,
    ensures
        c == hex_char(d as int),
{
    match d {
        0 => '0',
        1 => '1',
        2 => '2',
        3 => '3',
        4 => '4',
        5 => '5',
        6 => '6',
        7 => '7',
        8 => '8',
        9 => '9',
        10 => 'a',
        11 => 'b',
        12 => 'c',
        13 => 'd',
        14 => 'e',
        _ => 'f',
    }
}

/// Appends `n` in base 16 to `out`.
pub fn push_hex(out: &mut String, n: u32)
    ensures
        final(out)@ == old(out)@ + hex_text(n as nat),
    decreases n,
{
    if n >= 16 {
        push_hex(out, n / 16);
    }
    out.push(hex_digit(n % 16));
}

/// The upper-case hexadecimal digit of a value below 16.
pub open spec fn hex_char_upper(d: int) -> char {
    if d < 10 {
        ('0' as int + d) as char
    } else {
        ('A' as int + d - 10) as char
    }
}

/// `n` in base 16, in upper case and without leading zeros.
pub open spec fn hex_text_upper(n: nat) -> Seq<char>
    decreases n,
{
    if n < 16 {
        seq![hex_char_upper(n as int)]
    } else {
        hex_text_upper(n / 16).push(hex_char_upper((n % 16) as int))
    }
}

/// `n` in base 16 and upper case, with zeros in front up to `width` digits.
pub open spec fn hex_text_padded(n: nat, width: nat) -> Seq<char> {
    let digits = hex_text_upper(n);
    if digits.len() < width {
        Seq::new((width - digits.len()) as nat, |i: int| '0') + digits
    } else {
        digits
    }
}

/// The upper-case hexadecimal digit of a value below 16.
fn hex_digit_upper(d: u32) -> (c: char)
    requires
        d < 16,
    ensures
        c == hex_char_upper(d as int),
{
    match d {
        0 => '0',
        1 => '1',
        2 => '2',
        3 => '3',
        4 => '4',
        5 => '5',
        6 => '6',
        7 => '7',
        8 => '8',
        9 => '9',
        10 => 'A',
        11 => 'B',
        12 => 'C',
        13 => 'D',
        14 => 'E',
        _ => 'F',
    }
}

/// Appends `n` in base 16 and upper case to `out`, and returns the number
/// of digits.
pub fn push_hex_upper(out: &mut String, n: u32) -> (digits: usize)
    ensures
        final(out)@ == old(out)@ + hex_text_upper(n as nat),
        digits == hex_text_upper(n as nat).len(),
        1 <= digits <= 8,
    decreases n,
{
    let mut digits: usize = 0;
    if n >= 16 {
        digits = push_hex_upper(out, n / 16);
        proof {
            lemma_hex_upper_len(n as nat);
        }
    }
    out.push(hex_digit_upper(n % 16));
    digits + 1
}

/// A number below 16 to the power of `k` has at most `k` digits.
pub proof fn lemma_hex_upper_len(n: nat)
    ensures
        n < 0x10 ==> hex_text_upper(n).len() == 1,
        n < 0x100 ==> hex_text_upper(n).len() <= 2,
        n < 0x1000 ==> hex_text_upper(n).len() <= 3,
        n < 0x1_0000 ==> hex_text_upper(n).len() <= 4,
        n < 0x10_0000 ==> hex_text_upper(n).len() <= 5,
        n < 0x100_0000 ==> hex_text_upper(n).len() <= 6,
        n < 0x1000_0000 ==> hex_text_upper(n).len() <= 7,
        n < 0x1_0000_0000 ==> hex_text_upper(n).len() <= 8,
        hex_text_upper(n).len() >= 1,
    decreases n,
{
    if n >= 16 {
        lemma_hex_upper_len(n / 16);
    }
}

/// Writes `n` in base 16 and upper case, with zeros in front up to `width`
/// digits.
pub fn hex_padded(n: u32, width: usize) -> (text: String)
    ensures
        text@ == hex_text_padded(n as nat, width as nat),
{
    let mut digits = String::new();
    let count = push_hex_upper(&mut digits, n);
    assert(digits@ =~= hex_text_upper(n as nat));
    let pad: usize = if width > count {
        width - count
    } else {
        0
    };
    let mut text = String::new();
    let mut i: usize = 0;
    assert(text@ =~= Seq::new(0, |k: int| '0'));
    while i < pad
        invariant
            i <= pad,
            text@ == Seq::new(i as nat, |k: int| '0'),
        decreases pad - i,
    {
        text.push('0');
        assert(text@ =~= Seq::new((i + 1) as nat, |k: int| '0'));
        i += 1;
    }
    text.append(digits.as_str());
    assert(text@ =~= hex_text_padded(n as nat, width as nat));
    text
}

/// Writes a codepoint in base 16, as in `f001`.
pub fn display_codepoint(ch: char) -> (text: String)
    ensures
        text@ == hex_text(ch as nat),
{
    let mut text = String::new();
    push_hex(&mut text, ch as u32);
    text
}

/// How a substitution rule picks the icons it replaces.
#[derive(Clone, Copy, Debug, PartialEq, Eq, Structural)]
pub enum SubstitutionType {
    Exact,
    Prefix,
    Codepoint,
}

impl Default for SubstitutionType {
    fn default() -> (ty: Self)
        ensures
            ty == SubstitutionType::Exact,
    {
        SubstitutionType::Exact
    }
}

/// The kind of rule that the word `s` names.
pub open spec fn spec_substitution_type(s: Seq<char>) -> Option<SubstitutionType> {
    if s == "exact"@ {
        Some(SubstitutionType::Exact)
    } else if s == "prefix"@ {
        Some(SubstitutionType::Prefix)
    } else if s == "codepoint"@ {
        Some(SubstitutionType::Codepoint)
    } else {
        None
    }
}

impl SubstitutionType {
    /// The word that names this kind of rule.
    pub open spec fn spec_name(self) -> Seq<char> {
        match self {
            SubstitutionType::Exact => "exact"@,
            SubstitutionType::Prefix => "prefix"@,
            SubstitutionType::Codepoint => "codepoint"@,
        }
    }

    /// The word that names this kind of rule.
    pub fn name(self) -> (word: &'static str)
        ensures
            word@ == self.spec_name(),
    {
        match self {
            SubstitutionType::Exact => "exact",
            SubstitutionType::Prefix => "prefix",
            SubstitutionType::Codepoint => "codepoint",
        }
    }

    /// The word that names this kind of rule, as an owned string.
    pub fn to_string(&self) -> (word: String)
        ensures
            word@ == self.spec_name(),
    {
        self.name().to_owned()
    }

    /// The kind of rule that `chars[from..to]` names.
    pub fn named(chars: &Vec<char>, from: usize, to: usize) -> (ty: Option<SubstitutionType>)
        requires
            from <= to <= chars.len(),
        ensures
            ty == spec_substitution_type(chars@.subrange(from as int, to as int)),
    {
        if spells(chars, from, to, "exact") {
            Some(SubstitutionType::Exact)
        } else if spells(chars, from, to, "prefix") {
            Some(SubstitutionType::Prefix)
        } else if spells(chars, from, to, "codepoint") {
            Some(SubstitutionType::Codepoint)
        } else {
            None
        }
    }

    /// Reads the name of a kind of rule.
    pub fn from_str(s: &str) -> (result: Result<SubstitutionType, &'static str>)
        ensures
            match spec_substitution_type(s@) {
                Some(ty) => result == Ok::<SubstitutionType, &'static str>(ty),
                None => result is Err && result->Err_0@ == "unknown substitution type"@,
            },
    {
        let chars = chars_of(s);
        assert(chars@.subrange(0, chars.len() as int) =~= s@);
        match SubstitutionType::named(&chars, 0, chars.len()) {
            Some(ty) => Ok(ty),
            None => Err("unknown substitution type"),
        }
    }
}

impl std::str::FromStr for SubstitutionType {
    type Err = &'static str;

    /// Reads the name of a kind of rule.
    fn from_str(s: &str) -> (result: Result<Self, Self::Err>)
        ensures
            match spec_substitution_type(s@) {
                Some(ty) => result == Ok::<SubstitutionType, &'static str>(ty),
                None => result is Err && result->Err_0@ == "unknown substitution type"@,
            },
    {
        SubstitutionType::from_str(s)
    }
}

/// A rule that replaces one icon with another.
#[derive(Clone, Debug, PartialEq, Eq)]
pub struct Substitution {
    pub ty: SubstitutionType,
    pub from: String,
    pub to: String,
}

/// What a [`Substitution`] holds, as plain values.
pub struct SubstitutionView {
    pub ty: SubstitutionType,
    pub from: Seq<char>,
    pub to: Seq<char>,
}

impl View for Substitution {
    type V = SubstitutionView;

    open spec fn view(&self) -> SubstitutionView {
        SubstitutionView { ty: self.ty, from: self.from@, to: self.to@ }
    }
}

/// The rule that `s` writes as `TYPE:FROM/TO`, or the reason why it writes
/// none.
///
/// The type is what stands before the first `:`; without a `:` the rule is
/// exact. `TO` is what follows the last `/`, `FROM` what stands between that
/// `/` and the separator before it. Both must hold a character.
pub open spec fn spec_parse_substitution(s: Seq<char>) -> Result<SubstitutionView, Seq<char>> {
    let colon = crate::text::first_index_of(s, ':');
    let typed = colon < s.len();
    if typed && spec_substitution_type(s.take(colon)) is None {
        Err("unknown substitution type"@)
    } else {
        let ty = if typed {
            spec_substitution_type(s.take(colon))->0
        } else {
            SubstitutionType::Exact
        };
        let body = if typed {
            s.skip(colon + 1)
        } else {
            s
        };
        let slash = crate::text::last_index_of(body, '/');
        if slash < 0 {
            Err("invalid substitution syntax"@)
        } else {
            let head = body.take(slash);
            let from = head.skip(crate::text::last_index_of(head, '/') + 1);
            let to = body.skip(slash + 1);
            if from.len() == 0 || to.len() == 0 {
                Err("invalid substitution syntax"@)
            } else {
                Ok(SubstitutionView { ty, from, to })
            }
        }
    }
}

impl Substitution {
    /// A copy of the rule.
    pub fn duplicate(&self) -> (copy: Substitution)
        ensures
            copy == *self,
    {
        Substitution { ty: self.ty, from: self.from.clone(), to: self.to.clone() }
    }

    /// Reads a rule written as `TYPE:FROM/TO` or `FROM/TO`.
    pub fn from_str(s: &str) -> (result: Result<Substitution, &'static str>)
        ensures
            match spec_parse_substitution(s@) {
                Ok(rule) => result is Ok && result->Ok_0@ == rule,
                Err(why) => result is Err && result->Err_0@ == why,
            },
    {
        let chars = chars_of(s);
        let n = chars.len();
        assert(chars@.subrange(0, n as int) =~= s@);
        let colon = find_first(&chars, 0, n, ':');
        let mut ty = SubstitutionType::Exact;
        let mut body: usize = 0;
        if colon < n {
            assert(chars@.subrange(0, colon as int) =~= s@.take(colon as int));
            match SubstitutionType::named(&chars, 0, colon) {
                Some(t) => {
                    ty = t;
                },
                None => {
                    return Err("unknown substitution type");
                },
            }
            body = colon + 1;
        }
        let ghost rest = chars@.subrange(body as int, n as int);
        proof {
            if colon < n {
                assert(rest =~= s@.skip(colon + 1));
            } else {
                assert(rest =~= s@);
            }
        }
        let slash = match find_last(&chars, body, n, '/') {
            Some(k) => k,
            None => {
                return Err("invalid substitution syntax");
            },
        };
        let ghost head = rest.take(slash as int);
        assert(chars@.subrange(body as int, body + slash) =~= head);
        let from_start = match find_last(&chars, body, body + slash, '/') {
            Some(p) => body + p + 1,
            None => body,
        };
        let from_end = body + slash;
        let to_start = body + slash + 1;
        proof {
            assert(chars@.subrange(from_start as int, from_end as int) =~= head.skip(
                crate::text::last_index_of(head, '/') + 1,
            ));
            assert(chars@.subrange(to_start as int, n as int) =~= rest.skip(slash + 1));
        }
        if from_start == from_end || to_start == n {
            return Err("invalid substitution syntax");
        }
        Ok(
            Substitution {
                ty,
                from: string_of(&chars, from_start, from_end),
                to: string_of(&chars, to_start, n),
            },
        )
    }

    /// The rule as `TYPE:FROM/TO`.
    pub open spec fn spec_text(self) -> Seq<char> {
        self.ty.spec_name() + seq![':'] + self.from@ + seq!['/'] + self.to@
    }

    /// Writes the rule as `TYPE:FROM/TO`.
    pub fn to_string(&self) -> (text: String)
        ensures
            text@ == self.spec_text(),
    {
        let mut text = self.ty.to_string();
        text.push(':');
        text.append(self.from.as_str());
        text.push('/');
        text.append(self.to.as_str());
        assert(text@ =~= self.spec_text());
        text
    }
}

impl std::str::FromStr for Substitution {
    type Err = &'static str;

    /// Reads a rule written as `TYPE:FROM/TO` or `FROM/TO`.
    fn from_str(s: &str) -> (result: Result<Self, Self::Err>)
        ensures
            match spec_parse_substitution(s@) {
                Ok(rule) => result is Ok && result->Ok_0@ == rule,
                Err(why) => result is Err && result->Err_0@ == why,
            },
    {
        Substitution::from_str(s)
    }
}

/// The icons of a database.
pub type Indices = Vec<Icon>;

/// The rules of a database.
pub type Substitutions = Vec<Substitution>;

/// The icons and rules that one source of input holds.
#[derive(Clone, Debug, PartialEq, Eq)]
pub struct Database {
    pub icons: Indices,
    pub substitutions: Substitutions,
}

impl Default for Database {
    fn default() -> (db: Self)
        ensures
            db.icons@.len() == 0,
            db.substitutions@.len() == 0,
    {
        Database { icons: Vec::new(), substitutions: Vec::new() }
    }
}

} // verus!
