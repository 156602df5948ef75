//! The line that keeps an icon in a cache: its name, its codepoint in base
//! 16 and the word `obsolete` where it is.

pub use crate::icon::Icon;
use crate::icon::{parse_hex, push_hex, spec_parse_codepoint, hex_text, IconView};
use crate::text::{chars_of, find_word, first_word, spells, string_of, word_end};
use vstd::prelude::*;
use vstd::string::StringExecFns;

verus! {

/// An icon as a line of a cache.
#[derive(Clone, Debug, PartialEq, Eq)]
pub struct CachedIcon(pub Icon);

/// The icon that the line `s` keeps, or what is wrong with the line.
///
/// The words of the line are its fields: the name, the codepoint and,
/// for an obsolete icon, the word `obsolete`. What follows is passed over.
pub open spec fn spec_cached_icon(s: Seq<char>) -> Result<IconView, Seq<char>> {
    let name = first_word(s);
    let rest = s.skip(word_end(s));
    let code = first_word(rest);
    let tail = rest.skip(word_end(rest));
    let flag = first_word(tail);
    if name.len() == 0 {
        Err("Miss field 'name'"@)
    } else if code.len() == 0 {
        Err("Miss field 'codepoint'"@)
    } else {
        match spec_parse_codepoint(code) {
            None => Err("Invalid field 'codepoint'"@),
            Some(codepoint) => if flag.len() == 0 {
                Ok(IconView { name, codepoint, obsolete: false })
            } else if flag == "obsolete"@ {
                Ok(IconView { name, codepoint, obsolete: true })
            } else {
                Err("Invalid field 'obsolete'"@)
            },
        }
    }
}

impl CachedIcon {
    /// Reads the line of a cache.
    pub fn from_str(s: &str) -> (result: Result<CachedIcon, &'static str>)
        ensures
            match spec_cached_icon(s@) {
                Ok(icon) => result is Ok && result->Ok_0.0@ == icon,
                Err(why) => result is Err && result->Err_0@ == why,
            },
    {
        let chars = chars_of(s);
        assert(chars@.skip(0) =~= s@);
        let (a, b) = find_word(&chars, 0);
        if a == b {
            return Err("Miss field 'name'");
        }
        let ghost rest = s@.skip(word_end(s@));
        assert(rest =~= chars@.skip(b as int));
        let (c, d) = find_word(&chars, b);
        if c == d {
            return Err("Miss field 'codepoint'");
        }
        let ghost tail = rest.skip(word_end(rest));
        assert(tail =~= chars@.skip(d as int));
        let codepoint = match parse_hex(&chars, c, d) {
            Some(v) => match char::from_u32(v) {
                Some(ch) => ch,
                None => {
                    return Err("Invalid field 'codepoint'");
                },
            },
            None => {
                return Err("Invalid field 'codepoint'");
            },
        };
        let (e, f) = find_word(&chars, d);
        let obsolete = if e == f {
            false
        } else if spells(&chars, e, f, "obsolete") {
            true
        } else {
            return Err("Invalid field 'obsolete'");
        };
        Ok(CachedIcon(Icon { name: string_of(&chars, a, b), codepoint, obsolete }))
    }

    /// The line that keeps the icon.
    pub open spec fn spec_text(self) -> Seq<char> {
        let line = self.0.name@ + seq![' '] + hex_text(self.0.codepoint as nat);
        if self.0.obsolete {
            line + " obsolete"@
        } else {
            line
        }
    }

    /// Writes the line that keeps the icon.
    pub fn to_string(&self) -> (text: String)
        ensures
            text@ == self.spec_text(),
    {
        let mut text = self.0.name.clone();
        text.push(' ');
        push_hex(&mut text, crate::text::code_of(self.0.codepoint));
        if self.0.obsolete {
            text.append(" obsolete");
        }
        text
    }
}

impl std::str::FromStr for CachedIcon {
    type Err = &'static str;

    /// Reads the line of a cache.
    fn from_str(s: &str) -> (result: Result<Self, Self::Err>)
        ensures
            match spec_cached_icon(s@) {
                Ok(icon) => result is Ok && result->Ok_0.0@ == icon,
                Err(why) => result is Err && result->Err_0@ == why,
            },
    {
        CachedIcon::from_str(s)
    }
}

} // verus!
