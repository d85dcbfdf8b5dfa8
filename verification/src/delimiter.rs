//! Reading the field-delimiter option: a one-byte character, or one of the
//! spellings of a tab.

use vstd::prelude::*;

use crate::errors::LoaderError;

verus! {

/// The byte a delimiter spelling stands for: `\t` and `tab` name a tab, and
/// any single one-byte character names itself.
pub open spec fn spec_delimiter(s: Seq<char>) -> Option<u8> {
    if s.len() == 2 && s[0] == '\\' && s[1] == 't' {
        Some(9u8)
    } else if s.len() == 3 && s[0] == 't' && s[1] == 'a' && s[2] == 'b' {
        Some(9u8)
    } else if s.len() == 1 && (s[0] as u32) < 128 {
        Some(s[0] as u8)
    } else {
        None
    }
}

/// Parse the delimiter option.
pub fn parse_delimiter(s: &str) -> (r: Result<u8, LoaderError>)
    ensures
        r is Ok <==> spec_delimiter(s@) is Some,
        r is Ok ==> r->Ok_0 == spec_delimiter(s@)->Some_0,
        r is Err ==> (r matches Err(LoaderError::ConfigError(m)) && m@ == "Invalid delimiter: "@
            + s@),
{
    let n = s.unicode_len();
    if n == 2 {
        let c0 = s.get_char(0);
        let c1 = s.get_char(1);
        if c0 == '\\' && c1 == 't' {
            return Ok(9);
        }
    }
    if n == 3 {
        let c0 = s.get_char(0);
        let c1 = s.get_char(1);
        let c2 = s.get_char(2);
        if c0 == 't' && c1 == 'a' && c2 == 'b' {
            return Ok(9);
        }
    }
    if n == 1 {
        let c = s.get_char(0);
        let u = c as u32;
        if u < 128 {
            return Ok(u as u8);
        }
    }
    let mut msg = String::from_str("Invalid delimiter: ");
    msg.append(s);
    Err(LoaderError::ConfigError(msg))
}

} // verus!
