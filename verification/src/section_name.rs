//! Validation of the text between the brackets of a section header.

use crate::text::{count, count_char, ends_with, find_char, lemma_position, starts_with, to_chars};
use vstd::prelude::*;

verus! {

/// The ways in which a section name can be malformed.
pub enum NameDefect {
    /// A quoted name that does not end with a double quote.
    UnterminatedQuote,
    /// A quoted name that holds a closing bracket.
    BracketInQuoted,
    /// An unquoted name that ends with a backslash.
    TrailingBackslash,
    /// An unquoted name with an odd number of percent signs.
    OddPercent,
    /// An unquoted name that holds a character it may not hold.
    ForbiddenChar,
}

/// The characters that an unquoted section name may not hold.
pub open spec fn forbidden_in_name(c: char) -> bool {
    c == '\r' || c == '\n' || c == '"' || c == ' ' || c == '\t' || c == '[' || c == ']' || c
        == ';'
}

/// The first defect of `name`, in the order in which the rules are applied.
pub open spec fn section_name_defect(name: Seq<char>) -> Option<NameDefect> {
    if starts_with(name, '"') {
        if !ends_with(name, '"') {
            Some(NameDefect::UnterminatedQuote)
        } else if name.contains(']') {
            Some(NameDefect::BracketInQuoted)
        } else {
            None
        }
    } else {
        if ends_with(name, '\\') {
            Some(NameDefect::TrailingBackslash)
        } else if count(name, '%') % 2 != 0 {
            Some(NameDefect::OddPercent)
        } else if exists|i: int| 0 <= i < name.len() && forbidden_in_name(#[trigger] name[i]) {
            Some(NameDefect::ForbiddenChar)
        } else {
            None
        }
    }
}

pub open spec fn valid_section_name(name: Seq<char>) -> bool {
    section_name_defect(name) is None
}

/// The message reported for a defect.
pub open spec fn defect_message(d: NameDefect) -> Seq<char> {
    match d {
        NameDefect::UnterminatedQuote => "invalid quoted section name"@,
        NameDefect::BracketInQuoted => "invalid ] in the quoted section name"@,
        NameDefect::TrailingBackslash => "invalid \\ at the end of section name"@,
        NameDefect::OddPercent => "odd number of % in the section name, expected pairs"@,
        NameDefect::ForbiddenChar => "contains invalid chars in unquoted section name"@,
    }
}

fn is_forbidden_in_name(c: char) -> (b: bool)
    ensures
        b == forbidden_in_name(c),
{
    c == '\r' || c == '\n' || c == '"' || c == ' ' || c == '\t' || c == '[' || c == ']' || c
        == ';'
}

fn has_forbidden_char(s: &[char]) -> (b: bool)
    ensures
        b == exists|i: int| 0 <= i < s@.len() && forbidden_in_name(#[trigger] s@[i]),
{
    let mut i: usize = 0;
    while i < s.len()
        invariant
            i <= s.len(),
            forall|j: int| 0 <= j < i ==> !forbidden_in_name(#[trigger] s@[j]),
        decreases s.len() - i,
    {
        if is_forbidden_in_name(s[i]) {
            return true;
        }
        i += 1;
    }
    false
}

/// Checks a section name: accepted exactly when it has no defect, and
/// otherwise rejected with the message of its first defect.
pub fn validate_section_name<'a>(name: String) -> (out: Result<(), &'a str>)
    ensures
        match section_name_defect(name@) {
            None => out is Ok,
            Some(d) => out is Err && out->Err_0@ == defect_message(d),
        },
{
    let chars = to_chars(name.as_str());
    let s = chars.as_slice();
    let n = s.len();
    if n > 0 && s[0] == '"' {
        if s[n - 1] != '"' {
            return Err("invalid quoted section name");
        }
        proof {
            lemma_position(s@, ']');
        }
        if find_char(s, ']').is_some() {
            return Err("invalid ] in the quoted section name");
        }
        Ok(())
    } else {
        if n > 0 && s[n - 1] == '\\' {
            return Err("invalid \\ at the end of section name");
        }
        if count_char(s, '%') % 2 != 0 {
            return Err("odd number of % in the section name, expected pairs");
        }
        if has_forbidden_char(s) {
            return Err("contains invalid chars in unquoted section name");
        }
        Ok(())
    }
}

} // verus!
