//! Queries: plain text, or a regular expression where special characters
//! stand in it.
use vstd::prelude::*;
use crate::text::{chars_of, contains, contains_text, lowercased};

verus! {

/// Whether a character has a meaning of its own in a regular expression.
pub open spec fn is_special(c: char) -> bool {
    ||| c == '\\'
    ||| c == '.'
    ||| c == '+'
    ||| c == '*'
    ||| c == '?'
    ||| c == '('
    ||| c == ')'
    ||| c == '|'
    ||| c == '['
    ||| c == ']'
    ||| c == '{'
    ||| c == '}'
    ||| c == '^'
    ||| c == '$'
}

/// Whether a query stands for nothing but itself.
pub open spec fn is_plain(query: Seq<char>) -> bool {
    forall|i: int| 0 <= i < query.len() ==> !is_special(#[trigger] query[i])
}

fn is_special_char(c: char) -> (r: bool)
    ensures
        r == is_special(c),
{
    c == '\\' || c == '.' || c == '+' || c == '*' || c == '?' || c == '(' || c == ')' || c == '|'
        || c == '[' || c == ']' || c == '{' || c == '}' || c == '^' || c == '$'
}

/// Whether a query stands for nothing but itself.
pub fn stands_for_itself(query: &str) -> (r: bool)
    ensures
        r == is_plain(query@),
{
    let chars = chars_of(query);
    let mut i: usize = 0;
    while i < chars.len()
        invariant
            i <= chars@.len(),
            chars@ == query@,
            forall|k: int| 0 <= k < i ==> !is_special(#[trigger] query@[k]),
        decreases chars@.len() - i,
    {
        if is_special_char(chars[i]) {
            assert(is_special(query@[i as int]));
            return false;
        }
        i += 1;
    }
    true
}

/// Whether a text can be read as a regular expression.
pub uninterp spec fn is_pattern(text: Seq<char>) -> bool;

/// `regex::RegexBuilder::build`: the text alone decides whether it compiles.
#[verifier::external_body]
fn compiles(text: &str) -> (r: bool)
    ensures
        r == is_pattern(text@),
{
    regex::RegexBuilder::new(text).case_insensitive(true).build().is_ok()
}

/// Whether a regular expression, read without regard to case, matches
/// anywhere in a text.
pub uninterp spec fn pattern_found(pattern: Seq<char>, text: Seq<char>) -> bool;

/// `regex::Regex::is_match`, on what `RegexBuilder` makes of the pattern with
/// `case_insensitive`: pattern and text alone determine the answer.
#[verifier::external_body]
pub(crate) fn find_pattern(pattern: &str, text: &str) -> (r: bool)
    requires
        is_pattern(pattern@),
    ensures
        r == pattern_found(pattern@, text@),
{
    let mut builder = regex::RegexBuilder::new(pattern);
    builder.case_insensitive(true).build().unwrap().is_match(text)
}

/// A query is a regular expression: special characters stand in it, and it
/// can be read as one. Any other query is text.
pub open spec fn is_expression(query: Seq<char>) -> bool {
    !is_plain(query) && is_pattern(query)
}

/// Whether a query is a regular expression.
pub fn reads_as_expression(query: &str) -> (r: bool)
    ensures
        r == is_expression(query@),
{
    !stands_for_itself(query) && compiles(query)
}

/// A text answers a query: it holds the query itself, in any letter case, or
/// the query is a regular expression that matches it.
pub open spec fn answers(text: Seq<char>, query: Seq<char>) -> bool {
    ||| contains_text(lowercased(text), lowercased(query))
    ||| is_expression(query) && pattern_found(query, text)
}

/// Whether a text answers a query, given both in lower case, whether the query
/// is a regular expression, and whether it matches as one.
pub fn is_answer(text_lower: &str, query_lower: &str, expression: bool, matched: bool) -> (r: bool)
    ensures
        r == (contains_text(text_lower@, query_lower@) || expression && matched),
{
    contains(text_lower, query_lower) || expression && matched
}

} // verus!
