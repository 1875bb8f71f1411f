//! Character-level normalisation of a raw document.

use vstd::prelude::*;
use crate::parser::text::push_char;

verus! {

/// The replacement a single character receives during normalisation.
pub open spec fn normalize_char(c: char) -> char {
    if c == '\u{000B}' || c == '\u{000C}' {
        '\u{000A}'
    } else if c == '\u{0009}' {
        '\u{0020}'
    } else if ('\u{0000}' <= c <= '\u{0008}') || ('\u{000E}' <= c <= '\u{001F}')
        || ('\u{0080}' <= c <= '\u{0090}') || ('\u{0093}' <= c <= '\u{009F}') {
        '\u{FFFD}'
    } else {
        c
    }
}

/// The normalised form of a whole character sequence.
pub open spec fn normalized(s: Seq<char>) -> Seq<char> {
    s.map_values(|c: char| normalize_char(c))
}

fn normalize_one(c: char) -> (r: char)
    ensures
        r == normalize_char(c),
{
    if c == '\u{000B}' || c == '\u{000C}' {
        '\u{000A}'
    } else if c == '\u{0009}' {
        '\u{0020}'
    } else if ('\u{0000}' <= c && c <= '\u{0008}') || ('\u{000E}' <= c && c <= '\u{001F}')
        || ('\u{0080}' <= c && c <= '\u{0090}') || ('\u{0093}' <= c && c <= '\u{009F}') {
        '\u{FFFD}'
    } else {
        c
    }
}

/// Normalise a raw Neomark document string according to the character-level rules.
pub fn normalize(input: &str) -> (r: String)
    ensures
        r@ == normalized(input@),
{
    let mut out = String::new();
    for c in it: input.chars()
        invariant
            out@ == normalized(it.seq().take(it.index())),
    {
        push_char(&mut out, normalize_one(c));
    }
    out
}

/// A character that normalisation replaces: tab, vertical tab, form feed,
/// and the invalid C0 and C1 controls.
pub open spec fn is_replaced_char(c: char) -> bool {
    ||| c == '\u{0009}' || c == '\u{000B}' || c == '\u{000C}'
    ||| '\u{0000}' <= c <= '\u{0008}'
    ||| '\u{000E}' <= c <= '\u{001F}'
    ||| '\u{0080}' <= c <= '\u{0090}'
    ||| '\u{0093}' <= c <= '\u{009F}'
}

/// Normalisation keeps the number of characters: each character is replaced
/// by exactly one.
pub proof fn law_normalize_length(s: Seq<char>)
    ensures
        normalized(s).len() == s.len(),
{
}

/// No character that normalisation replaces is left in its output.
pub proof fn law_normalize_leaves_none(s: Seq<char>)
    ensures
        forall|i: int| 0 <= i < normalized(s).len() ==> !is_replaced_char(#[trigger] normalized(s)[i]),
{
}

/// Every other character is kept as it is: LF, CR, U+0091 and U+0092 among
/// them.
pub proof fn law_normalize_keeps_others(s: Seq<char>)
    ensures
        forall|i: int| 0 <= i < s.len() && !is_replaced_char(#[trigger] s[i]) ==> normalized(s)[i] == s[i],
{
}

/// Normalising an already normalised text changes nothing.
pub proof fn law_normalize_idempotent(s: Seq<char>)
    ensures
        normalized(normalized(s)) == normalized(s),
{
    assert(normalized(normalized(s)) =~= normalized(s));
}

/// Each character is replaced on its own, wherever it stands: TAB by a
/// space, VT and FF by LF, the invalid C0 and C1 controls by U+FFFD.
pub proof fn law_normalize_replacements(s: Seq<char>)
    ensures
        normalized(s).len() == s.len(),
        forall|i: int|
            0 <= i < s.len() ==> {
                &&& s[i] == '\u{0009}' ==> #[trigger] normalized(s)[i] == ' '
                &&& (s[i] == '\u{000B}' || s[i] == '\u{000C}') ==> normalized(s)[i] == '\n'
                &&& ('\u{0000}' <= s[i] <= '\u{0008}' || '\u{000E}' <= s[i] <= '\u{001F}'
                    || '\u{0080}' <= s[i] <= '\u{0090}' || '\u{0093}' <= s[i] <= '\u{009F}')
                    ==> normalized(s)[i] == '\u{FFFD}'
            },
{
}

/// Normalisation looks at no context: normalising two texts one after the
/// other gives the normalisation of their concatenation.
pub proof fn law_normalize_concat(a: Seq<char>, b: Seq<char>)
    ensures
        normalized(a + b) == normalized(a) + normalized(b),
{
    assert(normalized(a + b) =~= normalized(a) + normalized(b));
}

} // verus!
