//! Invocation-block header parsing.
//!
//! Handles the `::` line that begins every invocation block.
//! See [`InvocationHeader`] for the full grammar.
//!
//! The header is read character by character over the line's content; all
//! the characters that structure it (space, `=`, `"` and `\`) are ASCII.

use vstd::prelude::*;
use crate::parser::line::{Line, content_view, indentation_of, lemma_indentation_char,
    lemma_space_prefix_ascii, leading_spaces, lines_of, no_lf, split_lines_view,
    law_no_lf_single_line};
use crate::parser::text::{lemma_ascii_prefix_split, lemma_ascii_take, push_char};

verus! {

broadcast use {vstd::utf8::encode_utf8_decode_utf8, vstd::utf8::encode_utf8_valid_utf8};

/// The abstract value of a [`Parameter`].
pub struct ParameterView {
    pub name: Seq<char>,
    pub value: Seq<char>,
}

/// The abstract value of an [`InvocationHeader`].
pub struct HeaderView {
    pub name: Seq<char>,
    pub parameters: Seq<ParameterView>,
}

/// A parameter parsed from an invocation block header.
///
/// Parameters take the form `name=value` or a bare `name` (boolean shorthand,
/// equivalent to `name=true`). Values are always stored as strings — no type
/// checking or conversion is performed.
#[derive(Debug, Clone, PartialEq, Eq)]
pub struct Parameter {
    pub name: String,
    pub value: String,
}

impl View for Parameter {
    type V = ParameterView;

    open spec fn view(&self) -> ParameterView {
        ParameterView { name: self.name@, value: self.value@ }
    }
}

/// The views of a sequence of parameters.
pub open spec fn parameters_view(ps: Seq<Parameter>) -> Seq<ParameterView> {
    ps.map_values(|p: Parameter| p@)
}

/// The parsed header of an invocation block.
///
/// The header line (after stripping leading whitespace) has the form:
///
/// ```neomark
/// ::name parameter1=value1 "parameter 2"="value 2" bool_parameter
/// ```
///
/// # Grammar
///
/// - `::` is followed by the called object's **name**. Spaces between `::`
///   and the name are allowed (e.g. `::  name`). If the name itself contains
///   spaces it may be wrapped in double quotes (e.g. `::"my name"`), with
///   the same `\"` / `\\` escape support as quoted parameter parts.
/// - Parameters are separated by one or more spaces. Each parameter is
///   either a `name=value` pair or a bare name (shorthand for `name=true`).
/// - If a parameter name or value contains spaces it must be wrapped in
///   double quotes. Inside quoted portions `\"` and `\\` are recognised
///   escape sequences.
/// - All values are stored as strings; no type checking is performed.
#[derive(Debug, Clone, PartialEq, Eq)]
pub struct InvocationHeader {
    /// The name of the called object.
    pub name: String,
    /// Parsed parameters (name–value pairs).
    pub parameters: Vec<Parameter>,
}

impl View for InvocationHeader {
    type V = HeaderView;

    open spec fn view(&self) -> HeaderView {
        HeaderView { name: self.name@, parameters: parameters_view(self.parameters@) }
    }
}

// ── The grammar ───────────────────────────────────────────────────────────

/// The first position at or after `i` that does not hold a space.
pub open spec fn skip_spaces_from(s: Seq<char>, i: int) -> int
    decreases s.len() - i,
{
    if 0 <= i < s.len() && s[i] == ' ' {
        skip_spaces_from(s, i + 1)
    } else {
        i
    }
}

/// The first position at or after `i` that holds one of `stops`, or the end.
pub open spec fn token_end(s: Seq<char>, i: int, stops: Seq<char>) -> int
    decreases s.len() - i,
{
    if 0 <= i < s.len() && !stops.contains(s[i]) {
        token_end(s, i + 1, stops)
    } else {
        i
    }
}

/// The unescaped text of a quoted string whose body starts at `i` (just after
/// the opening quote), and the position after the closing quote (or the end).
///
/// `\"` and `\\` stand for `"` and `\`; any other character, a lone backslash
/// included, stands for itself.
pub open spec fn quoted_from(s: Seq<char>, i: int) -> (Seq<char>, int)
    decreases s.len() - i,
{
    if i < 0 || i >= s.len() {
        (Seq::empty(), i)
    } else if s[i] == '\\' && i + 1 < s.len() && (s[i + 1] == '"' || s[i + 1] == '\\') {
        let (t, e) = quoted_from(s, i + 2);
        (seq![s[i + 1]] + t, e)
    } else if s[i] == '"' {
        (Seq::empty(), i + 1)
    } else {
        let (t, e) = quoted_from(s, i + 1);
        (seq![s[i]] + t, e)
    }
}

/// What ends an unquoted parameter name: a space or `=`.
pub open spec fn name_stops() -> Seq<char> {
    seq![' ', '=']
}

/// What ends an unquoted parameter value or invocation name: a space.
pub open spec fn value_stops() -> Seq<char> {
    seq![' ']
}

/// A quoted or unquoted part starting at `i`, and the position after it.
pub open spec fn part_at(s: Seq<char>, i: int, stops: Seq<char>) -> (Seq<char>, int) {
    if 0 <= i < s.len() && s[i] == '"' {
        quoted_from(s, i + 1)
    } else {
        let j = token_end(s, i, stops);
        (s.subrange(i, j), j)
    }
}

/// The text `true`, the value of a bare parameter.
pub open spec fn true_text() -> Seq<char> {
    seq!['t', 'r', 'u', 'e']
}

/// The parameter starting at `i`, and the position after it.
pub open spec fn parameter_at(s: Seq<char>, i: int) -> (ParameterView, int) {
    let (key, k) = part_at(s, i, name_stops());
    let e = skip_spaces_from(s, k);
    if 0 <= e < s.len() && s[e] == '=' {
        let (value, end) = part_at(s, skip_spaces_from(s, e + 1), value_stops());
        (ParameterView { name: key, value }, end)
    } else {
        (ParameterView { name: key, value: true_text() }, e)
    }
}

/// The parameters read from position `i` to the end.
pub open spec fn parameters_from(s: Seq<char>, i: int) -> Seq<ParameterView>
    decreases s.len() - i,
{
    let k = skip_spaces_from(s, i);
    if 0 <= i && k < s.len() {
        proof {
            lemma_parameter_progress(s, i);
        }
        seq![parameter_at(s, k).0] + parameters_from(s, parameter_at(s, k).1)
    } else {
        Seq::empty()
    }
}

/// The text after the `::` marker and the spaces that follow it.
pub open spec fn marker_rest(content: Seq<char>) -> Seq<char> {
    let t = content.skip(2);
    t.skip(indentation_of(t) as int)
}

/// The content begins with the `::` marker.
pub open spec fn starts_with_marker(c: Seq<char>) -> bool {
    c.len() >= 2 && c[0] == ':' && c[1] == ':'
}

/// The name read from the start of `u` (quoted, or up to the first space),
/// and the position where the parameters start.
pub open spec fn name_part(u: Seq<char>) -> (Seq<char>, int) {
    part_at(u, 0, value_stops())
}

/// The header read from a line's content (which starts with `::`).
pub open spec fn header_of(content: Seq<char>) -> HeaderView {
    let u = marker_rest(content);
    HeaderView { name: name_part(u).0, parameters: parameters_from(u, name_part(u).1) }
}

// ── Facts about the grammar ───────────────────────────────────────────────

pub proof fn lemma_skip_spaces(s: Seq<char>, i: int)
    requires
        0 <= i <= s.len(),
    ensures
        i <= skip_spaces_from(s, i) <= s.len(),
        forall|k: int| i <= k < skip_spaces_from(s, i) ==> #[trigger] s[k] == ' ',
        skip_spaces_from(s, i) == s.len() || s[skip_spaces_from(s, i)] != ' ',
    decreases s.len() - i,
{
    if i < s.len() && s[i] == ' ' {
        lemma_skip_spaces(s, i + 1);
    }
}

pub proof fn lemma_token_end(s: Seq<char>, i: int, stops: Seq<char>)
    requires
        0 <= i <= s.len(),
    ensures
        i <= token_end(s, i, stops) <= s.len(),
        forall|k: int| i <= k < token_end(s, i, stops) ==> !stops.contains(#[trigger] s[k]),
        token_end(s, i, stops) == s.len() || stops.contains(s[token_end(s, i, stops)]),
    decreases s.len() - i,
{
    if i < s.len() && !stops.contains(s[i]) {
        lemma_token_end(s, i + 1, stops);
    }
}

pub proof fn lemma_quoted_end(s: Seq<char>, i: int)
    requires
        0 <= i <= s.len(),
    ensures
        i <= quoted_from(s, i).1 <= s.len(),
    decreases s.len() - i,
{
    if i < s.len() {
        if s[i] == '\\' && i + 1 < s.len() && (s[i + 1] == '"' || s[i + 1] == '\\') {
            lemma_quoted_end(s, i + 2);
        } else if s[i] == '"' {
        } else {
            lemma_quoted_end(s, i + 1);
        }
    }
}

pub proof fn lemma_part_end(s: Seq<char>, i: int, stops: Seq<char>)
    requires
        0 <= i <= s.len(),
    ensures
        i <= part_at(s, i, stops).1 <= s.len(),
        i < s.len() && s[i] == '"' ==> part_at(s, i, stops).1 > i,
{
    if i < s.len() && s[i] == '"' {
        lemma_quoted_end(s, i + 1);
    } else {
        lemma_token_end(s, i, stops);
    }
}

/// Reading a parameter always moves forward.
pub proof fn lemma_parameter_progress(s: Seq<char>, i: int)
    requires
        0 <= i,
        skip_spaces_from(s, i) < s.len(),
    ensures
        i < parameter_at(s, skip_spaces_from(s, i)).1 <= s.len(),
{
    if i > s.len() {
        assert(skip_spaces_from(s, i) == i);
    }
    lemma_skip_spaces(s, i);
    let k0 = skip_spaces_from(s, i);
    lemma_part_end(s, k0, name_stops());
    let k = part_at(s, k0, name_stops()).1;
    lemma_skip_spaces(s, k);
    let e = skip_spaces_from(s, k);
    if 0 <= e < s.len() && s[e] == '=' {
        lemma_skip_spaces(s, e + 1);
        lemma_part_end(s, skip_spaces_from(s, e + 1), value_stops());
    } else {
        if k == k0 && s[k0] != '"' {
            lemma_token_end(s, k0, name_stops());
            assert(name_stops().contains(s[k0]));
            assert(s[k0] != ' ');
            assert(s[k0] == '=');
        }
    }
}

// ── Parsing ───────────────────────────────────────────────────────────────

impl InvocationHeader {
    /// Parse an [`InvocationHeader`] from a header [`Line`].
    ///
    /// The line's [`content`](Line::content) must start with `::` (the caller,
    /// [`crate::parser::block::split_blocks`], guarantees this).
    pub fn parse(line: &Line) -> (h: Self)
        requires
            starts_with_marker(content_view(line@)),
        ensures
            h@ == header_of(content_view(line@)),
    {
        let content = line.content();
        proof {
            assert(content@[0] == ':' && content@[1] == ':');
            lemma_ascii_take(content@, 2);
            lemma_ascii_prefix_split(content@, 2);
        }
        let (_, after_colons) = content.split_at(2);
        let after_colons = skip_spaces(after_colons);
        let chars = chars_of(after_colons);
        let (name, rest) = read_name(chars.as_slice());
        let parameters = parse_parameters(chars.as_slice(), rest);
        InvocationHeader { name, parameters }
    }
}

// ── Internal helpers ──────────────────────────────────────────────────────

/// Skip leading space (U+0020) characters, returning the remaining slice.
fn skip_spaces(s: &str) -> (r: &str)
    ensures
        r@ == s@.skip(indentation_of(s@) as int),
{
    let n = leading_spaces(s);
    proof {
        lemma_indentation_char(s@, n as nat);
        lemma_space_prefix_ascii(s@, n as int);
        lemma_ascii_prefix_split(s@, n as int);
    }
    let (_, rest) = s.split_at(n);
    rest
}

/// The characters of `s`.
fn chars_of(s: &str) -> (r: Vec<char>)
    ensures
        r@ == s@,
{
    let mut r: Vec<char> = Vec::new();
    for c in it: s.chars()
        invariant
            it.seq() == s@,
            r@ == it.seq().take(it.index()),
    {
        proof {
            assert(it.seq().take(it.index() + 1) =~= r@.push(c));
        }
        r.push(c);
    }
    proof {
        assert(s@.take(s@.len() as int) =~= s@);
    }
    r
}

/// Read the invocation name.
///
/// If the name starts with `"` it is read as a quoted string (supporting the
/// same `\"` / `\\` escapes as quoted parameter names/values). Otherwise the
/// name extends to the first space or end of string. Returns the name and
/// the position after it.
fn read_name(s: &[char]) -> (r: (String, usize))
    ensures
        r.0@ == name_part(s@).0,
        r.1 == name_part(s@).1,
        r.1 <= s@.len(),
{
    let len = s.len();
    proof {
        assert(s@.take(len as int) =~= s@);
        lemma_part_end(s@, 0, value_stops());
    }
    if len > 0 && s[0] == '"' {
        read_quoted(s, 0, len)
    } else {
        let space = [' '];
        assert(space@ == value_stops());
        read_until(s, 0, len, &space)
    }
}

/// Whether `x` is one of `stops`.
fn is_stop(stops: &[char], x: char) -> (r: bool)
    ensures
        r == stops@.contains(x),
{
    let mut k: usize = 0;
    while k < stops.len()
        invariant
            0 <= k <= stops@.len(),
            forall|m: int| 0 <= m < k ==> stops@[m] != x,
        decreases stops@.len() - k,
    {
        if stops[k] == x {
            return true;
        }
        k = k + 1;
    }
    false
}

/// Skip spaces starting at position `i`, returning the new position; only the
/// first `len` characters are looked at.
fn skip_spaces_at(s: &[char], i: usize, len: usize) -> (r: usize)
    requires
        i <= len <= s@.len(),
    ensures
        r == skip_spaces_from(s@.take(len as int), i as int),
{
    let ghost t = s@.take(len as int);
    let mut j = i;
    while j < len && s[j] == ' '
        invariant
            t == s@.take(len as int),
            i <= j <= len <= s@.len(),
            skip_spaces_from(t, j as int) == skip_spaces_from(t, i as int),
        decreases len - j,
    {
        assert(t[j as int] == s@[j as int]);
        j = j + 1;
    }
    proof {
        if j < len {
            assert(t[j as int] == s@[j as int]);
        }
    }
    j
}

/// Read an unquoted token, stopping at any character in `stops`; only the
/// first `len` characters are looked at.
fn read_until(s: &[char], i: usize, len: usize, stops: &[char]) -> (r: (String, usize))
    requires
        i <= len <= s@.len(),
    ensures
        r.1 == token_end(s@.take(len as int), i as int, stops@),
        r.0@ == s@.take(len as int).subrange(i as int, r.1 as int),
{
    let ghost t = s@.take(len as int);
    let mut token = String::new();
    let mut j = i;
    while j < len && !is_stop(stops, s[j])
        invariant
            t == s@.take(len as int),
            i <= j <= len <= s@.len(),
            token_end(t, j as int, stops@) == token_end(t, i as int, stops@),
            token@ == t.subrange(i as int, j as int),
        decreases len - j,
    {
        assert(t[j as int] == s@[j as int]);
        assert(t.subrange(i as int, j + 1) =~= token@.push(s@[j as int]));
        push_char(&mut token, s[j]);
        j = j + 1;
    }
    proof {
        if j < len {
            assert(t[j as int] == s@[j as int]);
        }
    }
    (token, j)
}

/// Read a double-quoted string, handling `\"` and `\\` escapes; only the
/// first `len` characters are looked at.
///
/// `s[i]` must be `"`.  Returns the unescaped content and the position
/// after the closing `"` (or the end for malformed input).
fn read_quoted(s: &[char], i: usize, len: usize) -> (r: (String, usize))
    requires
        i < len <= s@.len(),
        s@[i as int] == '"',
    ensures
        r.0@ == quoted_from(s@.take(len as int), i + 1).0,
        r.1 == quoted_from(s@.take(len as int), i + 1).1,
{
    let ghost t = s@.take(len as int);
    let mut pos = i + 1;
    let mut result = String::new();
    while pos < len
        invariant
            t == s@.take(len as int),
            len <= s@.len(),
            len == t.len(),
            i + 1 <= pos <= len,
            result@ + quoted_from(t, pos as int).0 == quoted_from(t, i + 1).0,
            quoted_from(t, pos as int).1 == quoted_from(t, i + 1).1,
        decreases len - pos,
    {
        let ghost before = result@;
        let ghost at = pos as int;
        assert(t[at] == s@[at]);
        if pos + 1 < len {
            assert(t[at + 1] == s@[at + 1]);
        }
        if s[pos] == '\\' && pos + 1 < len && (s[pos + 1] == '"' || s[pos + 1] == '\\') {
            push_char(&mut result, s[pos + 1]);
            pos = pos + 2;
        } else if s[pos] == '"' {
            proof {
                assert(quoted_from(t, at) == (Seq::<char>::empty(), at + 1));
                assert(result@ =~= result@ + quoted_from(t, at).0);
            }
            return (result, pos + 1);
        } else {
            push_char(&mut result, s[pos]);
            pos = pos + 1;
        }
        proof {
            assert(quoted_from(t, at).0 == seq![result@.last()] + quoted_from(t, pos as int).0);
            assert(result@ + quoted_from(t, pos as int).0 =~= before + quoted_from(t, at).0);
        }
    }
    proof {
        assert(result@ =~= result@ + quoted_from(t, pos as int).0);
    }
    (result, pos)
}

/// Parse the parameter list from position `start` to the end.
fn parse_parameters(s: &[char], start: usize) -> (r: Vec<Parameter>)
    requires
        start <= s@.len(),
    ensures
        parameters_view(r@) == parameters_from(s@, start as int),
{
    let mut params: Vec<Parameter> = Vec::new();
    let len = s.len();
    let ghost t = s@;
    proof {
        assert(s@.take(len as int) =~= t);
    }
    let name_stop_chars = [' ', '='];
    let value_stop_chars = [' '];
    let mut i = start;
    while i < len
        invariant
            t == s@,
            t == s@.take(len as int),
            len == t.len(),
            start <= i <= len,
            parameters_view(params@) + parameters_from(t, i as int) == parameters_from(t, start as int),
            name_stop_chars@ == name_stops(),
            value_stop_chars@ == value_stops(),
        decreases len - i,
    {
        let k0 = skip_spaces_at(s, i, len);
        proof {
            lemma_skip_spaces(t, i as int);
        }
        if k0 < len {
            // Read key — quoted or unquoted
            let key: String;
            let mut j: usize;
            if s[k0] == '"' {
                let (k, e) = read_quoted(s, k0, len);
                key = k;
                j = e;
                proof {
                    lemma_quoted_end(t, k0 + 1);
                }
            } else {
                let (k, e) = read_until(s, k0, len, &name_stop_chars);
                key = k;
                j = e;
                proof {
                    lemma_token_end(t, k0 as int, name_stops());
                }
            }
            proof {
                assert(key@ == part_at(t, k0 as int, name_stops()).0);
                assert(j == part_at(t, k0 as int, name_stops()).1);
            }
            let after_key = j;
            j = skip_spaces_at(s, j, len);
            proof {
                lemma_skip_spaces(t, after_key as int);
            }
            let value: String;
            if j < len && s[j] == '=' {
                j = j + 1;  // consume '='
                let value_start = skip_spaces_at(s, j, len);
                proof {
                    lemma_skip_spaces(t, j as int);
                }
                if value_start < len && s[value_start] == '"' {
                    let (v, e) = read_quoted(s, value_start, len);
                    value = v;
                    j = e;
                    proof {
                        lemma_quoted_end(t, value_start + 1);
                    }
                } else {
                    let (v, e) = read_until(s, value_start, len, &value_stop_chars);
                    value = v;
                    j = e;
                    proof {
                        lemma_token_end(t, value_start as int, value_stops());
                    }
                }
            } else {
                // Bare name → boolean shorthand
                value = "true".to_owned();
                proof {
                    reveal_strlit("true");
                    assert(value@ =~= true_text());
                }
            }
            let p = Parameter { name: key, value };
            proof {
                lemma_parameter_progress(t, i as int);
                assert(p@ == parameter_at(t, k0 as int).0);
                assert(j == parameter_at(t, k0 as int).1);
                assert(parameters_view(params@.push(p)) =~= parameters_view(params@).push(p@));
                assert(parameters_from(t, i as int) == seq![p@] + parameters_from(t, j as int));
                assert(parameters_view(params@).push(p@) + parameters_from(t, j as int)
                    =~= parameters_view(params@) + (seq![p@] + parameters_from(t, j as int)));
            }
            params.push(p);
            i = j;
        } else {
            proof {
                assert(parameters_from(t, i as int) =~= Seq::<ParameterView>::empty());
                assert(parameters_from(t, k0 as int) =~= Seq::<ParameterView>::empty());
                assert(parameters_view(params@) + parameters_from(t, k0 as int)
                    =~= parameters_view(params@));
            }
            i = k0;
        }
    }
    proof {
        assert(parameters_from(t, i as int) =~= Seq::<ParameterView>::empty());
        assert(parameters_view(params@) + parameters_from(t, i as int) =~= parameters_view(params@));
    }
    params
}

// ── Laws of the grammar ───────────────────────────────────────────────────

/// Text escaped for a quoted part: `"` and `\` get a backslash before them.
pub open spec fn escaped(t: Seq<char>) -> Seq<char>
    decreases t.len(),
{
    if t.len() == 0 {
        Seq::empty()
    } else if t[0] == '"' || t[0] == '\\' {
        seq!['\\', t[0]] + escaped(t.drop_first())
    } else {
        seq![t[0]] + escaped(t.drop_first())
    }
}

/// Text escaped and put between double quotes.
pub open spec fn quoted(t: Seq<char>) -> Seq<char> {
    seq!['"'] + escaped(t) + seq!['"']
}

/// Reading a quoted body that stands after any prefix and before any rest
/// gives back the text and stops right after the closing quote.
proof fn lemma_quoted_body(p: Seq<char>, t: Seq<char>, rest: Seq<char>)
    ensures
        quoted_from(p + escaped(t) + seq!['"'] + rest, p.len() as int) == (
            t,
            (p.len() + escaped(t).len() + 1) as int,
        ),
    decreases t.len(),
{
    let s = p + escaped(t) + seq!['"'] + rest;
    let i = p.len() as int;
    if t.len() == 0 {
        assert(s[i] == '"');
        assert(t =~= Seq::<char>::empty());
    } else {
        let c = t[0];
        let t2 = t.drop_first();
        if c == '"' || c == '\\' {
            let p2 = p + seq!['\\', c];
            assert(s =~= p2 + escaped(t2) + seq!['"'] + rest);
            assert(s[i] == '\\' && s[i + 1] == c);
            lemma_quoted_body(p2, t2, rest);
        } else {
            let p2 = p + seq![c];
            assert(s =~= p2 + escaped(t2) + seq!['"'] + rest);
            assert(s[i] == c);
            lemma_quoted_body(p2, t2, rest);
        }
        assert(seq![c] + t2 =~= t);
    }
}

/// Quoting round trip: any text, escaped and put between double quotes,
/// reads back as the text, and reading ends right after the closing quote,
/// whatever follows it.
pub proof fn law_quoted_roundtrip(t: Seq<char>, rest: Seq<char>)
    ensures
        quoted_from(quoted(t) + rest, 1) == (t, quoted(t).len() as int),
{
    assert(quoted(t) + rest =~= seq!['"'] + escaped(t) + seq!['"'] + rest);
    lemma_quoted_body(seq!['"'], t, rest);
}

proof fn lemma_token_end_at(s: Seq<char>, i: int, j: int, stops: Seq<char>)
    requires
        0 <= i <= j <= s.len(),
        forall|k: int| i <= k < j ==> !stops.contains(#[trigger] s[k]),
        j == s.len() || stops.contains(s[j]),
    ensures
        token_end(s, i, stops) == j,
    decreases j - i,
{
    if i < j {
        lemma_token_end_at(s, i + 1, j, stops);
    }
}

/// A parameter part that needs no quotes: not empty, no space and no `=`,
/// and not starting with a double quote.
pub open spec fn plain_token(t: Seq<char>) -> bool {
    &&& t.len() > 0
    &&& t[0] != '"'
    &&& forall|j: int| 0 <= j < t.len() ==> #[trigger] t[j] != ' ' && t[j] != '='
}

/// A bare parameter name stands for `name=true`.
pub proof fn law_bare_parameter(t: Seq<char>)
    requires
        plain_token(t),
    ensures
        parameters_from(t, 0) == seq![ParameterView { name: t, value: true_text() }],
{
    assert(skip_spaces_from(t, 0) == 0);
    assert forall|k: int| 0 <= k < t.len() implies !name_stops().contains(#[trigger] t[k]) by {
        if name_stops().contains(t[k]) {
            let m = choose|m: int| 0 <= m < name_stops().len() && name_stops()[m] == t[k];
            assert(m == 0 || m == 1);
        }
    }
    lemma_token_end_at(t, 0, t.len() as int, name_stops());
    assert(t.subrange(0, t.len() as int) =~= t);
    assert(skip_spaces_from(t, t.len() as int) == t.len());
    assert(parameter_at(t, 0) == (ParameterView { name: t, value: true_text() }, t.len() as int));
    assert(parameters_from(t, t.len() as int) =~= Seq::<ParameterView>::empty());
    assert(parameters_from(t, 0) =~= seq![ParameterView { name: t, value: true_text() }]);
}

/// `name=value` with a plain name and a value without spaces (not starting
/// with a double quote) reads as that pair.
pub proof fn law_pair_parameter(t: Seq<char>, v: Seq<char>)
    requires
        plain_token(t),
        forall|j: int| 0 <= j < v.len() ==> #[trigger] v[j] != ' ',
        v.len() == 0 || v[0] != '"',
    ensures
        parameters_from(t + seq!['='] + v, 0) == seq![ParameterView { name: t, value: v }],
{
    let n = t.len() as int;
    let s = t + seq!['='] + v;
    assert(s[n] == '=');
    assert(skip_spaces_from(s, 0) == 0);
    assert forall|k: int| 0 <= k < n implies !name_stops().contains(#[trigger] s[k]) by {
        assert(s[k] == t[k]);
        if name_stops().contains(s[k]) {
            let m = choose|m: int| 0 <= m < name_stops().len() && name_stops()[m] == s[k];
            assert(m == 0 || m == 1);
        }
    }
    assert(name_stops().contains(s[n])) by {
        assert(name_stops()[1] == s[n]);
    }
    lemma_token_end_at(s, 0, n, name_stops());
    assert(s.subrange(0, n) =~= t);
    assert(skip_spaces_from(s, n) == n);
    if v.len() > 0 {
        assert(s[n + 1] == v[0]);
    }
    assert(skip_spaces_from(s, n + 1) == n + 1);
    assert forall|k: int| n + 1 <= k < s.len() implies !value_stops().contains(#[trigger] s[k]) by {
        assert(s[k] == v[k - n - 1]);
        if value_stops().contains(s[k]) {
            let m = choose|m: int| 0 <= m < value_stops().len() && value_stops()[m] == s[k];
            assert(m == 0);
        }
    }
    lemma_token_end_at(s, n + 1, s.len() as int, value_stops());
    assert(s.subrange(n + 1, s.len() as int) =~= v);
    assert(parameter_at(s, 0) == (ParameterView { name: t, value: v }, s.len() as int));
    assert(parameters_from(s, s.len() as int) =~= Seq::<ParameterView>::empty());
    assert(parameters_from(s, 0) =~= seq![ParameterView { name: t, value: v }]);
}

/// The text of one parameter with quoted name and value: ` "name"="value"`.
pub open spec fn parameter_text(p: ParameterView) -> Seq<char> {
    seq![' '] + quoted(p.name) + seq!['='] + quoted(p.value)
}

/// The texts of the parameters, one after the other.
pub open spec fn parameters_text(ps: Seq<ParameterView>) -> Seq<char>
    decreases ps.len(),
{
    if ps.len() == 0 {
        Seq::empty()
    } else {
        parameter_text(ps[0]) + parameters_text(ps.drop_first())
    }
}

/// A header line with a quoted name and quoted parameters.
pub open spec fn header_text(name: Seq<char>, ps: Seq<ParameterView>) -> Seq<char> {
    seq![':', ':'] + quoted(name) + parameters_text(ps)
}

proof fn lemma_parameters_text(p: Seq<char>, ps: Seq<ParameterView>)
    ensures
        parameters_from(p + parameters_text(ps), p.len() as int) == ps,
    decreases ps.len(),
{
    let s = p + parameters_text(ps);
    let i = p.len() as int;
    if ps.len() == 0 {
        assert(s =~= p);
        assert(skip_spaces_from(s, i) == i);
        assert(ps =~= Seq::<ParameterView>::empty());
    } else {
        let q = ps[0];
        let rest = ps.drop_first();
        let k = q.name;
        let v = q.value;
        let p2 = p + parameter_text(q);
        assert(s =~= p2 + parameters_text(rest));
        // the space, then the quoted name
        assert(s[i] == ' ');
        assert(s[i + 1] == '"');
        assert(skip_spaces_from(s, i + 1) == i + 1);
        assert(skip_spaces_from(s, i) == i + 1);
        let pk = p + seq![' ', '"'];
        assert(s =~= pk + escaped(k) + seq!['"'] + (seq!['='] + quoted(v) + parameters_text(rest)));
        lemma_quoted_body(pk, k, seq!['='] + quoted(v) + parameters_text(rest));
        let e = i + 2 + escaped(k).len() + 1;
        assert(part_at(s, i + 1, name_stops()) == (k, e));
        // `=`, then the quoted value
        assert(s[e] == '=');
        assert(skip_spaces_from(s, e) == e);
        assert(s[e + 1] == '"');
        assert(skip_spaces_from(s, e + 1) == e + 1);
        let pv = p + seq![' '] + quoted(k) + seq!['=', '"'];
        assert(s =~= pv + escaped(v) + seq!['"'] + parameters_text(rest));
        lemma_quoted_body(pv, v, parameters_text(rest));
        assert(parameter_at(s, i + 1) == (q, p2.len() as int));
        lemma_parameter_progress(s, i);
        lemma_parameters_text(p2, rest);
        assert(seq![q] + rest =~= ps);
    }
}

proof fn lemma_escaped_no_lf(t: Seq<char>)
    requires
        no_lf(t),
    ensures
        no_lf(escaped(t)),
    decreases t.len(),
{
    if t.len() > 0 {
        let t2 = t.drop_first();
        assert(no_lf(t2)) by {
            assert forall|j: int| 0 <= j < t2.len() implies #[trigger] t2[j] != '\n' by {
                assert(t2[j] == t[j + 1]);
            }
        }
        lemma_escaped_no_lf(t2);
        let head = if t[0] == '"' || t[0] == '\\' { seq!['\\', t[0]] } else { seq![t[0]] };
        assert(escaped(t) == head + escaped(t2));
        assert forall|j: int| 0 <= j < escaped(t).len() implies #[trigger] escaped(t)[j] != '\n' by {
            if j >= head.len() {
                assert(escaped(t)[j] == escaped(t2)[j - head.len()]);
            }
        }
    }
}

proof fn lemma_no_lf_concat(a: Seq<char>, b: Seq<char>)
    requires
        no_lf(a),
        no_lf(b),
    ensures
        no_lf(a + b),
{
    assert forall|j: int| 0 <= j < (a + b).len() implies #[trigger] (a + b)[j] != '\n' by {
        if j >= a.len() {
            assert((a + b)[j] == b[j - a.len()]);
        }
    }
}

proof fn lemma_quoted_no_lf(t: Seq<char>)
    requires
        no_lf(t),
    ensures
        no_lf(quoted(t)),
{
    lemma_escaped_no_lf(t);
    lemma_no_lf_concat(seq!['"'], escaped(t));
    lemma_no_lf_concat(seq!['"'] + escaped(t), seq!['"']);
}

/// Neither a parameter's name nor its value holds a line feed.
pub open spec fn parameters_no_lf(ps: Seq<ParameterView>) -> bool {
    forall|j: int| 0 <= j < ps.len() ==> no_lf(#[trigger] ps[j].name) && no_lf(ps[j].value)
}

proof fn lemma_parameters_text_no_lf(ps: Seq<ParameterView>)
    requires
        parameters_no_lf(ps),
    ensures
        no_lf(parameters_text(ps)),
    decreases ps.len(),
{
    if ps.len() > 0 {
        let q = ps[0];
        assert(no_lf(q.name) && no_lf(q.value));
        assert(parameters_no_lf(ps.drop_first())) by {
            assert forall|j: int| 0 <= j < ps.drop_first().len() implies no_lf(
                #[trigger] ps.drop_first()[j].name,
            ) && no_lf(ps.drop_first()[j].value) by {
                assert(ps.drop_first()[j] == ps[j + 1]);
            }
        }
        lemma_parameters_text_no_lf(ps.drop_first());
        lemma_quoted_no_lf(q.name);
        lemma_quoted_no_lf(q.value);
        lemma_no_lf_concat(seq![' '], quoted(q.name));
        lemma_no_lf_concat(seq![' '] + quoted(q.name), seq!['=']);
        lemma_no_lf_concat(seq![' '] + quoted(q.name) + seq!['='], quoted(q.value));
        lemma_no_lf_concat(parameter_text(q), parameters_text(ps.drop_first()));
    }
}

/// Header round trip: a `::` line with a quoted name and quoted
/// `name=value` parameters (any text, escaped) reads back as that name and
/// those parameters.
pub proof fn law_header_roundtrip(name: Seq<char>, ps: Seq<ParameterView>)
    ensures
        header_of(header_text(name, ps)) == (HeaderView { name, parameters: ps }),
{
    let c = header_text(name, ps);
    let t = c.skip(2);
    assert(t =~= quoted(name) + parameters_text(ps));
    assert(t[0] == '"');
    assert(indentation_of(t) == 0);
    assert(t.skip(0) =~= t);
    let u = marker_rest(c);
    assert(u == t);
    assert(u =~= seq!['"'] + escaped(name) + seq!['"'] + parameters_text(ps));
    lemma_quoted_body(seq!['"'], name, parameters_text(ps));
    assert(name_part(u) == (name, quoted(name).len() as int));
    lemma_parameters_text(quoted(name), ps);
}

/// The same header round trip, from the text of a document: the text is a
/// single line whose parse gives back the name and the parameters, provided
/// none of them holds a line feed.
pub proof fn law_header_line_roundtrip(name: Seq<char>, ps: Seq<ParameterView>)
    requires
        no_lf(name),
        parameters_no_lf(ps),
    ensures
        split_lines_view(header_text(name, ps)).len() == 1,
        starts_with_marker(content_view(split_lines_view(header_text(name, ps))[0])),
        header_of(content_view(split_lines_view(header_text(name, ps))[0])) == (HeaderView {
            name,
            parameters: ps,
        }),
{
    let c = header_text(name, ps);
    lemma_quoted_no_lf(name);
    lemma_parameters_text_no_lf(ps);
    lemma_no_lf_concat(seq![':', ':'], quoted(name));
    lemma_no_lf_concat(seq![':', ':'] + quoted(name), parameters_text(ps));
    law_no_lf_single_line(c);
    assert(lines_of(c) == seq![c]);
    let v = split_lines_view(c)[0];
    assert(v.raw == c);
    assert(indentation_of(c) == 0);
    assert(c.skip(0) =~= c);
    assert(content_view(v) == c);
    law_header_roundtrip(name, ps);
}

/// A part that needs no quotes where only a space ends it: not empty, no
/// space, not starting with a double quote.
pub open spec fn plain_value(v: Seq<char>) -> bool {
    &&& v.len() > 0
    &&& v[0] != '"'
    &&& forall|j: int| 0 <= j < v.len() ==> #[trigger] v[j] != ' '
}

/// Parameters that can be written without quotes: plain names, plain values.
pub open spec fn plain_parameters(ps: Seq<ParameterView>) -> bool {
    forall|j: int| 0 <= j < ps.len() ==> plain_token(#[trigger] ps[j].name) && plain_value(ps[j].value)
}

/// One parameter written without quotes, after a space: a bare name when the
/// value is `true`, `name=value` otherwise.
pub open spec fn plain_parameter_text(p: ParameterView) -> Seq<char> {
    if p.value == true_text() {
        seq![' '] + p.name
    } else {
        seq![' '] + p.name + seq!['='] + p.value
    }
}

/// The parameters written without quotes, one after the other.
pub open spec fn plain_parameters_text(ps: Seq<ParameterView>) -> Seq<char>
    decreases ps.len(),
{
    if ps.len() == 0 {
        Seq::empty()
    } else {
        plain_parameter_text(ps[0]) + plain_parameters_text(ps.drop_first())
    }
}

proof fn lemma_plain_parameters_text_start(ps: Seq<ParameterView>)
    ensures
        ps.len() == 0 ==> plain_parameters_text(ps).len() == 0,
        ps.len() > 0 ==> plain_parameters_text(ps).len() > 0 && plain_parameters_text(ps)[0] == ' ',
{
    if ps.len() > 0 {
        assert(plain_parameters_text(ps)[0] == plain_parameter_text(ps[0])[0]);
    }
}

/// Where a space stands, reading parameters from it or from just after it
/// gives the same.
proof fn lemma_parameters_from_space(s: Seq<char>, j: int)
    requires
        0 <= j < s.len(),
        s[j] == ' ',
    ensures
        parameters_from(s, j) == parameters_from(s, j + 1),
{
    assert(skip_spaces_from(s, j) == skip_spaces_from(s, j + 1));
}

proof fn lemma_plain_parameters_text(p: Seq<char>, ps: Seq<ParameterView>)
    requires
        plain_parameters(ps),
    ensures
        parameters_from(p + plain_parameters_text(ps), p.len() as int) == ps,
    decreases ps.len(),
{
    let s = p + plain_parameters_text(ps);
    let i = p.len() as int;
    if ps.len() == 0 {
        assert(s =~= p);
        assert(skip_spaces_from(s, i) == i);
        assert(ps =~= Seq::<ParameterView>::empty());
    } else {
        let q = ps[0];
        let rest = ps.drop_first();
        assert(plain_token(q.name) && plain_value(q.value));
        assert(plain_parameters(rest)) by {
            assert forall|j: int| 0 <= j < rest.len() implies plain_token(#[trigger] rest[j].name)
                && plain_value(rest[j].value) by {
                assert(rest[j] == ps[j + 1]);
            }
        }
        let n = q.name;
        let v = q.value;
        let p2 = p + plain_parameter_text(q);
        let tr = plain_parameters_text(rest);
        assert(s =~= p2 + tr);
        lemma_plain_parameters_text_start(rest);
        // what follows this parameter: the end, or a space then a plain name
        if rest.len() > 0 {
            assert(s[p2.len() as int] == ' ');
            assert(plain_token(rest[0].name));
            assert(tr == plain_parameter_text(rest[0]) + plain_parameters_text(rest.drop_first()));
            assert(tr[1] == rest[0].name[0]);
            assert(s[p2.len() + 1int] == rest[0].name[0]);
        }
        assert(s[i] == ' ');
        assert(s[i + 1] == n[0]);
        assert(skip_spaces_from(s, i + 1) == i + 1);
        assert(skip_spaces_from(s, i) == i + 1);
        let k = i + 1 + n.len();
        assert forall|m: int| i + 1 <= m < k implies !name_stops().contains(#[trigger] s[m]) by {
            assert(s[m] == n[m - i - 1]);
            if name_stops().contains(s[m]) {
                let w = choose|w: int| 0 <= w < name_stops().len() && name_stops()[w] == s[m];
                assert(w == 0 || w == 1);
            }
        }
        if v == true_text() {
            assert(p2.len() == k);
            if rest.len() > 0 {
                assert(name_stops().contains(s[k])) by {
                    assert(name_stops()[0] == s[k]);
                }
            }
            lemma_token_end_at(s, i + 1, k, name_stops());
            assert(s.subrange(i + 1, k) =~= n);
            if rest.len() > 0 {
                assert(skip_spaces_from(s, k + 1) == k + 1);
                assert(skip_spaces_from(s, k) == k + 1);
                assert(s[k + 1] != '=');
                assert(parameter_at(s, i + 1) == (q, k + 1));
                lemma_parameters_from_space(s, k);
            } else {
                assert(skip_spaces_from(s, k) == k);
                assert(parameter_at(s, i + 1) == (q, k));
            }
        } else {
            assert(s[k] == '=');
            assert(name_stops().contains(s[k])) by {
                assert(name_stops()[1] == s[k]);
            }
            lemma_token_end_at(s, i + 1, k, name_stops());
            assert(s.subrange(i + 1, k) =~= n);
            assert(skip_spaces_from(s, k) == k);
            assert(s[k + 1] == v[0]);
            assert(skip_spaces_from(s, k + 1) == k + 1);
            let m = k + 1 + v.len();
            assert(p2.len() == m);
            assert forall|x: int| k + 1 <= x < m implies !value_stops().contains(#[trigger] s[x]) by {
                assert(s[x] == v[x - k - 1]);
                if value_stops().contains(s[x]) {
                    let w = choose|w: int| 0 <= w < value_stops().len() && value_stops()[w] == s[x];
                    assert(w == 0);
                }
            }
            if rest.len() > 0 {
                assert(value_stops().contains(s[m])) by {
                    assert(value_stops()[0] == s[m]);
                }
            }
            lemma_token_end_at(s, k + 1, m, value_stops());
            assert(s.subrange(k + 1, m) =~= v);
            assert(parameter_at(s, i + 1) == (q, m));
        }
        lemma_parameter_progress(s, i);
        lemma_plain_parameters_text(p2, rest);
        assert(seq![q] + rest =~= ps);
    }
}

/// A header written without quotes reads as written: the name runs to the
/// first space (whatever else it holds), each bare parameter name stands for
/// `name=true` on its own, and each `name=value` gives that pair.
pub proof fn law_plain_header(name: Seq<char>, ps: Seq<ParameterView>)
    requires
        plain_value(name),
        plain_parameters(ps),
    ensures
        header_of(seq![':', ':'] + name + plain_parameters_text(ps)) == (HeaderView {
            name,
            parameters: ps,
        }),
{
    let c = seq![':', ':'] + name + plain_parameters_text(ps);
    let u = name + plain_parameters_text(ps);
    assert(c.skip(2) =~= u);
    assert(u[0] == name[0]);
    assert(indentation_of(u) == 0);
    assert(u.skip(0) =~= u);
    assert(marker_rest(c) == u);
    lemma_plain_parameters_text_start(ps);
    let n = name.len() as int;
    assert forall|m: int| 0 <= m < n implies !value_stops().contains(#[trigger] u[m]) by {
        assert(u[m] == name[m]);
        if value_stops().contains(u[m]) {
            let w = choose|w: int| 0 <= w < value_stops().len() && value_stops()[w] == u[m];
            assert(w == 0);
        }
    }
    if ps.len() > 0 {
        assert(u[n] == ' ');
        assert(value_stops().contains(u[n])) by {
            assert(value_stops()[0] == u[n]);
        }
    }
    lemma_token_end_at(u, 0, n, value_stops());
    assert(u.subrange(0, n) =~= name);
    assert(name_part(u) == (name, n));
    lemma_plain_parameters_text(name, ps);
}

} // verus!
