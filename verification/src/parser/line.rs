//! Splitting a normalised document into lines.

use vstd::prelude::*;
use vstd::utf8::*;
use crate::parser::text::{lemma_ascii_prefix_split, lemma_encode_len, push_char};

verus! {

broadcast use {vstd::utf8::encode_utf8_decode_utf8, vstd::utf8::encode_utf8_valid_utf8};

/// The abstract value of a [`Line`]: its full text and its recorded indentation.
pub struct LineView {
    pub raw: Seq<char>,
    pub indentation: nat,
}

/// A line read from a Neomark document, with its indentation level.
///
/// Indentation is measured as the number of leading space (U+0020) characters.
/// The raw text including leading whitespace is stored; `content()` and
/// `full_text()` provide zero-copy access to different views of the line.
#[derive(Debug, Clone, PartialEq, Eq)]
pub struct Line {
    /// The full line text including leading whitespace.
    pub raw: String,
    /// Number of leading space characters (indentation depth).
    pub indentation: usize,
}

impl View for Line {
    type V = LineView;

    open spec fn view(&self) -> LineView {
        LineView { raw: self.raw@, indentation: self.indentation as nat }
    }
}

/// The views of a sequence of lines.
pub open spec fn lines_view(lines: Seq<Line>) -> Seq<LineView> {
    lines.map_values(|l: Line| l@)
}

/// The number of leading space characters of `s`.
pub open spec fn indentation_of(s: Seq<char>) -> nat
    decreases s.len(),
{
    if s.len() > 0 && s[0] == ' ' {
        1 + indentation_of(s.drop_first())
    } else {
        0
    }
}

/// Every character of `s` is a space.
pub open spec fn all_spaces(s: Seq<char>) -> bool {
    forall|i: int| 0 <= i < s.len() ==> #[trigger] s[i] == ' '
}

/// A line is blank when it is empty or holds only spaces.
pub open spec fn is_blank_view(v: LineView) -> bool {
    all_spaces(v.raw)
}

/// The text of a line after its leading spaces.
pub open spec fn content_view(v: LineView) -> Seq<char> {
    v.raw.skip(indentation_of(v.raw) as int)
}

/// The line that `split_lines` makes of the text `t`.
pub open spec fn measured_line(t: Seq<char>) -> LineView {
    LineView { raw: t, indentation: indentation_of(t) }
}

/// The first `n` characters of `s` are spaces.
pub open spec fn space_prefix(s: Seq<char>, n: int) -> bool {
    0 <= n <= s.len() && forall|i: int| 0 <= i < n ==> #[trigger] s[i] == ' '
}

proof fn lemma_indentation_facts(s: Seq<char>)
    ensures
        space_prefix(s, indentation_of(s) as int),
        indentation_of(s) == s.len() || s[indentation_of(s) as int] != ' ',
    decreases s.len(),
{
    if s.len() > 0 && s[0] == ' ' {
        let d = s.drop_first();
        lemma_indentation_facts(d);
        assert forall|i: int| 0 <= i < indentation_of(s) implies #[trigger] s[i] == ' ' by {
            if i > 0 {
                assert(s[i] == d[i - 1]);
            }
        }
        if indentation_of(s) < s.len() {
            assert(s[indentation_of(s) as int] == d[indentation_of(d) as int]);
        }
    }
}

/// `t` without one trailing carriage return, if it ends with one.
pub open spec fn strip_cr(t: Seq<char>) -> Seq<char> {
    if t.len() > 0 && t.last() == '\r' {
        t.drop_last()
    } else {
        t
    }
}

/// Reading `s` from the start: the lines ended by a line feed so far (each
/// without its line ending, LF or CRLF), and the unterminated text after the
/// last line feed.
pub open spec fn newline_split(s: Seq<char>) -> (Seq<Seq<char>>, Seq<char>)
    decreases s.len(),
{
    if s.len() == 0 {
        (Seq::empty(), Seq::empty())
    } else {
        let (done, cur) = newline_split(s.drop_last());
        if s.last() == '\n' {
            (done.push(strip_cr(cur)), Seq::empty())
        } else {
            (done, cur.push(s.last()))
        }
    }
}

/// The lines of `s`: split at LF or CRLF, terminators dropped; a final line
/// ending is optional, so an empty text after the last one is no line.
pub open spec fn lines_of(s: Seq<char>) -> Seq<Seq<char>> {
    let (done, cur) = newline_split(s);
    if cur.len() == 0 {
        done
    } else {
        done.push(cur)
    }
}

/// The lines that `split_lines` makes of `s`, as views.
pub open spec fn split_lines_view(s: Seq<char>) -> Seq<LineView> {
    lines_of(s).map_values(|t: Seq<char>| measured_line(t))
}

/// `n` is the indentation of `s` exactly when the first `n` characters are
/// spaces and the next one, if any, is not.
pub proof fn lemma_indentation_char(s: Seq<char>, n: nat)
    ensures
        indentation_of(s) == n <==> (space_prefix(s, n as int) && (n == s.len() || s[n as int]
            != ' ')),
{
    lemma_indentation_facts(s);
    let m = indentation_of(s);
    if space_prefix(s, n as int) && (n == s.len() || s[n as int] != ' ') {
        if n < m {
            assert(s[n as int] == ' ');
        }
        if m < n {
            assert(s[m as int] == ' ');
        }
    }
}

/// How the indentation changes when a character is appended.
pub proof fn lemma_indentation_push(s: Seq<char>, c: char)
    ensures
        indentation_of(s.push(c)) as int == if indentation_of(s) == s.len() && c == ' ' {
            (s.len() + 1) as int
        } else {
            indentation_of(s) as int
        },
        indentation_of(s) <= s.len(),
{
    let n = indentation_of(s);
    lemma_indentation_char(s, n);
    let t = s.push(c);
    if n == s.len() && c == ' ' {
        let m = (s.len() + 1) as nat;
        assert forall|i: int| 0 <= i < m implies #[trigger] t[i] == ' ' by {
            if i < s.len() {
                assert(s[i] == ' ');
            }
        }
        lemma_indentation_char(t, m);
    } else {
        assert forall|i: int| 0 <= i < n implies #[trigger] t[i] == ' ' by {
            assert(s[i] == ' ');
        }
        if n < s.len() {
            assert(t[n as int] == s[n as int]);
        }
        lemma_indentation_char(t, n);
    }
}

/// The first `n` characters of `s` are spaces, so they are ASCII.
pub proof fn lemma_space_prefix_ascii(s: Seq<char>, n: int)
    requires
        space_prefix(s, n),
    ensures
        is_ascii_chars(s.take(n)),
{
    assert forall|i: int| 0 <= i < n implies '\0' <= #[trigger] s[i] <= '\u{7f}' by {
        assert(s[i] == ' ');
    }
    crate::parser::text::lemma_ascii_take(s, n);
}

/// The number of leading space characters of `s`.
pub(crate) fn leading_spaces(s: &str) -> (n: usize)
    ensures
        n == indentation_of(s@),
{
    let n_bytes = s.as_bytes().len();
    proof {
        lemma_encode_len(s@);
    }
    let mut n: usize = 0;
    for c in it: s.chars()
        invariant
            it.seq() == s@,
            s@.len() <= n_bytes,
            n == it.index(),
            space_prefix(s@, n as int),
    {
        if c != ' ' {
            proof {
                lemma_indentation_char(s@, n as nat);
            }
            return n;
        }
        n = n + 1;
    }
    proof {
        lemma_indentation_char(s@, n as nat);
    }
    n
}

impl Line {
    /// Returns `true` if this line is blank (empty or contains only spaces).
    pub fn is_blank(&self) -> (r: bool)
        ensures
            r == is_blank_view(self@),
    {
        let s = self.raw.as_str();
        for c in it: s.chars()
            invariant
                it.seq() == self.raw@,
                forall|j: int| 0 <= j < it.index() ==> #[trigger] self.raw@[j] == ' ',
        {
            if c != ' ' {
                return false;
            }
        }
        true
    }

    /// Returns the line text with leading whitespace removed (zero-copy).
    pub fn content(&self) -> (r: &str)
        ensures
            r@ == content_view(self@),
    {
        let s = self.raw.as_str();
        let n = leading_spaces(s);
        proof {
            lemma_indentation_char(s@, n as nat);
            lemma_space_prefix_ascii(s@, n as int);
            lemma_ascii_prefix_split(s@, n as int);
        }
        let (_, rest) = s.split_at(n);
        rest
    }

    /// Returns the full line text including leading whitespace (zero-copy).
    pub fn full_text(&self) -> (r: &str)
        ensures
            r@ == self.raw@,
    {
        self.raw.as_str()
    }
}

/// No character of `s` is a carriage return.
pub open spec fn no_cr(s: Seq<char>) -> bool {
    forall|j: int| 0 <= j < s.len() ==> #[trigger] s[j] != '\r'
}

/// No character of `s` is a line feed.
pub open spec fn no_lf(s: Seq<char>) -> bool {
    forall|j: int| 0 <= j < s.len() ==> #[trigger] s[j] != '\n'
}

/// Each line followed by a line feed, all concatenated.
pub open spec fn terminated(ls: Seq<Seq<char>>) -> Seq<char>
    decreases ls.len(),
{
    if ls.len() == 0 {
        Seq::empty()
    } else {
        terminated(ls.drop_last()) + ls.last().push('\n')
    }
}

proof fn lemma_newline_split(s: Seq<char>)
    ensures
        forall|k: int| 0 <= k < newline_split(s).0.len() ==> no_lf(#[trigger] newline_split(s).0[k]),
        no_lf(newline_split(s).1),
        newline_split(s).1.len() <= s.len(),
        newline_split(s).1 == s.subrange(s.len() - newline_split(s).1.len(), s.len() as int),
        newline_split(s).1.len() == 0 && s.len() > 0 ==> s.last() == '\n',
        newline_split(s).1.len() > 0 ==> s.last() != '\n',
        no_lf(s) ==> newline_split(s).0.len() == 0 && newline_split(s).1 == s,
        no_cr(s) ==> s == terminated(newline_split(s).0) + newline_split(s).1,
    decreases s.len(),
{
    if s.len() == 0 {
        assert(s.subrange(0, 0) =~= Seq::<char>::empty());
    } else {
        let p = s.drop_last();
        lemma_newline_split(p);
        let (done, cur) = newline_split(p);
        let c = s.last();
        if no_lf(s) {
            assert(no_lf(p));
            assert(s =~= p.push(c));
        }
        if no_cr(s) {
            assert(no_cr(p));
            assert forall|j: int| 0 <= j < cur.len() implies #[trigger] cur[j] != '\r' by {
                assert(cur[j] == p[p.len() - cur.len() + j]);
            }
            if cur.len() > 0 {
                assert(cur.last() != '\r');
            }
        }
        if c == '\n' {
            let line = strip_cr(cur);
            assert(no_lf(line));
            assert(newline_split(s).0 == done.push(line));
            assert forall|k: int| 0 <= k < done.push(line).len() implies no_lf(#[trigger] done.push(line)[k]) by {
                if k < done.len() {
                    assert(done.push(line)[k] == done[k]);
                }
            }
            assert(s.subrange(s.len() as int, s.len() as int) =~= Seq::<char>::empty());
            if no_cr(s) {
                assert(done.push(line).drop_last() =~= done);
                assert(s =~= terminated(done) + cur + seq!['\n']);
                assert(s =~= terminated(done.push(line)) + Seq::<char>::empty());
            }
        } else {
            assert(cur.push(c) =~= s.subrange(s.len() - (cur.len() + 1), s.len() as int));
            assert(no_lf(cur.push(c)));
            if no_cr(s) {
                assert(s =~= p.push(c));
                assert(p == terminated(done) + cur);
                assert(s =~= terminated(done) + cur.push(c));
            }
        }
    }
}

/// No line holds a line feed.
pub proof fn law_lines_have_no_lf(s: Seq<char>)
    ensures
        forall|k: int| 0 <= k < lines_of(s).len() ==> no_lf(#[trigger] lines_of(s)[k]),
{
    lemma_newline_split(s);
    let (done, cur) = newline_split(s);
    if cur.len() > 0 {
        assert forall|k: int| 0 <= k < lines_of(s).len() implies no_lf(#[trigger] lines_of(s)[k]) by {
            if k < done.len() {
                assert(lines_of(s)[k] == done[k]);
            }
        }
    }
}

/// A text with no line feed is a single line, or no line when it is empty:
/// a bare carriage return ends no line.
pub proof fn law_no_lf_single_line(s: Seq<char>)
    requires
        no_lf(s),
    ensures
        lines_of(s) == if s.len() == 0 {
            Seq::<Seq<char>>::empty()
        } else {
            seq![s]
        },
{
    lemma_newline_split(s);
    assert(Seq::<Seq<char>>::empty().push(s) =~= seq![s]);
}

/// Without carriage returns, the lines each followed by a line feed give back
/// the text, with a final line feed added where it had none.
pub proof fn law_lines_rejoin(s: Seq<char>)
    requires
        no_cr(s),
    ensures
        terminated(lines_of(s)) == if s.len() == 0 || s.last() == '\n' {
            s
        } else {
            s.push('\n')
        },
{
    lemma_newline_split(s);
    let (done, cur) = newline_split(s);
    if cur.len() == 0 {
        assert(s =~= terminated(done));
    } else {
        assert(done.push(cur).drop_last() =~= done);
        assert(terminated(done.push(cur)) =~= s.push('\n'));
    }
}

/// Every line that `split_lines` makes records as its indentation the number
/// of its leading spaces: its text is that many spaces followed by its
/// content, the content does not start with a space, and the line is blank
/// exactly when its content is empty.
pub proof fn law_split_lines_measured(s: Seq<char>)
    ensures
        forall|k: int| 0 <= k < split_lines_view(s).len() ==> {
            let v = #[trigger] split_lines_view(s)[k];
            &&& v.indentation == indentation_of(v.raw)
            &&& space_prefix(v.raw, v.indentation as int)
            &&& v.raw == v.raw.take(v.indentation as int) + content_view(v)
            &&& (content_view(v).len() == 0 || content_view(v)[0] != ' ')
            &&& (is_blank_view(v) <==> content_view(v).len() == 0)
        },
{
    assert forall|k: int| 0 <= k < split_lines_view(s).len() implies {
        let v = #[trigger] split_lines_view(s)[k];
        &&& v.indentation == indentation_of(v.raw)
        &&& space_prefix(v.raw, v.indentation as int)
        &&& v.raw == v.raw.take(v.indentation as int) + content_view(v)
        &&& (content_view(v).len() == 0 || content_view(v)[0] != ' ')
        &&& (is_blank_view(v) <==> content_view(v).len() == 0)
    } by {
        let v = split_lines_view(s)[k];
        let n = v.indentation as int;
        lemma_indentation_char(v.raw, v.indentation);
        assert(v.raw =~= v.raw.take(n) + content_view(v));
        if content_view(v).len() > 0 {
            assert(content_view(v)[0] == v.raw[n]);
        }
        if content_view(v).len() == 0 {
            assert forall|j: int| 0 <= j < v.raw.len() implies #[trigger] v.raw[j] == ' ' by {}
        }
        if is_blank_view(v) && n < v.raw.len() {
            assert(v.raw[n] == ' ');
        }
    }
}

/// `s` with a carriage return put before every line feed.
pub open spec fn with_crlf(s: Seq<char>) -> Seq<char>
    decreases s.len(),
{
    if s.len() == 0 {
        Seq::empty()
    } else if s.last() == '\n' {
        with_crlf(s.drop_last()).push('\r').push('\n')
    } else {
        with_crlf(s.drop_last()).push(s.last())
    }
}

proof fn lemma_newline_split_crlf(s: Seq<char>)
    requires
        no_cr(s),
    ensures
        newline_split(with_crlf(s)) == newline_split(s),
    decreases s.len(),
{
    if s.len() > 0 {
        let p = s.drop_last();
        assert(no_cr(p));
        lemma_newline_split_crlf(p);
        lemma_newline_split(p);
        let (done, cur) = newline_split(p);
        assert forall|j: int| 0 <= j < cur.len() implies #[trigger] cur[j] != '\r' by {
            assert(cur[j] == p[p.len() - cur.len() + j]);
        }
        if s.last() == '\n' {
            let w = with_crlf(p).push('\r');
            assert(w.drop_last() =~= with_crlf(p));
            assert(w.push('\n').drop_last() =~= w);
            assert(newline_split(w) == (done, cur.push('\r')));
            assert(strip_cr(cur.push('\r')) =~= cur);
            if cur.len() > 0 {
                assert(cur.last() != '\r');
            }
            assert(strip_cr(cur) == cur);
        } else {
            assert(with_crlf(s).drop_last() =~= with_crlf(p));
        }
    }
}

/// LF and CRLF line endings give the same lines.
pub proof fn law_crlf_same_lines(s: Seq<char>)
    requires
        no_cr(s),
    ensures
        lines_of(with_crlf(s)) == lines_of(s),
{
    lemma_newline_split_crlf(s);
}

/// The lines joined with a line feed between each two.
pub open spec fn joined(ls: Seq<Seq<char>>) -> Seq<char>
    decreases ls.len(),
{
    if ls.len() == 0 {
        Seq::empty()
    } else if ls.len() == 1 {
        ls[0]
    } else {
        joined(ls.drop_last()) + seq!['\n'] + ls.last()
    }
}

/// `s` without its last character if that is a line feed.
pub open spec fn without_final_lf(s: Seq<char>) -> Seq<char> {
    if s.len() > 0 && s.last() == '\n' {
        s.drop_last()
    } else {
        s
    }
}

/// Every carriage return of `s` is directly followed by a line feed.
pub open spec fn cr_only_before_lf(s: Seq<char>) -> bool {
    forall|j: int| 0 <= j < s.len() && #[trigger] s[j] == '\r' ==> j + 1 < s.len() && s[j + 1] == '\n'
}

/// `s` with its carriage returns removed. When every carriage return is
/// followed by a line feed, this is `s` with each CRLF replaced by LF.
pub open spec fn remove_cr(s: Seq<char>) -> Seq<char>
    decreases s.len(),
{
    if s.len() == 0 {
        Seq::empty()
    } else if s.last() == '\r' {
        remove_cr(s.drop_last())
    } else {
        remove_cr(s.drop_last()).push(s.last())
    }
}

proof fn lemma_remove_cr(s: Seq<char>)
    requires
        forall|j: int| 0 <= j < s.len() - 1 && #[trigger] s[j] == '\r' ==> s[j + 1] == '\n',
    ensures
        no_cr(remove_cr(s)),
        newline_split(s).0 == newline_split(remove_cr(s)).0,
        newline_split(s).1 == if s.len() > 0 && s.last() == '\r' {
            newline_split(remove_cr(s)).1.push('\r')
        } else {
            newline_split(remove_cr(s)).1
        },
    decreases s.len(),
{
    if s.len() > 0 {
        let q = s.drop_last();
        let c = s.last();
        assert forall|j: int| 0 <= j < q.len() - 1 && #[trigger] q[j] == '\r' implies q[j + 1] == '\n' by {
            assert(s[j] == q[j] && s[j + 1] == q[j + 1]);
        }
        lemma_remove_cr(q);
        let r = remove_cr(q);
        lemma_newline_split(r);
        let (done, cur) = newline_split(r);
        assert forall|j: int| 0 <= j < cur.len() implies #[trigger] cur[j] != '\r' by {
            assert(cur[j] == r[r.len() - cur.len() + j]);
        }
        if q.len() > 0 && q.last() == '\r' {
            assert(s[q.len() - 1] == '\r');
            assert(c == '\n');
        }
        if c == '\n' {
            assert(remove_cr(s) == r.push('\n'));
            assert(remove_cr(s).drop_last() =~= r);
            if q.len() > 0 && q.last() == '\r' {
                assert(strip_cr(cur.push('\r')) =~= cur);
            }
            if cur.len() > 0 {
                assert(cur.last() != '\r');
            }
        } else if c == '\r' {
            assert(remove_cr(s) == r);
        } else {
            assert(remove_cr(s) == r.push(c));
            assert(remove_cr(s).drop_last() =~= r);
        }
        assert forall|j: int| 0 <= j < remove_cr(s).len() implies #[trigger] remove_cr(s)[j] != '\r' by {
            if j < r.len() {
                assert(remove_cr(s)[j] == r[j]);
            }
        }
    }
}

proof fn lemma_terminated_joined(ls: Seq<Seq<char>>)
    ensures
        terminated(ls) == if ls.len() == 0 {
            Seq::<char>::empty()
        } else {
            joined(ls).push('\n')
        },
    decreases ls.len(),
{
    if ls.len() > 0 {
        lemma_terminated_joined(ls.drop_last());
        if ls.len() == 1 {
            assert(ls.drop_last().len() == 0);
            assert(terminated(ls) =~= ls[0].push('\n'));
        } else {
            assert(terminated(ls) =~= joined(ls).push('\n'));
        }
    }
}

/// The lines joined with line feeds give the text with each CRLF replaced by
/// LF and without a final line feed, when every carriage return of the text
/// is part of a CRLF.
pub proof fn law_lines_join(s: Seq<char>)
    requires
        cr_only_before_lf(s),
    ensures
        joined(lines_of(s)) == without_final_lf(remove_cr(s)),
{
    lemma_remove_cr(s);
    if s.len() > 0 && s.last() == '\r' {
        assert(s[s.len() - 1] == '\r');
    }
    let r = remove_cr(s);
    assert(lines_of(s) == lines_of(r));
    law_lines_rejoin(r);
    lemma_terminated_joined(lines_of(r));
    let ls = lines_of(r);
    if ls.len() == 0 {
        assert(r.len() == 0);
    } else {
        assert(joined(ls).push('\n').drop_last() =~= joined(ls));
    }
}

/// Split normalized input into lines.
///
/// Supports LF and CRLF line endings. A bare CR (not followed by LF) is NOT
/// recognized as a line terminator.
///
/// Each line records its indentation (count of leading spaces) and stores the
/// raw text for zero-copy access via `content()` and `full_text()`.
pub fn split_lines(input: &str) -> (r: Vec<Line>)
    ensures
        lines_view(r@) == split_lines_view(input@),
{
    let n_bytes = input.as_bytes().len();
    proof {
        lemma_encode_len(input@);
    }
    let mut lines: Vec<Line> = Vec::new();
    let mut cur = String::new();
    let mut pending_cr = false;
    let mut ind: usize = 0;
    let mut cur_len: usize = 0;
    for c in it: input.chars()
        invariant
            it.seq() == input@,
            input@.len() <= n_bytes,
            ({
                let (done, tail) = newline_split(it.seq().take(it.index()));
                &&& lines_view(lines@) == done.map_values(|t: Seq<char>| measured_line(t))
                &&& tail == if pending_cr { cur@.push('\r') } else { cur@ }
            }),
            !pending_cr ==> cur@.len() == 0 || cur@.last() != '\r',
            ind == indentation_of(cur@),
            cur_len == cur@.len(),
            cur@.len() + (if pending_cr { 1int } else { 0int }) <= it.index(),
    {
        let ghost prefix = it.seq().take(it.index());
        let ghost next = it.seq().take(it.index() + 1);
        proof {
            assert(next.drop_last() =~= prefix);
            assert(next.last() == c);
        }
        if c == '\n' {
            let line = Line { raw: cur, indentation: ind };
            proof {
                let (done, tail) = newline_split(prefix);
                assert(strip_cr(tail) == line.raw@);
                assert(lines_view(lines@.push(line)) =~= lines_view(lines@).push(line@));
                assert(done.push(strip_cr(tail)).map_values(|t: Seq<char>| measured_line(t))
                    =~= done.map_values(|t: Seq<char>| measured_line(t)).push(measured_line(strip_cr(tail))));
            }
            lines.push(line);
            cur = String::new();
            pending_cr = false;
            ind = 0;
            cur_len = 0;
        } else if c == '\r' && !pending_cr {
            pending_cr = true;
        } else {
            if pending_cr {
                proof {
                    lemma_indentation_push(cur@, '\r');
                }
                push_char(&mut cur, '\r');
                cur_len = cur_len + 1;
                pending_cr = c == '\r';
            }
            if !(c == '\r') {
                proof {
                    lemma_indentation_push(cur@, c);
                }
                if ind == cur_len && c == ' ' {
                    ind = ind + 1;
                }
                push_char(&mut cur, c);
                cur_len = cur_len + 1;
            }
        }
    }
    if pending_cr {
        proof {
            lemma_indentation_push(cur@, '\r');
        }
        push_char(&mut cur, '\r');
    }
    if !cur.as_str().is_empty() {
        let line = Line { raw: cur, indentation: ind };
        proof {
            let (done, tail) = newline_split(input@);
            assert(lines_view(lines@.push(line)) =~= lines_view(lines@).push(line@));
            assert(done.push(tail).map_values(|t: Seq<char>| measured_line(t))
                =~= done.map_values(|t: Seq<char>| measured_line(t)).push(measured_line(tail)));
        }
        lines.push(line);
    }
    proof {
        assert(input@.take(input@.len() as int) =~= input@);
    }
    lines
}

} // verus!
