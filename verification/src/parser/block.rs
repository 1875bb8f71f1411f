//! Splitting a document's lines into blocks.

use vstd::prelude::*;
use vstd::utf8::*;
use crate::parser::header::{HeaderView, InvocationHeader, header_of, starts_with_marker};
use crate::parser::line::{Line, LineView, content_view, is_blank_view, lines_view};
use crate::parser::text::{lemma_ascii_prefix_split, lemma_ascii_take, lemma_encode_ascii,
    lemma_encode_len, lemma_first_byte};

verus! {

/// The abstract value of an [`Invocation`].
pub struct InvocationView {
    pub header: HeaderView,
    pub lines: Seq<LineView>,
}

/// The abstract value of a [`BlockKind`].
pub enum BlockKindView {
    Natural(Seq<LineView>),
    Invocation(InvocationView),
}

/// The abstract value of a [`Block`].
pub struct BlockView {
    pub base_indentation: nat,
    pub id: nat,
    pub content: BlockKindView,
}

/// A natural block.
///
/// Natural blocks are formed by consecutive non-blank lines that are not part
/// of an invocation block. Leading whitespace on each line is ignored during
/// rendering, but the [`Line`] metadata (indentation, raw text) is preserved
/// for source-level introspection.
#[derive(Debug, Clone, PartialEq, Eq)]
pub struct Natural {
    /// The lines that make up this natural block.
    pub lines: Vec<Line>,
}

/// An invocation block.
///
/// Invocation blocks are used to call templates, functions, or render nested
/// content. They begin with a `::` header line and contain all subsequent
/// lines whose indentation is strictly greater than that of the header line.
///
/// Nested `::` lines appear as regular interior lines at this stage and are
/// handled during recursive parsing later.
///
/// An invocation block may have an empty interior (header line only).
#[derive(Debug, Clone, PartialEq, Eq)]
pub struct Invocation {
    /// The parsed header from the `::` line.
    pub header: InvocationHeader,
    /// Interior lines, stored with their original indentation.
    ///
    /// Blank lines that appear between content lines are materialized as
    /// empty [`Line`]s with `indentation == base_indentation`. Trailing blank
    /// lines are not included.
    pub lines: Vec<Line>,
}

/// The kind of a block.
#[derive(Debug, Clone, PartialEq, Eq)]
pub enum BlockKind {
    /// A natural block — plain text.
    Natural(Natural),
    /// An invocation block — template/function call with nested content.
    Invocation(Invocation),
}

/// A top-level block in a Neomark document.
#[derive(Debug, Clone, PartialEq, Eq)]
pub struct Block {
    /// Indentation of the block's first line within the document.
    pub base_indentation: usize,
    /// Reserved unique identifier (for future incremental-parsing use).
    pub id: u128,
    /// The content of this block.
    pub content: BlockKind,
}

impl View for Natural {
    type V = Seq<LineView>;

    open spec fn view(&self) -> Seq<LineView> {
        lines_view(self.lines@)
    }
}

impl View for Invocation {
    type V = InvocationView;

    open spec fn view(&self) -> InvocationView {
        InvocationView { header: self.header@, lines: lines_view(self.lines@) }
    }
}

impl View for BlockKind {
    type V = BlockKindView;

    open spec fn view(&self) -> BlockKindView {
        match self {
            BlockKind::Natural(n) => BlockKindView::Natural(n@),
            BlockKind::Invocation(inv) => BlockKindView::Invocation(inv@),
        }
    }
}

impl View for Block {
    type V = BlockView;

    open spec fn view(&self) -> BlockView {
        BlockView {
            base_indentation: self.base_indentation as nat,
            id: self.id as nat,
            content: self.content@,
        }
    }
}

/// The views of a sequence of blocks.
pub open spec fn blocks_view(bs: Seq<Block>) -> Seq<BlockView> {
    bs.map_values(|b: Block| b@)
}

// ── The block structure ───────────────────────────────────────────────────

/// A line whose content starts with `::`.
pub open spec fn is_header_view(v: LineView) -> bool {
    starts_with_marker(content_view(v))
}

/// Where the interior of an invocation whose header has indentation `base`
/// stops, scanning from `j`: at the first non-blank line that is not indented
/// deeper than `base`, or at the end.
pub open spec fn invocation_end(ls: Seq<LineView>, j: int, base: nat) -> int
    decreases ls.len() - j,
{
    if 0 <= j < ls.len() && (is_blank_view(ls[j]) || ls[j].indentation > base) {
        invocation_end(ls, j + 1, base)
    } else {
        j
    }
}

/// `to` moved back over the blank lines that end the range `from..to`.
pub open spec fn trim_end(ls: Seq<LineView>, from: int, to: int) -> int
    decreases to - from,
{
    if from < to && is_blank_view(ls[to - 1]) {
        trim_end(ls, from, to - 1)
    } else {
        to
    }
}

/// How an interior line is stored: a blank line becomes an empty line at the
/// base indentation, any other line is kept.
pub open spec fn interior_line(v: LineView, base: nat) -> LineView {
    if is_blank_view(v) {
        LineView { raw: Seq::empty(), indentation: base }
    } else {
        v
    }
}

/// Where a natural block starting at `j` stops: at the first blank line or
/// `::` line, or at the end.
pub open spec fn natural_end(ls: Seq<LineView>, j: int) -> int
    decreases ls.len() - j,
{
    if 0 <= j < ls.len() && !is_blank_view(ls[j]) && !is_header_view(ls[j]) {
        natural_end(ls, j + 1)
    } else {
        j
    }
}

/// The invocation block whose header is line `i`.
pub open spec fn invocation_at(ls: Seq<LineView>, i: int) -> BlockView {
    let base = ls[i].indentation;
    let end = invocation_end(ls, i + 1, base);
    let last = trim_end(ls, i + 1, end);
    BlockView {
        base_indentation: base,
        id: 0,
        content: BlockKindView::Invocation(
            InvocationView {
                header: header_of(content_view(ls[i])),
                lines: ls.subrange(i + 1, last).map_values(|v: LineView| interior_line(v, base)),
            },
        ),
    }
}

/// The natural block that starts at line `i`; its base indentation is that
/// of its first line.
pub open spec fn natural_at(ls: Seq<LineView>, i: int) -> BlockView {
    BlockView {
        base_indentation: ls[i].indentation,
        id: 0,
        content: BlockKindView::Natural(ls.subrange(i, natural_end(ls, i))),
    }
}

/// The blocks of the lines from `i` on.
pub open spec fn blocks_from(ls: Seq<LineView>, i: int) -> Seq<BlockView>
    decreases ls.len() - i,
{
    if i < 0 || i >= ls.len() {
        Seq::empty()
    } else if is_blank_view(ls[i]) {
        blocks_from(ls, i + 1)
    } else if is_header_view(ls[i]) {
        proof {
            lemma_invocation_end(ls, i + 1, ls[i].indentation);
        }
        seq![invocation_at(ls, i)] + blocks_from(ls, invocation_end(ls, i + 1, ls[i].indentation))
    } else {
        proof {
            lemma_natural_end(ls, i);
        }
        seq![natural_at(ls, i)] + blocks_from(ls, natural_end(ls, i))
    }
}

pub proof fn lemma_invocation_end(ls: Seq<LineView>, j: int, base: nat)
    requires
        0 <= j <= ls.len(),
    ensures
        j <= invocation_end(ls, j, base) <= ls.len(),
        forall|k: int|
            j <= k < invocation_end(ls, j, base) ==> is_blank_view(#[trigger] ls[k])
                || ls[k].indentation > base,
        invocation_end(ls, j, base) < ls.len() ==> !is_blank_view(
            ls[invocation_end(ls, j, base)],
        ) && ls[invocation_end(ls, j, base)].indentation <= base,
    decreases ls.len() - j,
{
    if j < ls.len() && (is_blank_view(ls[j]) || ls[j].indentation > base) {
        lemma_invocation_end(ls, j + 1, base);
    }
}

pub proof fn lemma_natural_end(ls: Seq<LineView>, j: int)
    requires
        0 <= j <= ls.len(),
    ensures
        j <= natural_end(ls, j) <= ls.len(),
        forall|k: int|
            j <= k < natural_end(ls, j) ==> !is_blank_view(#[trigger] ls[k]) && !is_header_view(
                ls[k],
            ),
        natural_end(ls, j) < ls.len() ==> is_blank_view(ls[natural_end(ls, j)])
            || is_header_view(ls[natural_end(ls, j)]),
    decreases ls.len() - j,
{
    if j < ls.len() && !is_blank_view(ls[j]) && !is_header_view(ls[j]) {
        lemma_natural_end(ls, j + 1);
    }
}

pub proof fn lemma_trim_end(ls: Seq<LineView>, from: int, to: int)
    requires
        from <= to,
    ensures
        from <= trim_end(ls, from, to) <= to,
        forall|k: int| trim_end(ls, from, to) <= k < to ==> is_blank_view(#[trigger] ls[k]),
        trim_end(ls, from, to) == from || !is_blank_view(ls[trim_end(ls, from, to) - 1]),
    decreases to - from,
{
    if from < to && is_blank_view(ls[to - 1]) {
        lemma_trim_end(ls, from, to - 1);
    }
}

// ── Laws of the block structure ───────────────────────────────────────────

/// A block as `split_blocks` makes it: id 0; a natural block holds one or
/// more lines, none blank and none a `::` line, and is at the indentation of
/// its first line;
/// an invocation block's interior lines are each either a non-blank line
/// indented deeper than the header or an empty line at the header's
/// indentation, and the last of them is not blank.
pub open spec fn well_shaped(b: BlockView) -> bool {
    &&& b.id == 0
    &&& match b.content {
        BlockKindView::Natural(lines) => {
            &&& lines.len() > 0
            &&& b.base_indentation == lines[0].indentation
            &&& forall|j: int|
                0 <= j < lines.len() ==> !is_blank_view(#[trigger] lines[j]) && !is_header_view(
                    lines[j],
                )
        },
        BlockKindView::Invocation(inv) => {
            &&& forall|j: int|
                0 <= j < inv.lines.len() ==> (!is_blank_view(#[trigger] inv.lines[j])
                    && inv.lines[j].indentation > b.base_indentation) || (inv.lines[j].raw.len()
                    == 0 && inv.lines[j].indentation == b.base_indentation)
            &&& inv.lines.len() > 0 ==> !is_blank_view(inv.lines.last())
        },
    }
}

proof fn lemma_natural_well_shaped(ls: Seq<LineView>, i: int)
    requires
        0 <= i < ls.len(),
        !is_blank_view(ls[i]),
        !is_header_view(ls[i]),
    ensures
        well_shaped(natural_at(ls, i)),
{
    lemma_natural_end(ls, i);
    let lines = ls.subrange(i, natural_end(ls, i));
    assert forall|j: int| 0 <= j < lines.len() implies !is_blank_view(#[trigger] lines[j])
        && !is_header_view(lines[j]) by {
        assert(lines[j] == ls[i + j]);
    }
}

proof fn lemma_invocation_well_shaped(ls: Seq<LineView>, i: int)
    requires
        0 <= i < ls.len(),
    ensures
        well_shaped(invocation_at(ls, i)),
{
    let base = ls[i].indentation;
    lemma_invocation_end(ls, i + 1, base);
    let end = invocation_end(ls, i + 1, base);
    lemma_trim_end(ls, i + 1, end);
    let last = trim_end(ls, i + 1, end);
    let lines = ls.subrange(i + 1, last).map_values(|v: LineView| interior_line(v, base));
    assert forall|j: int| 0 <= j < lines.len() implies (!is_blank_view(#[trigger] lines[j])
        && lines[j].indentation > base) || (lines[j].raw.len() == 0 && lines[j].indentation
        == base) by {
        assert(lines[j] == interior_line(ls[i + 1 + j], base));
    }
    if lines.len() > 0 {
        assert(lines.last() == interior_line(ls[last - 1], base));
    }
}

proof fn lemma_well_shaped_from(ls: Seq<LineView>, i: int)
    requires
        0 <= i <= ls.len(),
    ensures
        forall|k: int| 0 <= k < blocks_from(ls, i).len() ==> well_shaped(#[trigger] blocks_from(ls, i)[k]),
    decreases ls.len() - i,
{
    if i < ls.len() {
        if is_blank_view(ls[i]) {
            lemma_well_shaped_from(ls, i + 1);
            assert(blocks_from(ls, i) == blocks_from(ls, i + 1));
        } else if is_header_view(ls[i]) {
            lemma_invocation_end(ls, i + 1, ls[i].indentation);
            let end = invocation_end(ls, i + 1, ls[i].indentation);
            lemma_well_shaped_from(ls, end);
            lemma_invocation_well_shaped(ls, i);
            assert forall|k: int| 0 <= k < blocks_from(ls, i).len() implies well_shaped(#[trigger] blocks_from(ls, i)[k]) by {
                if k == 0 {
                    assert(blocks_from(ls, i)[0] == invocation_at(ls, i));
                } else {
                    assert(blocks_from(ls, i)[k] == blocks_from(ls, end)[k - 1]);
                }
            }
        } else {
            lemma_natural_end(ls, i);
            let end = natural_end(ls, i);
            lemma_well_shaped_from(ls, end);
            lemma_natural_well_shaped(ls, i);
            assert forall|k: int| 0 <= k < blocks_from(ls, i).len() implies well_shaped(#[trigger] blocks_from(ls, i)[k]) by {
                if k == 0 {
                    assert(blocks_from(ls, i)[0] == natural_at(ls, i));
                } else {
                    assert(blocks_from(ls, i)[k] == blocks_from(ls, end)[k - 1]);
                }
            }
        }
    }
}

/// Every block has the shape described by [`well_shaped`].
pub proof fn law_blocks_well_shaped(ls: Seq<LineView>)
    ensures
        forall|k: int| 0 <= k < blocks_from(ls, 0).len() ==> well_shaped(#[trigger] blocks_from(ls, 0)[k]),
{
    lemma_well_shaped_from(ls, 0);
}

/// Where the blocks of the lines from `i` on start.
pub open spec fn block_starts(ls: Seq<LineView>, i: int) -> Seq<int>
    decreases ls.len() - i,
{
    if i < 0 || i >= ls.len() {
        Seq::empty()
    } else if is_blank_view(ls[i]) {
        block_starts(ls, i + 1)
    } else if is_header_view(ls[i]) {
        proof {
            lemma_invocation_end(ls, i + 1, ls[i].indentation);
        }
        seq![i] + block_starts(ls, invocation_end(ls, i + 1, ls[i].indentation))
    } else {
        proof {
            lemma_natural_end(ls, i);
        }
        seq![i] + block_starts(ls, natural_end(ls, i))
    }
}

/// How many source lines a block covers from its start: the lines of a
/// natural block; the header and the interior of an invocation.
pub open spec fn span(b: BlockView) -> nat {
    match b.content {
        BlockKindView::Natural(lines) => lines.len(),
        BlockKindView::Invocation(inv) => inv.lines.len() + 1,
    }
}

/// Block `b` holds the line `v` at `offset` lines from its start: as one of
/// its lines, or, for an invocation, as its header (offset 0) or one of its
/// interior lines.
pub open spec fn holds_line(b: BlockView, offset: int, v: LineView) -> bool {
    match b.content {
        BlockKindView::Natural(lines) => 0 <= offset < lines.len() && lines[offset] == v,
        BlockKindView::Invocation(inv) => {
            ||| (offset == 0 && b.base_indentation == v.indentation && inv.header == header_of(
                content_view(v),
            ))
            ||| (1 <= offset <= inv.lines.len() && inv.lines[offset - 1] == v)
        },
    }
}

/// The start of the block after block `k`, or the end of the lines.
pub open spec fn next_start(st: Seq<int>, k: int, n: int) -> int {
    if k + 1 < st.len() {
        st[k + 1]
    } else {
        n
    }
}

proof fn lemma_partition_from(ls: Seq<LineView>, i: int)
    requires
        0 <= i <= ls.len(),
    ensures
        block_starts(ls, i).len() == blocks_from(ls, i).len(),
        forall|k: int|
            0 <= k < block_starts(ls, i).len() ==> i <= #[trigger] block_starts(ls, i)[k] < ls.len(),
        forall|k: int|
            0 <= k < block_starts(ls, i).len() ==> block_starts(ls, i)[k] + span(
                #[trigger] blocks_from(ls, i)[k],
            ) <= next_start(block_starts(ls, i), k, ls.len() as int),
        forall|j: int|
            i <= j < ls.len() && !is_blank_view(#[trigger] ls[j]) ==> exists|k: int|
                0 <= k < block_starts(ls, i).len() && block_starts(ls, i)[k] <= j && holds_line(
                    #[trigger] blocks_from(ls, i)[k],
                    j - block_starts(ls, i)[k],
                    ls[j],
                ),
    decreases ls.len() - i,
{
    if i < ls.len() {
        let st = block_starts(ls, i);
        let bs = blocks_from(ls, i);
        if is_blank_view(ls[i]) {
            lemma_partition_from(ls, i + 1);
        } else {
            let end = if is_header_view(ls[i]) {
                invocation_end(ls, i + 1, ls[i].indentation)
            } else {
                natural_end(ls, i)
            };
            lemma_invocation_end(ls, i + 1, ls[i].indentation);
            lemma_natural_end(ls, i);
            lemma_partition_from(ls, end);
            let st2 = block_starts(ls, end);
            let bs2 = blocks_from(ls, end);
            assert(st == seq![i] + st2);
            assert(bs == seq![bs[0]] + bs2);
            let b0 = bs[0];
            // The first block's span ends at or before `end`.
            if is_header_view(ls[i]) {
                let base = ls[i].indentation;
                lemma_trim_end(ls, i + 1, end);
                assert(span(b0) == trim_end(ls, i + 1, end) - i);
            } else {
                assert(span(b0) == end - i);
            }
            assert forall|k: int| 0 <= k < st.len() implies st[k] + span(#[trigger] bs[k])
                <= next_start(st, k, ls.len() as int) by {
                if k > 0 {
                    assert(st[k] == st2[k - 1]);
                    assert(bs[k] == bs2[k - 1]);
                    assert(next_start(st, k, ls.len() as int) == next_start(st2, k - 1, ls.len() as int));
                } else if st2.len() > 0 {
                    assert(st2[0] >= end);
                }
            }
            assert forall|k: int| 0 <= k < st.len() implies i <= #[trigger] st[k] < ls.len() by {
                if k > 0 {
                    assert(st[k] == st2[k - 1]);
                }
            }
            assert forall|j: int| i <= j < ls.len() && !is_blank_view(#[trigger] ls[j]) implies exists|k: int|
                0 <= k < st.len() && st[k] <= j && holds_line(#[trigger] bs[k], j - st[k], ls[j]) by {
                if j >= end {
                    let k2 = choose|k2: int|
                        0 <= k2 < st2.len() && st2[k2] <= j && holds_line(#[trigger] bs2[k2], j - st2[k2], ls[j]);
                    assert(st[k2 + 1] == st2[k2]);
                    assert(bs[k2 + 1] == bs2[k2]);
                    assert(holds_line(bs[k2 + 1], j - st[k2 + 1], ls[j]));
                } else if is_header_view(ls[i]) {
                    let base = ls[i].indentation;
                    if j > i {
                        lemma_trim_end(ls, i + 1, end);
                        let last = trim_end(ls, i + 1, end);
                        assert(j < last);
                        let lines = ls.subrange(i + 1, last).map_values(|v: LineView| interior_line(v, base));
                        assert(lines[j - i - 1] == interior_line(ls[j], base));
                    }
                    assert(holds_line(bs[0], j - st[0], ls[j]));
                } else {
                    assert(ls.subrange(i, end)[j - i] == ls[j]);
                    assert(holds_line(bs[0], j - st[0], ls[j]));
                }
            }
        }
    }
}

/// The blocks partition the lines: blocks start at increasing line
/// positions, each block covers its span of lines before the next block
/// starts, and every non-blank line is held by a block at its offset from
/// that block's start, as a natural line, as the header (whose parse the
/// block holds), or as an interior line.
pub proof fn law_blocks_partition(ls: Seq<LineView>)
    ensures
        block_starts(ls, 0).len() == blocks_from(ls, 0).len(),
        forall|k: int|
            0 <= k < block_starts(ls, 0).len() ==> 0 <= #[trigger] block_starts(ls, 0)[k] < ls.len(),
        forall|k: int|
            0 <= k < block_starts(ls, 0).len() ==> block_starts(ls, 0)[k] + span(
                #[trigger] blocks_from(ls, 0)[k],
            ) <= next_start(block_starts(ls, 0), k, ls.len() as int),
        forall|j: int|
            0 <= j < ls.len() && !is_blank_view(#[trigger] ls[j]) ==> exists|k: int|
                0 <= k < block_starts(ls, 0).len() && block_starts(ls, 0)[k] <= j && holds_line(
                    #[trigger] blocks_from(ls, 0)[k],
                    j - block_starts(ls, 0)[k],
                    ls[j],
                ),
{
    lemma_partition_from(ls, 0);
}

proof fn lemma_blank_prefix(ls: Seq<LineView>, j: int, i: int)
    requires
        0 <= j <= i <= ls.len(),
        forall|m: int| j <= m < i ==> is_blank_view(#[trigger] ls[m]),
    ensures
        blocks_from(ls, j) == blocks_from(ls, i),
    decreases i - j,
{
    if j < i {
        lemma_blank_prefix(ls, j + 1, i);
    }
}

/// The first non-blank line decides the first block: when the first
/// character after its leading spaces is followed by another and both are
/// `:`, whatever comes after them, it opens an invocation block at its
/// indentation whose header is read from the text after those spaces; a
/// following line that is not blank and is indented deeper is the first
/// interior line, one that is not blank and not deeper leaves the interior
/// empty. Otherwise the line opens a natural block at its indentation, of
/// which it is the first line.
pub proof fn law_first_block(ls: Seq<LineView>, i: int, p: int)
    requires
        0 <= i < ls.len(),
        forall|j: int, k: int|
            0 <= j < i && 0 <= k < ls[j].raw.len() ==> #[trigger] ls[j].raw[k] == ' ',
        0 <= p < ls[i].raw.len(),
        forall|k: int| 0 <= k < p ==> #[trigger] ls[i].raw[k] == ' ',
        ls[i].raw[p] != ' ',
    ensures
        blocks_from(ls, 0).len() > 0,
        blocks_from(ls, 0)[0].base_indentation == ls[i].indentation,
        blocks_from(ls, 0)[0].id == 0,
        (p + 1 < ls[i].raw.len() && ls[i].raw[p] == ':' && ls[i].raw[p + 1] == ':') ==> {
            &&& blocks_from(ls, 0)[0].content matches BlockKindView::Invocation(inv)
            &&& inv.header == header_of(ls[i].raw.skip(p))
            &&& (i + 1 < ls.len() && (exists|k: int| 0 <= k < ls[i + 1].raw.len() && #[trigger] ls[i + 1].raw[k] != ' ')
                && ls[i + 1].indentation > ls[i].indentation) ==> inv.lines.len() > 0 && inv.lines[0] == ls[i + 1]
            &&& (i + 1 < ls.len() && (exists|k: int| 0 <= k < ls[i + 1].raw.len() && #[trigger] ls[i + 1].raw[k] != ' ')
                && ls[i + 1].indentation <= ls[i].indentation) ==> inv.lines.len() == 0
        },
        !(p + 1 < ls[i].raw.len() && ls[i].raw[p] == ':' && ls[i].raw[p + 1] == ':') ==> {
            &&& blocks_from(ls, 0)[0].content matches BlockKindView::Natural(lines)
            &&& lines.len() > 0
            &&& lines[0] == ls[i]
        },
{
    assert forall|m: int| 0 <= m < i implies is_blank_view(#[trigger] ls[m]) by {
        assert forall|k: int| 0 <= k < ls[m].raw.len() implies #[trigger] ls[m].raw[k] == ' ' by {
            assert(ls[m].raw[k] == ' ');
        }
    }
    lemma_blank_prefix(ls, 0, i);
    let v = ls[i];
    assert(!is_blank_view(v)) by {
        assert(v.raw[p] != ' ');
    }
    crate::parser::line::lemma_indentation_char(v.raw, p as nat);
    assert(content_view(v) == v.raw.skip(p));
    let c = content_view(v);
    let marker = p + 1 < v.raw.len() && v.raw[p] == ':' && v.raw[p + 1] == ':';
    if marker {
        assert(c[0] == ':' && c[1] == ':');
        assert(is_header_view(v));
        let base = v.indentation;
        lemma_invocation_end(ls, i + 1, base);
        let end = invocation_end(ls, i + 1, base);
        lemma_trim_end(ls, i + 1, end);
        let last = trim_end(ls, i + 1, end);
        assert(blocks_from(ls, i)[0] == invocation_at(ls, i));
        if i + 1 < ls.len() && (exists|k: int| 0 <= k < ls[i + 1].raw.len() && #[trigger] ls[i + 1].raw[k] != ' ') {
            let k = choose|k: int| 0 <= k < ls[i + 1].raw.len() && #[trigger] ls[i + 1].raw[k] != ' ';
            assert(!is_blank_view(ls[i + 1])) by {
                assert(ls[i + 1].raw[k] != ' ');
            }
            if ls[i + 1].indentation > base {
                assert(end > i + 1);
                assert(last > i + 1) by {
                    if last == i + 1 {
                        assert(is_blank_view(ls[i + 1]));
                    }
                }
                let lines = ls.subrange(i + 1, last).map_values(|w: LineView| interior_line(w, base));
                assert(lines[0] == interior_line(ls[i + 1], base));
            } else {
                assert(end == i + 1);
                assert(last == i + 1);
            }
        }
    } else {
        if c.len() >= 2 {
            assert(c[0] == v.raw[p] && c[1] == v.raw[p + 1]);
        }
        assert(!is_header_view(v));
        lemma_natural_end(ls, i);
        assert(blocks_from(ls, i)[0] == natural_at(ls, i));
        assert(ls.subrange(i, natural_end(ls, i))[0] == ls[i]);
    }
}

// ── Splitting ─────────────────────────────────────────────────────────────

/// Whether the line's content starts with `::`.
fn is_header_line(line: &Line) -> (r: bool)
    ensures
        r == is_header_view(line@),
{
    let content = line.content();
    let bytes = content.as_bytes();
    let r = bytes.len() >= 2 && bytes[0] == 0x3Au8 && bytes[1] == 0x3Au8;
    proof {
        let c = content@;
        let b = encode_utf8(c);
        assert(b == bytes@);
        lemma_encode_len(c);
        if starts_with_marker(c) {
            assert(c[0] == ':' && c[1] == ':');
            lemma_ascii_take(c, 2);
            lemma_ascii_prefix_split(c, 2);
            lemma_encode_ascii(c.take(2));
            assert(b[0] == b.subrange(0, 2)[0]);
            assert(b[1] == b.subrange(0, 2)[1]);
        }
        if r {
            lemma_first_byte(c);
            assert(b.drop_first()[0] == 0x3A);
            lemma_first_byte(c.drop_first());
            assert(c.drop_first()[0] == c[1]);
            char_u32_cast(c.drop_first()[0], 0x3Au32);
            char_u32_cast(c[0], 0x3Au32);
        }
    }
    r
}

impl Line {
    /// A copy of the line.
    fn duplicate(&self) -> (r: Line)
        ensures
            r@ == self@,
    {
        Line { raw: self.raw.clone(), indentation: self.indentation }
    }
}

/// Split a sequence of [`Line`]s into [`Block`]s.
///
/// # Algorithm
///
/// 1. **Skip blank lines** between blocks — consecutive blank lines are
///    collapsed into a single separator.
///
/// 2. **Invocation block** — if a non-blank line's [`content`](Line::content)
///    starts with `::`:
///    - Record the line's indentation as `base_indentation`.
///    - Collect subsequent lines whose `indentation > base_indentation`.
///    - Blank lines among the interior are counted and lazily materialized
///      only when the next content line is encountered — this naturally
///      trims trailing blank lines without an extra pass.
///    - An invocation block may have an empty interior (just the header).
///
/// 3. **Natural block** — otherwise:
///    - Collect consecutive non-blank lines that don't start with `::`.
///    - Stop at the first blank line or `::` line.
///    - The block's base indentation is that of its first line.
pub fn split_blocks(lines: &[Line]) -> (r: Vec<Block>)
    ensures
        blocks_view(r@) == blocks_from(lines_view(lines@), 0),
{
    let ghost ls = lines_view(lines@);
    let mut blocks: Vec<Block> = Vec::new();
    let mut i: usize = 0;
    let n = lines.len();

    while i < n
        invariant
            ls == lines_view(lines@),
            n == lines@.len(),
            ls.len() == n,
            0 <= i <= n,
            blocks_view(blocks@) + blocks_from(ls, i as int) == blocks_from(ls, 0),
        decreases n - i,
    {
        let ghost start = i as int;
        proof {
            assert(ls[start] == lines@[start]@);
        }
        if lines[i].is_blank() {
            // Skip blank lines between blocks
            i = i + 1;
        } else if is_header_line(&lines[i]) {
            let base_indentation = lines[i].indentation;
            let header = InvocationHeader::parse(&lines[i]);
            i = i + 1;

            // Collect interior lines. Blank lines are counted (empty_line)
            // and materialized only when a non-blank content line follows,
            // so trailing blanks are never flushed.
            let mut interior: Vec<Line> = Vec::new();
            let mut empty_line: usize = 0;
            let ghost base = base_indentation as nat;
            proof {
                lemma_invocation_end(ls, start + 1, base);
            }
            while i < n && (lines[i].is_blank() || lines[i].indentation > base_indentation)
                invariant
                    ls == lines_view(lines@),
                    n == lines@.len(),
                    ls.len() == n,
                    base == base_indentation as nat,
                    start + 1 <= i <= n,
                    0 <= start < n,
                    invocation_end(ls, i as int, base) == invocation_end(ls, start + 1, base),
                    empty_line <= i - (start + 1),
                    trim_end(ls, start + 1, i as int) == i - empty_line,
                    forall|k: int| i - empty_line <= k < i ==> is_blank_view(#[trigger] ls[k]),
                    lines_view(interior@) == ls.subrange(start + 1, i - empty_line).map_values(
                        |v: LineView| interior_line(v, base),
                    ),
                decreases n - i,
            {
                proof {
                    assert(ls[i as int] == lines@[i as int]@);
                }
                if lines[i].is_blank() {
                    // Defer materialization; only count for now
                    empty_line = empty_line + 1;
                    i = i + 1;
                } else {
                    // Flush any pending blank lines before this content line
                    let mut k: usize = 0;
                    while k < empty_line
                        invariant
                            ls == lines_view(lines@),
                            ls.len() == n,
                            base == base_indentation as nat,
                            0 <= start,
                            start + 1 <= i - empty_line,
                            i < n,
                            n == lines@.len(),
                            0 <= k <= empty_line,
                            forall|m: int| i - empty_line <= m < i ==> is_blank_view(#[trigger] ls[m]),
                            lines_view(interior@) == ls.subrange(start + 1, i - empty_line + k).map_values(
                                |v: LineView| interior_line(v, base),
                            ),
                        decreases empty_line - k,
                    {
                        let blank = Line { raw: String::new(), indentation: base_indentation };
                        proof {
                            let m = i - empty_line + k;
                            assert(is_blank_view(ls[m]));
                            assert(ls.subrange(start + 1, m + 1).map_values(|v: LineView| interior_line(v, base))
                                =~= ls.subrange(start + 1, m).map_values(|v: LineView| interior_line(v, base)).push(interior_line(ls[m], base)));
                            assert(lines_view(interior@.push(blank)) =~= lines_view(interior@).push(blank@));
                            assert(interior_line(ls[m], base) =~= blank@);
                        }
                        interior.push(blank);
                        k = k + 1;
                    }
                    let line = lines[i].duplicate();
                    proof {
                        let m = i as int;
                        assert(ls.subrange(start + 1, m + 1).map_values(|v: LineView| interior_line(v, base))
                            =~= ls.subrange(start + 1, m).map_values(|v: LineView| interior_line(v, base)).push(interior_line(ls[m], base)));
                        assert(lines_view(interior@.push(line)) =~= lines_view(interior@).push(line@));
                    }
                    empty_line = 0;
                    interior.push(line);
                    i = i + 1;
                }
            }
            // Any remaining empty_line count is trailing blanks → discarded
            let invocation = Invocation { header, lines: interior };
            let block = Block {
                base_indentation,
                id: 0,
                content: BlockKind::Invocation(invocation),
            };
            proof {
                assert(block@ == invocation_at(ls, start));
                assert(blocks_from(ls, start) == seq![block@] + blocks_from(ls, i as int));
                assert(blocks_view(blocks@.push(block)) =~= blocks_view(blocks@).push(block@));
                assert(blocks_view(blocks@).push(block@) + blocks_from(ls, i as int) =~= blocks_view(blocks@) + (seq![block@] + blocks_from(ls, i as int)));
            }
            blocks.push(block);
        } else {
            // Natural block: collect lines until blank or invocation start
            let start_index = i;
            let mut content_lines: Vec<Line> = Vec::new();
            proof {
                lemma_natural_end(ls, start);
            }
            while i < n && !lines[i].is_blank() && !is_header_line(&lines[i])
                invariant
                    ls == lines_view(lines@),
                    n == lines@.len(),
                    ls.len() == n,
                    0 <= start <= i <= n,
                    natural_end(ls, i as int) == natural_end(ls, start),
                    lines_view(content_lines@) == ls.subrange(start, i as int),
                decreases n - i,
            {
                proof {
                    assert(ls[i as int] == lines@[i as int]@);
                }
                let line = lines[i].duplicate();
                proof {
                    assert(ls.subrange(start, i + 1) =~= ls.subrange(start, i as int).push(ls[i as int]));
                    assert(lines_view(content_lines@.push(line)) =~= lines_view(content_lines@).push(line@));
                }
                content_lines.push(line);
                i = i + 1;
            }
            proof {
                if i < n {
                    assert(ls[i as int] == lines@[i as int]@);
                }
            }
            let natural = Natural { lines: content_lines };
            let block = Block {
                base_indentation: lines[start_index].indentation,
                id: 0,
                content: BlockKind::Natural(natural),
            };
            proof {
                assert(block@ == natural_at(ls, start));
                assert(blocks_from(ls, start) == seq![block@] + blocks_from(ls, i as int));
                assert(blocks_view(blocks@.push(block)) =~= blocks_view(blocks@).push(block@));
                assert(blocks_view(blocks@).push(block@) + blocks_from(ls, i as int) =~= blocks_view(blocks@) + (seq![block@] + blocks_from(ls, i as int)));
            }
            blocks.push(block);
        }
    }
    proof {
        assert(blocks_view(blocks@) + blocks_from(ls, i as int) =~= blocks_view(blocks@));
    }
    blocks
}

} // verus!
