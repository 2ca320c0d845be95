//! Block parsing: a page's exact text split into outliner and plaintext blocks,
//! each with the page references found in its own content.
//!
//! The parser works on the text's characters; every span it reports is a UTF-8
//! byte span obtained from character positions through `byte_offset`.

use vstd::prelude::*;

use super::block::{
    block_view, flatten_forest, flatten_tree, lemma_flatten_forest_push, refs_view, Block, BlockKind, BlockView, PageRefOccurrence, PlaintextKind, RefView,
};
use super::error::CoreError;
use super::page::forest_view;
use super::page_id::{chars_view, new_result, LocationView, PageId, PageIdView, PageLocation};
use super::span::SourceSpan;
use crate::text::{
    byte_offset, char_byte_offsets, lemma_byte_offset_mono, split_chars, split_on, str_chars,
    sub_chars,
};

verus! {

// ---------------------------------------------------------------------------
// Character classes
// ---------------------------------------------------------------------------

/// What `char::is_alphanumeric` answers for `c` (Unicode Alphabetic or Numeric).
pub uninterp spec fn char_is_alphanumeric(c: char) -> bool;

/// Whether `c` is a letter or digit: a trusted call of `char::is_alphanumeric`. Its
/// contract claims only that the answer is `char_is_alphanumeric(c)`, one fixed
/// function of `c`; which characters are Alphabetic or Numeric is not stated.
#[verifier::external_body]
pub(crate) fn is_alphanumeric(c: char) -> (r: bool)
    ensures
        r == char_is_alphanumeric(c),
{
    c.is_alphanumeric()
}

/// The Unicode `White_Space` property, which `str::trim` removes.
pub open spec fn is_white_space(c: char) -> bool {
    let v = c as u32;
    ||| 0x9 <= v <= 0xd
    ||| v == 0x20
    ||| v == 0x85
    ||| v == 0xa0
    ||| v == 0x1680
    ||| 0x2000 <= v <= 0x200a
    ||| v == 0x2028
    ||| v == 0x2029
    ||| v == 0x202f
    ||| v == 0x205f
    ||| v == 0x3000
}

/// A character that may appear in a hashtag reference.
pub open spec fn is_hashtag_char(c: char) -> bool {
    char_is_alphanumeric(c) || c == '_' || c == '-' || c == '/' || c == '.'
}

/// Punctuation dropped from the end of a hashtag.
pub open spec fn is_trailing_punct(c: char) -> bool {
    c == '.' || c == ',' || c == '!' || c == '?' || c == ';' || c == ':' || c == ')' || c == ']'
        || c == '}'
}

/// A space or a tab.
pub open spec fn is_indent_char(c: char) -> bool {
    c == ' ' || c == '\t'
}

// ---------------------------------------------------------------------------
// Lines
// ---------------------------------------------------------------------------

/// The first `'\n'` at or after `i` and before `e`, or `e`.
pub open spec fn next_newline(t: Seq<char>, i: int, e: int) -> int
    decreases e - i,
{
    if i < 0 || i >= e {
        e
    } else if t[i] == '\n' {
        i
    } else {
        next_newline(t, i + 1, e)
    }
}

/// The end of the line of the whole text that starts at `i`, newline included.
pub open spec fn text_line_end(t: Seq<char>, i: int) -> int {
    let nl = next_newline(t, i, t.len() as int);
    if nl < t.len() {
        nl + 1
    } else {
        t.len() as int
    }
}

/// The first position at or after `i` (and before `e`) that is not a space or tab.
pub open spec fn indent_end(t: Seq<char>, i: int, e: int) -> int
    decreases e - i,
{
    if 0 <= i < e && is_indent_char(t[i]) {
        indent_end(t, i + 1, e)
    } else {
        i
    }
}

/// The column width of `t[i..j]`: a tab counts four, anything else one.
pub open spec fn indent_width_of(t: Seq<char>, i: int, j: int) -> int
    decreases j - i,
{
    if j <= i {
        0
    } else {
        indent_width_of(t, i, j - 1) + (if t[j - 1] == '\t' {
            4int
        } else {
            1int
        })
    }
}

/// `t[i..e]` starts with the fence marker "```".
pub open spec fn starts_fence(t: Seq<char>, i: int, e: int) -> bool {
    0 <= i && i + 3 <= e && t[i] == '`' && t[i + 1] == '`' && t[i + 2] == '`'
}

// ---------------------------------------------------------------------------
// Page references
// ---------------------------------------------------------------------------

/// The position just past the leading white space of `c[i..]`.
pub open spec fn lead_ws_end(c: Seq<char>, i: int) -> int
    decreases c.len() - i,
{
    if 0 <= i < c.len() && is_white_space(c[i]) {
        lead_ws_end(c, i + 1)
    } else {
        i
    }
}

/// The end of `c[lo..e]` without its trailing white space.
pub open spec fn trail_ws_start(c: Seq<char>, lo: int, e: int) -> int
    decreases e - lo,
{
    if lo < e && is_white_space(c[e - 1]) {
        trail_ws_start(c, lo, e - 1)
    } else {
        e
    }
}

/// `str::trim`: `c` without leading and trailing white space.
pub open spec fn trim_white_space(c: Seq<char>) -> Seq<char> {
    let a = lead_ws_end(c, 0);
    c.subrange(a, trail_ws_start(c, a, c.len() as int))
}

/// The page a reference candidate names: the trimmed text read as `A/B/C`.
pub open spec fn candidate_target(c: Seq<char>) -> Option<PageIdView> {
    let tr = trim_white_space(c);
    if tr.len() == 0 {
        None
    } else {
        match new_result(LocationView::Pages, split_on(tr, '/')) {
            Ok(v) => Some(v),
            Err(_) => None,
        }
    }
}

/// The first `"]]"` starting at or after `j` and ending by `le`, or `-1`.
pub open spec fn closing_brackets(t: Seq<char>, le: int, j: int) -> int
    decreases le - j,
{
    if j < 0 || j + 1 >= le {
        -1
    } else if t[j] == ']' && t[j + 1] == ']' {
        j
    } else {
        closing_brackets(t, le, j + 1)
    }
}

/// Where the `"]]"` of a `[[...]]` starting at `k` begins, or `k` when there is none.
pub open spec fn bracket_close(t: Seq<char>, le: int, k: int) -> int {
    if k + 1 < le && t[k] == '[' && t[k + 1] == '[' && closing_brackets(t, le, k + 2) >= 0 {
        closing_brackets(t, le, k + 2)
    } else {
        k
    }
}

/// The end of the run of hashtag characters starting at `i`.
pub open spec fn tag_run_end(t: Seq<char>, le: int, i: int) -> int
    decreases le - i,
{
    if 0 <= i < le && is_hashtag_char(t[i]) {
        tag_run_end(t, le, i + 1)
    } else {
        i
    }
}

/// `e`, moved back over trailing punctuation but not before `s`.
pub open spec fn trim_punct_end(t: Seq<char>, s: int, e: int) -> int
    decreases e - s,
{
    if s < e && is_trailing_punct(t[e - 1]) {
        trim_punct_end(t, s, e - 1)
    } else {
        e
    }
}

/// The end of a hashtag starting at `k` on the line `[ls, le)`, or `k` when there is none.
pub open spec fn hashtag_end(t: Seq<char>, ls: int, le: int, k: int) -> int {
    if t[k] == '#' && !(k > ls && is_hashtag_char(t[k - 1])) {
        trim_punct_end(t, k + 1, tag_run_end(t, le, k + 1))
    } else {
        k
    }
}

/// A reference to `target` written at characters `[k, e)`.
pub open spec fn ref_at(t: Seq<char>, target: PageIdView, k: int, e: int) -> RefView {
    RefView { target, start: byte_offset(t, k), end: byte_offset(t, e) }
}

/// The references of the line `[ls, le)` from position `k` on, left to right:
/// `[[A/B]]` first, then `#A/B`, else one character further.
pub open spec fn inline_refs(t: Seq<char>, ls: int, le: int, k: int) -> Seq<RefView>
    decreases le - k,
{
    if k < 0 || k < ls || k >= le {
        seq![]
    } else {
        let b = bracket_close(t, le, k);
        let h = hashtag_end(t, ls, le, k);
        proof {
            lemma_bracket_close(t, le, k);
            lemma_hashtag_end(t, ls, le, k);
        }
        if b >= k + 2 && candidate_target(t.subrange(k + 2, b)) is Some {
            seq![ref_at(t, candidate_target(t.subrange(k + 2, b))->0, k, b + 2)] + inline_refs(
                t,
                ls,
                le,
                b + 2,
            )
        } else if h > k + 1 && candidate_target(t.subrange(k + 1, h)) is Some {
            seq![ref_at(t, candidate_target(t.subrange(k + 1, h))->0, k, h)] + inline_refs(
                t,
                ls,
                le,
                h,
            )
        } else {
            inline_refs(t, ls, le, k + 1)
        }
    }
}

/// The references of the content lines from `i` to `ce`; fenced code is skipped.
pub open spec fn content_line_refs(t: Seq<char>, i: int, ce: int, in_fence: bool) -> Seq<RefView>
    decreases ce - i,
{
    if i < 0 || i >= ce {
        seq![]
    } else {
        let nl = next_newline(t, i, ce);
        let next = if nl < ce {
            nl + 1
        } else {
            ce
        };
        let fence = starts_fence(t, indent_end(t, i, nl), nl);
        let here = if !in_fence && !fence {
            inline_refs(t, i, nl, i)
        } else {
            seq![]
        };
        proof {
            lemma_next_newline(t, i, ce);
        }
        here + content_line_refs(t, next, ce, if fence { !in_fence } else { in_fence })
    }
}

/// The references of the content `[cs, ce)` of a block.
pub open spec fn content_refs(t: Seq<char>, cs: int, ce: int) -> Seq<RefView> {
    content_line_refs(t, cs, ce, false)
}

pub proof fn lemma_closing_brackets(t: Seq<char>, le: int, j: int)
    ensures
        closing_brackets(t, le, j) == -1 || (j <= closing_brackets(t, le, j) && closing_brackets(
            t,
            le,
            j,
        ) + 2 <= le),
    decreases le - j,
{
    if !(j < 0 || j + 1 >= le) && !(t[j] == ']' && t[j + 1] == ']') {
        lemma_closing_brackets(t, le, j + 1);
    }
}

pub proof fn lemma_bracket_close(t: Seq<char>, le: int, k: int)
    ensures
        bracket_close(t, le, k) == k || (k + 2 <= bracket_close(t, le, k) && bracket_close(t, le, k)
            + 2 <= le),
{
    lemma_closing_brackets(t, le, k + 2);
}

pub proof fn lemma_tag_run_end(t: Seq<char>, le: int, i: int)
    requires
        0 <= i <= le,
    ensures
        i <= tag_run_end(t, le, i) <= le,
    decreases le - i,
{
    if 0 <= i < le && is_hashtag_char(t[i]) {
        lemma_tag_run_end(t, le, i + 1);
    }
}

pub proof fn lemma_trim_punct_end(t: Seq<char>, s: int, e: int)
    requires
        s <= e,
    ensures
        s <= trim_punct_end(t, s, e) <= e,
    decreases e - s,
{
    if s < e && is_trailing_punct(t[e - 1]) {
        lemma_trim_punct_end(t, s, e - 1);
    }
}

pub proof fn lemma_hashtag_end(t: Seq<char>, ls: int, le: int, k: int)
    requires
        0 <= k < le,
    ensures
        k <= hashtag_end(t, ls, le, k) <= le,
{
    if t[k] == '#' && !(k > ls && is_hashtag_char(t[k - 1])) {
        lemma_tag_run_end(t, le, k + 1);
        lemma_trim_punct_end(t, k + 1, tag_run_end(t, le, k + 1));
    }
}

pub proof fn lemma_next_newline(t: Seq<char>, i: int, e: int)
    requires
        0 <= i <= e,
    ensures
        i <= next_newline(t, i, e) <= e,
        next_newline(t, i, e) < e ==> t[next_newline(t, i, e)] == '\n',
        forall|j: int| i <= j < next_newline(t, i, e) ==> t[j] != '\n',
    decreases e - i,
{
    if i < e && t[i] != '\n' {
        lemma_next_newline(t, i + 1, e);
    }
}

// ---------------------------------------------------------------------------
// Block structure
// ---------------------------------------------------------------------------

/// What the parser reads off one line `[start, end)` (character positions).
pub struct LineView {
    pub start: int,
    pub end: int,
    pub indent_width: int,
    pub is_outliner: bool,
    pub content_start: int,
    pub is_fence_line: bool,
    pub is_blank: bool,
}

/// Reads a line: its indentation, whether it starts an outliner block (`-` followed by
/// a space, a tab or the end of the line, outside fenced code), where that block's
/// content starts, and whether it is a fence line or blank.
pub open spec fn analyze(t: Seq<char>, start: int, end: int, in_fence: bool) -> LineView {
    let ie = indent_end(t, start, end);
    let is_outliner = !in_fence && ie < end && t[ie] == '-' && (ie + 1 == end || is_indent_char(
        t[ie + 1],
    ));
    let content_start = if !is_outliner {
        start
    } else if ie + 1 < end && is_indent_char(t[ie + 1]) {
        ie + 2
    } else {
        ie + 1
    };
    LineView {
        start,
        end,
        indent_width: indent_width_of(t, start, ie),
        is_outliner,
        content_start,
        is_fence_line: starts_fence(t, ie, end),
        is_blank: ie == end,
    }
}

/// A block still open while parsing (character positions).
pub struct OpenView {
    pub kind: BlockKind,
    pub indent: int,
    pub column: int,
    pub block_start: int,
    pub content_start: int,
    pub content_end: int,
    pub children: Seq<BlockView>,
}

/// The finished top-level blocks and the stack of open blocks.
pub struct ParseState {
    pub roots: Seq<BlockView>,
    pub stack: Seq<OpenView>,
}

/// An open block, finished: its whole span reaches past its last child, and its
/// references are those of its content.
pub open spec fn finish(t: Seq<char>, o: OpenView) -> BlockView {
    let ce = byte_offset(t, o.content_end);
    let last = if o.children.len() > 0 {
        o.children.last().block_end
    } else {
        ce
    };
    BlockView {
        kind: o.kind,
        block_start: byte_offset(t, o.block_start),
        block_end: if last > ce {
            last
        } else {
            ce
        },
        content_start: byte_offset(t, o.content_start),
        content_end: ce,
        children: o.children,
        refs: content_refs(t, o.content_start, o.content_end),
    }
}

/// Closes the innermost open block into its parent, or into the roots.
pub open spec fn close_top(t: Seq<char>, st: ParseState) -> ParseState {
    if st.stack.len() == 0 {
        st
    } else {
        let b = finish(t, st.stack.last());
        let rest = st.stack.drop_last();
        if rest.len() == 0 {
            ParseState { roots: st.roots.push(b), stack: rest }
        } else {
            let p = rest.last();
            ParseState {
                roots: st.roots,
                stack: rest.drop_last().push(OpenView { children: p.children.push(b), ..p }),
            }
        }
    }
}

/// Closes open blocks while the line is indented no deeper than the innermost one.
pub open spec fn close_while(t: Seq<char>, st: ParseState, indent: int) -> ParseState
    decreases st.stack.len(),
{
    if st.stack.len() > 0 && indent <= st.stack.last().indent {
        close_while(t, close_top(t, st), indent)
    } else {
        st
    }
}

/// The innermost open block's content extended to `end`.
pub open spec fn extend_top(st: ParseState, end: int) -> ParseState {
    if st.stack.len() == 0 {
        st
    } else {
        ParseState {
            roots: st.roots,
            stack: st.stack.drop_last().push(OpenView { content_end: end, ..st.stack.last() }),
        }
    }
}

/// A continuation line joins the innermost childless block whose content column it
/// reaches; blocks that it cannot join are closed. The flag says whether it joined.
pub open spec fn continue_block(t: Seq<char>, st: ParseState, indent: int, end: int) -> (
    ParseState,
    bool,
)
    decreases st.stack.len(),
{
    if st.stack.len() == 0 {
        (st, false)
    } else if st.stack.last().children.len() == 0 && indent >= st.stack.last().column {
        (extend_top(st, end), true)
    } else {
        continue_block(t, close_top(t, st), indent, end)
    }
}

pub open spec fn push_open(st: ParseState, o: OpenView) -> ParseState {
    ParseState { roots: st.roots, stack: st.stack.push(o) }
}

/// The outliner block a marker line opens.
pub open spec fn outliner_open(li: LineView) -> OpenView {
    OpenView {
        kind: BlockKind::Outliner,
        indent: li.indent_width,
        column: li.indent_width + 2,
        block_start: li.start,
        content_start: li.content_start,
        content_end: li.end,
        children: seq![],
    }
}

/// The plaintext block an unattached line opens.
pub open spec fn plaintext_open(li: LineView) -> OpenView {
    OpenView {
        kind: BlockKind::Plaintext(PlaintextKind::Implicit),
        indent: li.indent_width,
        column: li.indent_width,
        block_start: li.start,
        content_start: li.start,
        content_end: li.end,
        children: seq![],
    }
}

/// Whether fenced code is open after the line `[start, end)`.
pub open spec fn fence_after(t: Seq<char>, in_fence: bool, start: int, end: int) -> bool {
    if analyze(t, start, end, in_fence).is_fence_line {
        !in_fence
    } else {
        in_fence
    }
}

/// One line's effect on the parse state.
pub open spec fn step(t: Seq<char>, st: ParseState, in_fence: bool, start: int, end: int) -> ParseState {
    let li = analyze(t, start, end, in_fence);
    if fence_after(t, in_fence, start, end) {
        st
    } else if li.is_blank {
        extend_top(st, end)
    } else if li.is_outliner {
        push_open(close_while(t, st, li.indent_width), outliner_open(li))
    } else {
        let (s2, joined) = continue_block(t, st, li.indent_width, end);
        if joined {
            s2
        } else {
            push_open(s2, plaintext_open(li))
        }
    }
}

/// The state after every line from `pos` on.
pub open spec fn run(t: Seq<char>, pos: int, st: ParseState, in_fence: bool) -> ParseState
    decreases t.len() - pos,
{
    if pos < 0 || pos >= t.len() {
        st
    } else {
        let end = text_line_end(t, pos);
        proof {
            lemma_next_newline(t, pos, t.len() as int);
        }
        run(t, end, step(t, st, in_fence, pos, end), fence_after(t, in_fence, pos, end))
    }
}

/// Closes every open block.
pub open spec fn close_all(t: Seq<char>, st: ParseState) -> ParseState
    decreases st.stack.len(),
{
    if st.stack.len() == 0 {
        st
    } else {
        close_all(t, close_top(t, st))
    }
}

/// The blocks of a text.
pub open spec fn parse_spec(t: Seq<char>) -> Seq<BlockView> {
    close_all(t, run(t, 0, ParseState { roots: seq![], stack: seq![] }, false)).roots
}

// ---------------------------------------------------------------------------
// Executable reference extraction
// ---------------------------------------------------------------------------

/// `offs` holds the byte offset of every character position of `t` and of its end.
pub open spec fn offsets_ok(t: Seq<char>, offs: Seq<usize>) -> bool {
    &&& offs.len() == t.len() + 1
    &&& forall|k: int| 0 <= k <= t.len() ==> #[trigger] offs[k] == byte_offset(t, k)
}

pub(crate) fn is_white_space_char(c: char) -> (r: bool)
    ensures
        r == is_white_space(c),
{
    let v = c as u32;
    (0x9 <= v && v <= 0xd) || v == 0x20 || v == 0x85 || v == 0xa0 || v == 0x1680 || (0x2000 <= v
        && v <= 0x200a) || v == 0x2028 || v == 0x2029 || v == 0x202f || v == 0x205f || v == 0x3000
}

fn is_hashtag_ref_char(c: char) -> (r: bool)
    ensures
        r == is_hashtag_char(c),
{
    is_alphanumeric(c) || c == '_' || c == '-' || c == '/' || c == '.'
}

fn is_trailing_punct_char(c: char) -> (r: bool)
    ensures
        r == is_trailing_punct(c),
{
    c == '.' || c == ',' || c == '!' || c == '?' || c == ';' || c == ':' || c == ')' || c == ']'
        || c == '}'
}

fn find_newline(chars: &Vec<char>, i: usize, e: usize) -> (r: usize)
    requires
        i <= e <= chars@.len(),
    ensures
        r == next_newline(chars@, i as int, e as int),
        i <= r <= e,
{
    let mut j = i;
    while j < e && chars[j] != '\n'
        invariant
            i <= j <= e <= chars@.len(),
            next_newline(chars@, j as int, e as int) == next_newline(chars@, i as int, e as int),
        decreases e - j,
    {
        j = j + 1;
    }
    j
}

fn skip_indent(chars: &Vec<char>, i: usize, e: usize) -> (r: usize)
    requires
        i <= e <= chars@.len(),
    ensures
        r == indent_end(chars@, i as int, e as int),
        i <= r <= e,
{
    let mut j = i;
    while j < e && (chars[j] == ' ' || chars[j] == '\t')
        invariant
            i <= j <= e <= chars@.len(),
            indent_end(chars@, j as int, e as int) == indent_end(chars@, i as int, e as int),
        decreases e - j,
    {
        j = j + 1;
    }
    j
}

fn fence_at(chars: &Vec<char>, i: usize, e: usize) -> (r: bool)
    requires
        i <= e <= chars@.len(),
    ensures
        r == starts_fence(chars@, i as int, e as int),
{
    e >= 3 && i <= e - 3 && chars[i] == '`' && chars[i + 1] == '`' && chars[i + 2] == '`'
}

pub proof fn lemma_lead_ws_end(c: Seq<char>, i: int)
    requires
        0 <= i <= c.len(),
    ensures
        i <= lead_ws_end(c, i) <= c.len(),
    decreases c.len() - i,
{
    if i < c.len() && is_white_space(c[i]) {
        lemma_lead_ws_end(c, i + 1);
    }
}

pub proof fn lemma_trail_ws_start(c: Seq<char>, lo: int, e: int)
    requires
        lo <= e,
    ensures
        lo <= trail_ws_start(c, lo, e) <= e,
    decreases e - lo,
{
    if lo < e && is_white_space(c[e - 1]) {
        lemma_trail_ws_start(c, lo, e - 1);
    }
}

/// `str::trim` on a character vector.
pub fn trim_white_space_chars(c: &Vec<char>) -> (r: Vec<char>)
    ensures
        r@ == trim_white_space(c@),
{
    let mut x: usize = 0;
    while x < c.len() && is_white_space_char(c[x])
        invariant
            x <= c@.len(),
            lead_ws_end(c@, x as int) == lead_ws_end(c@, 0),
        decreases c@.len() - x,
    {
        x = x + 1;
    }
    let mut y: usize = c.len();
    while y > x && is_white_space_char(c[y - 1])
        invariant
            x <= y <= c@.len(),
            lead_ws_end(c@, 0) == x,
            trail_ws_start(c@, x as int, y as int) == trail_ws_start(c@, x as int, c@.len() as int),
        decreases y,
    {
        y = y - 1;
    }
    sub_chars(c, x, y)
}

/// The page named by the characters `[a, b)`, if they name one.
fn candidate_page_id(chars: &Vec<char>, a: usize, b: usize) -> (r: Option<PageId>)
    requires
        a <= b <= chars@.len(),
    ensures
        r is Some <==> candidate_target(chars@.subrange(a as int, b as int)) is Some,
        r matches Some(id) ==> id@ == candidate_target(chars@.subrange(a as int, b as int))->0,
{
    let sub = sub_chars(chars, a, b);
    let trimmed = trim_white_space_chars(&sub);
    if trimmed.len() == 0 {
        return None;
    }
    let pieces = split_chars(&trimmed, '/');
    assert(chars_view(pieces@) =~= split_on(trimmed@, '/'));
    match PageId::from_char_segments(PageLocation::Pages, &pieces) {
        Ok(id) => Some(id),
        Err(_) => None,
    }
}

fn bracket_close_at(chars: &Vec<char>, le: usize, k: usize) -> (r: usize)
    requires
        k < le <= chars@.len(),
    ensures
        r == bracket_close(chars@, le as int, k as int),
{
    if k + 1 < le && chars[k] == '[' && chars[k + 1] == '[' {
        let mut j = k + 2;
        while j < le - 1
            invariant
                k + 2 <= j <= le,
                le <= chars@.len(),
                k + 1 < le,
                chars@[k as int] == '[' && chars@[k + 1] == '[',
                closing_brackets(chars@, le as int, j as int) == closing_brackets(
                    chars@,
                    le as int,
                    k + 2,
                ),
            decreases le - j,
        {
            if chars[j] == ']' && chars[j + 1] == ']' {
                return j;
            }
            j = j + 1;
        }
        k
    } else {
        k
    }
}

fn hashtag_end_at(chars: &Vec<char>, ls: usize, le: usize, k: usize) -> (r: usize)
    requires
        ls <= k < le <= chars@.len(),
    ensures
        r == hashtag_end(chars@, ls as int, le as int, k as int),
        k <= r <= le,
{
    proof {
        lemma_hashtag_end(chars@, ls as int, le as int, k as int);
    }
    if chars[k] != '#' {
        return k;
    }
    if k > ls && is_hashtag_ref_char(chars[k - 1]) {
        return k;
    }
    let mut e = k + 1;
    while e < le && is_hashtag_ref_char(chars[e])
        invariant
            k + 1 <= e <= le <= chars@.len(),
            tag_run_end(chars@, le as int, e as int) == tag_run_end(chars@, le as int, k + 1),
        decreases le - e,
    {
        e = e + 1;
    }
    let mut ce = e;
    while ce > k + 1 && is_trailing_punct_char(chars[ce - 1])
        invariant
            k + 1 <= ce <= e <= le <= chars@.len(),
            tag_run_end(chars@, le as int, k + 1) == e,
            trim_punct_end(chars@, k + 1, ce as int) == trim_punct_end(chars@, k + 1, e as int),
        decreases ce,
    {
        ce = ce - 1;
    }
    ce
}

/// Appends the references of the line `[ls, le)`.
fn push_inline_refs(
    chars: &Vec<char>,
    offsets: &Vec<usize>,
    ls: usize,
    le: usize,
    refs: &mut Vec<PageRefOccurrence>,
)
    requires
        ls <= le <= chars@.len(),
        offsets_ok(chars@, offsets@),
    ensures
        refs_view(final(refs)@) == refs_view(old(refs)@) + inline_refs(
            chars@,
            ls as int,
            le as int,
            ls as int,
        ),
{
    broadcast use SourceSpan::lemma_spec_new;

    let ghost t = chars@;
    let ghost base = refs_view(refs@);
    let mut k = ls;
    proof {
        assert(base + inline_refs(t, ls as int, le as int, ls as int) =~= refs_view(refs@)
            + inline_refs(t, ls as int, le as int, k as int));
    }
    while k < le
        invariant
            t == chars@,
            ls <= k <= le <= t.len(),
            offsets_ok(t, offsets@),
            refs_view(refs@) + inline_refs(t, ls as int, le as int, k as int) == base
                + inline_refs(t, ls as int, le as int, ls as int),
        decreases le - k,
    {
        let ghost before = refs_view(refs@);
        let b = bracket_close_at(chars, le, k);
        let h = hashtag_end_at(chars, ls, le, k);
        proof {
            lemma_bracket_close(t, le as int, k as int);
        }
        if b > k {
            if let Some(id) = candidate_page_id(chars, k + 2, b) {
                proof {
                    lemma_byte_offset_mono(t, k as int, b + 2);
                }
                let ghost target = id@;
                let sp = SourceSpan::unchecked(offsets[k], offsets[b + 2]);
                proof {
                    SourceSpan::lemma_spec_new(offsets@[k as int], offsets@[b + 2]);
                    assert(offsets@[k as int] == byte_offset(t, k as int));
                    assert(offsets@[b + 2] == byte_offset(t, b + 2));
                }
                let r = PageRefOccurrence::new(id, sp);
                refs.push(r);
                proof {
                    assert(r@ == ref_at(t, target, k as int, b + 2));
                    assert(inline_refs(t, ls as int, le as int, k as int) == seq![
                        ref_at(t, target, k as int, b + 2),
                    ] + inline_refs(t, ls as int, le as int, b + 2));
                    assert(refs_view(refs@) =~= before.push(r@));
                    assert(before + inline_refs(t, ls as int, le as int, k as int) =~= refs_view(
                        refs@,
                    ) + inline_refs(t, ls as int, le as int, b + 2));
                }
                k = b + 2;
                continue ;
            }
        }
        if h > k + 1 {
            if let Some(id) = candidate_page_id(chars, k + 1, h) {
                proof {
                    lemma_byte_offset_mono(t, k as int, h as int);
                }
                let ghost target = id@;
                let sp = SourceSpan::unchecked(offsets[k], offsets[h]);
                proof {
                    SourceSpan::lemma_spec_new(offsets@[k as int], offsets@[h as int]);
                    assert(offsets@[k as int] == byte_offset(t, k as int));
                    assert(offsets@[h as int] == byte_offset(t, h as int));
                }
                let r = PageRefOccurrence::new(id, sp);
                refs.push(r);
                proof {
                    assert(r@ == ref_at(t, target, k as int, h as int));
                    assert(inline_refs(t, ls as int, le as int, k as int) == seq![
                        ref_at(t, target, k as int, h as int),
                    ] + inline_refs(t, ls as int, le as int, h as int));
                    assert(refs_view(refs@) =~= before.push(r@));
                    assert(before + inline_refs(t, ls as int, le as int, k as int) =~= refs_view(
                        refs@,
                    ) + inline_refs(t, ls as int, le as int, h as int));
                }
                k = h;
                continue ;
            }
        }
        k = k + 1;
    }
}

/// The references of the content `[cs, ce)`, line by line, outside fenced code.
fn content_page_refs(chars: &Vec<char>, offsets: &Vec<usize>, cs: usize, ce: usize) -> (r: Vec<
    PageRefOccurrence,
>)
    requires
        cs <= ce <= chars@.len(),
        offsets_ok(chars@, offsets@),
    ensures
        refs_view(r@) == content_refs(chars@, cs as int, ce as int),
{
    let ghost t = chars@;
    let mut refs: Vec<PageRefOccurrence> = Vec::new();
    let mut i = cs;
    let mut in_fence = false;
    proof {
        assert(refs_view(refs@) + content_line_refs(t, i as int, ce as int, in_fence) =~= content_refs(
            t,
            cs as int,
            ce as int,
        ));
    }
    while i < ce
        invariant
            t == chars@,
            cs <= i <= ce <= t.len(),
            offsets_ok(t, offsets@),
            refs_view(refs@) + content_line_refs(t, i as int, ce as int, in_fence) == content_refs(
                t,
                cs as int,
                ce as int,
            ),
        decreases ce - i,
    {
        let ghost before = refs_view(refs@);
        let nl = find_newline(chars, i, ce);
        let ind = skip_indent(chars, i, nl);
        let fence = fence_at(chars, ind, nl);
        if !in_fence && !fence {
            push_inline_refs(chars, offsets, i, nl, &mut refs);
        }
        let next = if nl < ce {
            nl + 1
        } else {
            ce
        };
        proof {
            let here = if !in_fence && !fence {
                inline_refs(t, i as int, nl as int, i as int)
            } else {
                seq![]
            };
            assert(refs_view(refs@) =~= before + here);
            let nf = if fence {
                !in_fence
            } else {
                in_fence
            };
            assert(before + content_line_refs(t, i as int, ce as int, in_fence) =~= refs_view(refs@)
                + content_line_refs(t, next as int, ce as int, nf));
        }
        if fence {
            in_fence = !in_fence;
        }
        i = next;
    }
    refs
}

// ---------------------------------------------------------------------------
// Executable block structure
// ---------------------------------------------------------------------------

/// What the parser reads off one line (character positions).
#[derive(Clone, Copy)]
struct LineInfo {
    start: usize,
    end: usize,
    indent_width: usize,
    is_outliner: bool,
    content_start: usize,
    is_fence_line: bool,
    is_blank: bool,
}

spec fn line_view(l: LineInfo) -> LineView {
    LineView {
        start: l.start as int,
        end: l.end as int,
        indent_width: l.indent_width as int,
        is_outliner: l.is_outliner,
        content_start: l.content_start as int,
        is_fence_line: l.is_fence_line,
        is_blank: l.is_blank,
    }
}

/// A block still open while parsing.
struct OpenBlock {
    kind: BlockKind,
    indent_width: usize,
    content_column: usize,
    block_start: usize,
    content_start: usize,
    content_end: usize,
    children: Vec<Block>,
}

spec fn open_view(o: OpenBlock) -> OpenView {
    OpenView {
        kind: o.kind,
        indent: o.indent_width as int,
        column: o.content_column as int,
        block_start: o.block_start as int,
        content_start: o.content_start as int,
        content_end: o.content_end as int,
        children: forest_view(o.children@),
    }
}

spec fn stack_view(s: Seq<OpenBlock>) -> Seq<OpenView> {
    s.map_values(|o: OpenBlock| open_view(o))
}

spec fn state_of(roots: Seq<Block>, stack: Seq<OpenBlock>) -> ParseState {
    ParseState { roots: forest_view(roots), stack: stack_view(stack) }
}

/// Every open block's positions are ordered and lie before `bound`.
pub open spec fn stack_ok(s: Seq<OpenView>, bound: int) -> bool {
    forall|i: int|
        0 <= i < s.len() ==> {
            let o = #[trigger] s[i];
            0 <= o.block_start <= o.content_start <= o.content_end <= bound
        }
}

proof fn lemma_stack_ok_widen(s: Seq<OpenView>, a: int, b: int)
    requires
        stack_ok(s, a),
        a <= b,
    ensures
        stack_ok(s, b),
{
}

proof fn lemma_close_top_ok(t: Seq<char>, st: ParseState, bound: int)
    requires
        stack_ok(st.stack, bound),
    ensures
        stack_ok(close_top(t, st).stack, bound),
        st.stack.len() > 0 ==> close_top(t, st).stack.len() == st.stack.len() - 1,
{
    if st.stack.len() > 0 {
        let rest = st.stack.drop_last();
        if rest.len() > 0 {
            let ns = close_top(t, st).stack;
            assert forall|i: int| 0 <= i < ns.len() implies {
                let o = #[trigger] ns[i];
                0 <= o.block_start <= o.content_start <= o.content_end <= bound
            } by {
                assert(st.stack[i].block_start == ns[i].block_start);
            }
        }
    }
}

proof fn lemma_indent_width_bound(t: Seq<char>, i: int, j: int)
    requires
        i <= j,
    ensures
        0 <= indent_width_of(t, i, j) <= 4 * (j - i),
    decreases j - i,
{
    if i < j {
        lemma_indent_width_bound(t, i, j - 1);
    }
}

fn analyze_line(chars: &Vec<char>, start: usize, end: usize, in_fence: bool) -> (r: LineInfo)
    requires
        start < end <= chars@.len(),
        4 * chars@.len() + 8 <= usize::MAX,
    ensures
        line_view(r) == analyze(chars@, start as int, end as int, in_fence),
        r.indent_width <= 4 * chars@.len(),
        start <= r.content_start <= end,
{
    let ghost t = chars@;
    let mut ie = start;
    let mut width: usize = 0;
    while ie < end && (chars[ie] == ' ' || chars[ie] == '\t')
        invariant
            t == chars@,
            start <= ie <= end <= t.len(),
            4 * t.len() + 8 <= usize::MAX,
            indent_end(t, ie as int, end as int) == indent_end(t, start as int, end as int),
            width == indent_width_of(t, start as int, ie as int),
        decreases end - ie,
    {
        proof {
            lemma_indent_width_bound(t, start as int, ie as int);
        }
        if chars[ie] == '\t' {
            width = width + 4;
        } else {
            width = width + 1;
        }
        ie = ie + 1;
    }
    proof {
        lemma_indent_width_bound(t, start as int, ie as int);
    }
    let is_outliner = !in_fence && ie < end && chars[ie] == '-' && (ie + 1 == end || chars[ie + 1]
        == ' ' || chars[ie + 1] == '\t');
    let content_start = if !is_outliner {
        start
    } else if ie + 1 < end && (chars[ie + 1] == ' ' || chars[ie + 1] == '\t') {
        ie + 2
    } else {
        ie + 1
    };
    LineInfo {
        start,
        end,
        indent_width: width,
        is_outliner,
        content_start,
        is_fence_line: fence_at(chars, ie, end),
        is_blank: ie == end,
    }
}

/// Closes the innermost open block into its parent, or into the roots.
fn close_top_block(
    stack: &mut Vec<OpenBlock>,
    roots: &mut Vec<Block>,
    chars: &Vec<char>,
    offsets: &Vec<usize>,
)
    requires
        old(stack)@.len() > 0,
        stack_ok(stack_view(old(stack)@), chars@.len() as int),
        offsets_ok(chars@, offsets@),
    ensures
        state_of(final(roots)@, final(stack)@) == close_top(
            chars@,
            state_of(old(roots)@, old(stack)@),
        ),
        final(stack)@.len() == old(stack)@.len() - 1,
{
    let ghost t = chars@;
    let ghost st = state_of(roots@, stack@);
    let ghost old_stack = stack@;
    let ghost old_roots = roots@;
    let open = stack.pop().unwrap();
    proof {
        assert(open_view(open) == st.stack.last());
        assert(stack_view(stack@) =~= st.stack.drop_last());
        let o = st.stack.last();
        assert(0 <= o.block_start <= o.content_start <= o.content_end <= t.len());
        lemma_byte_offset_mono(t, o.block_start, o.content_start);
        lemma_byte_offset_mono(t, o.content_start, o.content_end);
    }
    let ce_b = offsets[open.content_end];
    let mut block_end = ce_b;
    let nc = open.children.len();
    if nc > 0 {
        let last_end = open.children[nc - 1].block_span.end();
        if last_end > block_end {
            block_end = last_end;
        }
    }
    let refs = content_page_refs(chars, offsets, open.content_start, open.content_end);
    let block_span = SourceSpan::unchecked(offsets[open.block_start], block_end);
    let content_span = SourceSpan::unchecked(offsets[open.content_start], ce_b);
    proof {
        SourceSpan::lemma_spec_new(offsets@[open.block_start as int], block_end);
        SourceSpan::lemma_spec_new(offsets@[open.content_start as int], ce_b);
    }
    let ghost kids = open.children@;
    let block = Block::new(open.kind, block_span, content_span, open.children, refs);
    proof {
        assert(block_view(block).children =~= forest_view(kids));
        if kids.len() > 0 {
            assert(forest_view(kids).last() == block_view(kids.last()));
        }
        assert(block_view(block) == finish(t, st.stack.last()));
    }
    let ghost mid = stack@;
    match stack.pop() {
        Some(mut parent) => {
            let ghost pk = parent.children@;
            parent.children.push(block);
            stack.push(parent);
            proof {
                assert(forest_view(parent.children@) =~= forest_view(pk).push(block_view(block)));
                assert(stack_view(stack@) =~= stack_view(mid).drop_last().push(open_view(parent)));
                assert(stack_view(mid) =~= st.stack.drop_last());
            }
        },
        None => {
            roots.push(block);
            proof {
                assert(forest_view(roots@) =~= forest_view(old_roots).push(block_view(block)));
                assert(stack_view(stack@) =~= st.stack.drop_last());
            }
        },
    }
}

/// Closes open blocks while `line_indent` is no deeper than the innermost one.
fn close_for_outliner_marker(
    stack: &mut Vec<OpenBlock>,
    roots: &mut Vec<Block>,
    chars: &Vec<char>,
    offsets: &Vec<usize>,
    line_indent: usize,
)
    requires
        stack_ok(stack_view(old(stack)@), chars@.len() as int),
        offsets_ok(chars@, offsets@),
    ensures
        state_of(final(roots)@, final(stack)@) == close_while(
            chars@,
            state_of(old(roots)@, old(stack)@),
            line_indent as int,
        ),
{
    let ghost t = chars@;
    let ghost target = close_while(t, state_of(roots@, stack@), line_indent as int);
    while stack.len() > 0 && line_indent <= stack[stack.len() - 1].indent_width
        invariant
            t == chars@,
            offsets_ok(t, offsets@),
            stack_ok(stack_view(stack@), t.len() as int),
            close_while(t, state_of(roots@, stack@), line_indent as int) == target,
        decreases stack@.len(),
    {
        proof {
            lemma_close_top_ok(t, state_of(roots@, stack@), t.len() as int);
        }
        close_top_block(stack, roots, chars, offsets);
    }
}

/// Joins the line to the innermost childless block whose content column it reaches,
/// closing the blocks it cannot join; `false` when none is left.
fn continue_existing_block(
    stack: &mut Vec<OpenBlock>,
    roots: &mut Vec<Block>,
    chars: &Vec<char>,
    offsets: &Vec<usize>,
    line_indent: usize,
    line_end: usize,
) -> (r: bool)
    requires
        stack_ok(stack_view(old(stack)@), line_end as int),
        line_end <= chars@.len(),
        offsets_ok(chars@, offsets@),
    ensures
        (state_of(final(roots)@, final(stack)@), r) == continue_block(
            chars@,
            state_of(old(roots)@, old(stack)@),
            line_indent as int,
            line_end as int,
        ),
{
    let ghost t = chars@;
    let ghost target = continue_block(
        t,
        state_of(roots@, stack@),
        line_indent as int,
        line_end as int,
    );
    while stack.len() > 0
        invariant
            t == chars@,
            line_end <= t.len(),
            offsets_ok(t, offsets@),
            stack_ok(stack_view(stack@), line_end as int),
            continue_block(t, state_of(roots@, stack@), line_indent as int, line_end as int)
                == target,
            target == continue_block(
                t,
                state_of(old(roots)@, old(stack)@),
                line_indent as int,
                line_end as int,
            ),
        decreases stack@.len(),
    {
        let top = stack.len() - 1;
        if stack[top].children.len() == 0 && line_indent >= stack[top].content_column {
            let ghost before = stack@;
            let ghost cur = state_of(roots@, stack@);
            proof {
                assert(stack_view(before).last() == open_view(before.last()));
                assert(cur.stack.last().children.len() == 0);
                assert(continue_block(t, cur, line_indent as int, line_end as int) == (
                    extend_top(cur, line_end as int),
                    true,
                ));
            }
            let mut open = stack.pop().unwrap();
            open.content_end = line_end;
            stack.push(open);
            proof {
                assert(stack_view(stack@) =~= stack_view(before).drop_last().push(
                    OpenView { content_end: line_end as int, ..stack_view(before).last() },
                ));
                assert(state_of(roots@, stack@) == extend_top(cur, line_end as int));
            }
            return true;
        }
        proof {
            lemma_stack_ok_widen(stack_view(stack@), line_end as int, t.len() as int);
            lemma_close_top_ok(t, state_of(roots@, stack@), line_end as int);
        }
        close_top_block(stack, roots, chars, offsets);
    }
    false
}

/// Splits `text` into its blocks: outliner blocks start with `- ` and nest by
/// indentation, other lines form plaintext blocks, fenced code never starts a block,
/// and every block carries the page references of its own content.
pub fn parse_blocks(text: &str) -> (r: Result<Vec<Block>, CoreError>)
    requires
        4 * text@.len() + 8 <= usize::MAX,
    ensures
        r is Ok,
        r matches Ok(blocks) ==> forest_view(blocks@) == parse_spec(text@),
{
    let chars = str_chars(text);
    let offsets = char_byte_offsets(text, &chars);
    let ghost t = chars@;
    let n = chars.len();
    let mut roots: Vec<Block> = Vec::new();
    let mut stack: Vec<OpenBlock> = Vec::new();
    let mut in_fence = false;
    let mut pos: usize = 0;
    let ghost init = ParseState { roots: seq![], stack: seq![] };
    proof {
        assert(forest_view(roots@) =~= init.roots);
        assert(stack_view(stack@) =~= init.stack);
    }
    while pos < n
        invariant
            t == chars@,
            n == t.len(),
            4 * n + 8 <= usize::MAX,
            pos <= n,
            offsets_ok(t, offsets@),
            stack_ok(stack_view(stack@), pos as int),
            run(t, pos as int, state_of(roots@, stack@), in_fence) == run(t, 0, init, false),
        decreases n - pos,
    {
        let ghost st = state_of(roots@, stack@);
        let ghost f0 = in_fence;
        let nl = find_newline(&chars, pos, n);
        let end = if nl < n {
            nl + 1
        } else {
            n
        };
        proof {
            lemma_next_newline(t, pos as int, n as int);
            lemma_stack_ok_widen(stack_view(stack@), pos as int, end as int);
        }
        let line = analyze_line(&chars, pos, end, in_fence);
        if line.is_fence_line {
            in_fence = !in_fence;
        }
        if !in_fence {
            if line.is_blank {
                if stack.len() > 0 {
                    let ghost before = stack@;
                    let mut open = stack.pop().unwrap();
                    open.content_end = end;
                    stack.push(open);
                    proof {
                        assert(stack_view(stack@) =~= stack_view(before).drop_last().push(
                            OpenView { content_end: end as int, ..stack_view(before).last() },
                        ));
                    }
                }
            } else if line.is_outliner {
                proof {
                    lemma_stack_ok_widen(stack_view(stack@), end as int, n as int);
                    lemma_close_while_ok(t, st, line.indent_width as int, end as int);
                }
                close_for_outliner_marker(&mut stack, &mut roots, &chars, &offsets, line.indent_width);
                let ghost mid = stack@;
                stack.push(
                    OpenBlock {
                        kind: BlockKind::Outliner,
                        indent_width: line.indent_width,
                        content_column: line.indent_width + 2,
                        block_start: line.start,
                        content_start: line.content_start,
                        content_end: line.end,
                        children: Vec::new(),
                    },
                );
                proof {
                    assert(forest_view(Seq::<Block>::empty()) =~= Seq::<BlockView>::empty());
                    assert(stack_view(stack@) =~= stack_view(mid).push(outliner_open(line_view(line))));
                }
            } else {
                proof {
                    lemma_continue_block_ok(t, st, line.indent_width as int, end as int);
                }
                let joined = continue_existing_block(
                    &mut stack,
                    &mut roots,
                    &chars,
                    &offsets,
                    line.indent_width,
                    end,
                );
                if !joined {
                    let ghost mid = stack@;
                    stack.push(
                        OpenBlock {
                            kind: BlockKind::Plaintext(PlaintextKind::Implicit),
                            indent_width: line.indent_width,
                            content_column: line.indent_width,
                            block_start: line.start,
                            content_start: line.start,
                            content_end: line.end,
                            children: Vec::new(),
                        },
                    );
                    proof {
                        assert(forest_view(Seq::<Block>::empty()) =~= Seq::<BlockView>::empty());
                        assert(stack_view(stack@) =~= stack_view(mid).push(
                            plaintext_open(line_view(line)),
                        ));
                    }
                }
            }
        }
        proof {
            assert(state_of(roots@, stack@) == step(t, st, f0, pos as int, end as int));
            assert(in_fence == fence_after(t, f0, pos as int, end as int));
        }
        pos = end;
    }
    let ghost done = state_of(roots@, stack@);
    while stack.len() > 0
        invariant
            t == chars@,
            offsets_ok(t, offsets@),
            stack_ok(stack_view(stack@), t.len() as int),
            close_all(t, state_of(roots@, stack@)) == close_all(t, done),
        decreases stack@.len(),
    {
        proof {
            lemma_close_top_ok(t, state_of(roots@, stack@), t.len() as int);
        }
        close_top_block(&mut stack, &mut roots, &chars, &offsets);
    }
    Ok(roots)
}

proof fn lemma_close_while_ok(t: Seq<char>, st: ParseState, indent: int, bound: int)
    requires
        stack_ok(st.stack, bound),
    ensures
        stack_ok(close_while(t, st, indent).stack, bound),
    decreases st.stack.len(),
{
    if st.stack.len() > 0 && indent <= st.stack.last().indent {
        lemma_close_top_ok(t, st, bound);
        lemma_close_while_ok(t, close_top(t, st), indent, bound);
    }
}

proof fn lemma_continue_block_ok(t: Seq<char>, st: ParseState, indent: int, end: int)
    requires
        stack_ok(st.stack, end),
    ensures
        stack_ok(continue_block(t, st, indent, end).0.stack, end),
    decreases st.stack.len(),
{
    if st.stack.len() == 0 {
    } else if st.stack.last().children.len() == 0 && indent >= st.stack.last().column {
        let ns = extend_top(st, end).stack;
        assert forall|i: int| 0 <= i < ns.len() implies {
            let o = #[trigger] ns[i];
            0 <= o.block_start <= o.content_start <= o.content_end <= end
        } by {
            assert(st.stack[i].block_start == ns[i].block_start);
        }
    } else {
        lemma_close_top_ok(t, st, end);
        lemma_continue_block_ok(t, close_top(t, st), indent, end);
    }
}


// ---------------------------------------------------------------------------
// Spans of parsed blocks
// ---------------------------------------------------------------------------

/// A block's content lies inside it: its whole span starts no later than its
/// content and ends no earlier.
pub open spec fn spans_nested(b: BlockView) -> bool {
    b.block_start <= b.content_start <= b.content_end <= b.block_end
}

/// Every block of a forest, at any depth, has its content inside it.
pub open spec fn forest_nested(s: Seq<BlockView>) -> bool {
    forall|i: int| 0 <= i < flatten_forest(s).len() ==> spans_nested(#[trigger] flatten_forest(s)[i])
}

/// The finished blocks, and the children of every open block, are nested; open
/// blocks lie before `bound`.
pub open spec fn state_nested(st: ParseState, bound: int) -> bool {
    &&& stack_ok(st.stack, bound)
    &&& forest_nested(st.roots)
    &&& forall|k: int| 0 <= k < st.stack.len() ==> forest_nested(#[trigger] st.stack[k].children)
}

proof fn lemma_forest_nested_push(s: Seq<BlockView>, b: BlockView)
    requires
        forest_nested(s),
        forest_nested(b.children),
        spans_nested(b),
    ensures
        forest_nested(s.push(b)),
{
    lemma_flatten_forest_push(s, b);
    let f = flatten_forest(s.push(b));
    let a = flatten_forest(s);
    let c = flatten_forest(b.children);
    assert(flatten_tree(b) == seq![b] + c);
    assert forall|i: int| 0 <= i < f.len() implies spans_nested(#[trigger] f[i]) by {
        if i < a.len() {
            assert(f[i] == a[i]);
        } else if i == a.len() {
            assert(f[i] == b);
        } else {
            assert(f[i] == c[i - a.len() - 1]);
        }
    }
}

proof fn lemma_close_top_nested(t: Seq<char>, st: ParseState, bound: int)
    requires
        state_nested(st, bound),
        bound <= t.len(),
    ensures
        state_nested(close_top(t, st), bound),
{
    lemma_close_top_ok(t, st, bound);
    if st.stack.len() > 0 {
        let o = st.stack.last();
        assert(o == st.stack[st.stack.len() - 1]);
        let b = finish(t, o);
        crate::text::lemma_byte_offset_mono(t, o.block_start, o.content_start);
        crate::text::lemma_byte_offset_mono(t, o.content_start, o.content_end);
        assert(spans_nested(b));
        assert(forest_nested(o.children));
        let rest = st.stack.drop_last();
        if rest.len() == 0 {
            lemma_forest_nested_push(st.roots, b);
        } else {
            let p = rest.last();
            assert(p == st.stack[rest.len() - 1]);
            lemma_forest_nested_push(p.children, b);
            let ns = close_top(t, st).stack;
            assert forall|k: int| 0 <= k < ns.len() implies forest_nested(#[trigger] ns[k].children) by {
                if k < ns.len() - 1 {
                    assert(ns[k] == st.stack[k]);
                }
            }
        }
    }
}

proof fn lemma_close_while_nested(t: Seq<char>, st: ParseState, indent: int, bound: int)
    requires
        state_nested(st, bound),
        bound <= t.len(),
    ensures
        state_nested(close_while(t, st, indent), bound),
    decreases st.stack.len(),
{
    if st.stack.len() > 0 && indent <= st.stack.last().indent {
        lemma_close_top_nested(t, st, bound);
        lemma_close_top_ok(t, st, bound);
        lemma_close_while_nested(t, close_top(t, st), indent, bound);
    }
}

proof fn lemma_extend_top_nested(st: ParseState, bound: int, end: int)
    requires
        state_nested(st, bound),
        bound <= end,
    ensures
        state_nested(extend_top(st, end), end),
{
    lemma_stack_ok_widen(st.stack, bound, end);
    if st.stack.len() > 0 {
        let ns = extend_top(st, end).stack;
        assert forall|k: int| 0 <= k < ns.len() implies forest_nested(#[trigger] ns[k].children) by {
            assert(ns[k].children == st.stack[k].children);
        }
        assert forall|i: int| 0 <= i < ns.len() implies {
            let o = #[trigger] ns[i];
            0 <= o.block_start <= o.content_start <= o.content_end <= end
        } by {
            assert(st.stack[i].block_start == ns[i].block_start);
        }
    }
}

proof fn lemma_continue_block_nested(t: Seq<char>, st: ParseState, indent: int, bound: int, end: int)
    requires
        state_nested(st, bound),
        bound <= end <= t.len(),
    ensures
        state_nested(continue_block(t, st, indent, end).0, end),
    decreases st.stack.len(),
{
    if st.stack.len() == 0 {
        lemma_stack_ok_widen(st.stack, bound, end);
    } else if st.stack.last().children.len() == 0 && indent >= st.stack.last().column {
        lemma_extend_top_nested(st, bound, end);
    } else {
        lemma_close_top_nested(t, st, bound);
        lemma_close_top_ok(t, st, bound);
        lemma_continue_block_nested(t, close_top(t, st), indent, bound, end);
    }
}

proof fn lemma_indent_end_bounds(t: Seq<char>, i: int, e: int)
    requires
        i <= e,
    ensures
        i <= indent_end(t, i, e) <= e || (i < 0 && indent_end(t, i, e) == i),
    decreases e - i,
{
    if 0 <= i < e && is_indent_char(t[i]) {
        lemma_indent_end_bounds(t, i + 1, e);
    }
}

proof fn lemma_push_open_nested(st: ParseState, o: OpenView, end: int)
    requires
        state_nested(st, end),
        0 <= o.block_start <= o.content_start <= o.content_end <= end,
        o.children.len() == 0,
    ensures
        state_nested(push_open(st, o), end),
{
    let ns = push_open(st, o).stack;
    assert(flatten_forest(o.children) =~= Seq::<BlockView>::empty());
    assert forall|k: int| 0 <= k < ns.len() implies forest_nested(#[trigger] ns[k].children) by {
        if k < st.stack.len() {
            assert(ns[k] == st.stack[k]);
        }
    }
    assert forall|i: int| 0 <= i < ns.len() implies {
        let x = #[trigger] ns[i];
        0 <= x.block_start <= x.content_start <= x.content_end <= end
    } by {
        if i < st.stack.len() {
            assert(ns[i] == st.stack[i]);
        }
    }
}

proof fn lemma_step_nested(t: Seq<char>, st: ParseState, in_fence: bool, start: int, end: int)
    requires
        state_nested(st, start),
        0 <= start <= end <= t.len(),
    ensures
        state_nested(step(t, st, in_fence, start, end), end),
{
    let li = analyze(t, start, end, in_fence);
    lemma_indent_end_bounds(t, start, end);
    if fence_after(t, in_fence, start, end) {
        lemma_stack_ok_widen(st.stack, start, end);
    } else if li.is_blank {
        lemma_extend_top_nested(st, start, end);
    } else if li.is_outliner {
        lemma_stack_ok_widen(st.stack, start, end);
        lemma_close_while_nested(t, st, li.indent_width, end);
        lemma_push_open_nested(close_while(t, st, li.indent_width), outliner_open(li), end);
    } else {
        lemma_continue_block_nested(t, st, li.indent_width, start, end);
        let (s2, joined) = continue_block(t, st, li.indent_width, end);
        if !joined {
            lemma_push_open_nested(s2, plaintext_open(li), end);
        }
    }
}

proof fn lemma_run_nested(t: Seq<char>, pos: int, st: ParseState, in_fence: bool)
    requires
        0 <= pos <= t.len(),
        state_nested(st, pos),
    ensures
        state_nested(run(t, pos, st, in_fence), t.len() as int),
    decreases t.len() - pos,
{
    if pos >= t.len() {
    } else {
        let end = text_line_end(t, pos);
        lemma_next_newline(t, pos, t.len() as int);
        lemma_step_nested(t, st, in_fence, pos, end);
        lemma_run_nested(t, end, step(t, st, in_fence, pos, end), fence_after(t, in_fence, pos, end));
    }
}

proof fn lemma_close_all_nested(t: Seq<char>, st: ParseState)
    requires
        state_nested(st, t.len() as int),
    ensures
        forest_nested(close_all(t, st).roots),
    decreases st.stack.len(),
{
    if st.stack.len() > 0 {
        lemma_close_top_nested(t, st, t.len() as int);
        lemma_close_top_ok(t, st, t.len() as int);
        lemma_close_all_nested(t, close_top(t, st));
    }
}

/// Every parsed block, at any depth, has its content inside its whole span.
pub proof fn law_block_spans_nested(t: Seq<char>)
    ensures
        forest_nested(parse_spec(t)),
{
    let init = ParseState { roots: seq![], stack: seq![] };
    assert(flatten_forest(Seq::<BlockView>::empty()) =~= Seq::<BlockView>::empty());
    lemma_run_nested(t, 0, init, false);
    lemma_close_all_nested(t, run(t, 0, init, false));
}


/// Each top-level block ends before the next one starts.
pub open spec fn roots_in_order(s: Seq<BlockView>) -> bool {
    forall|i: int| #![trigger s[i], s[i + 1]] 0 <= i < s.len() - 1 ==> s[i].block_end <= s[i + 1].block_start
}

/// The finished top-level blocks are in order and end by byte `b`.
pub open spec fn roots_before(s: Seq<BlockView>, b: int) -> bool {
    forall|i: int| 0 <= i < s.len() ==> (#[trigger] s[i]).block_end <= b
}

/// The top-level blocks are in order and end by the bound; the outermost open
/// block starts after them; the finished children of open blocks end by the bound.
pub open spec fn state_ordered(t: Seq<char>, st: ParseState, bound: int) -> bool {
    &&& roots_in_order(st.roots)
    &&& roots_before(st.roots, byte_offset(t, bound))
    &&& st.stack.len() > 0 ==> roots_before(st.roots, byte_offset(t, st.stack[0].block_start))
    &&& forall|k: int| 0 <= k < st.stack.len() ==> roots_before(#[trigger] st.stack[k].children, byte_offset(t, bound))
}

proof fn lemma_close_top_ordered(t: Seq<char>, st: ParseState, bound: int)
    requires
        state_nested(st, bound),
        state_ordered(t, st, bound),
        0 <= bound <= t.len(),
    ensures
        state_ordered(t, close_top(t, st), bound),
{
    if st.stack.len() > 0 {
        let o = st.stack.last();
        assert(o == st.stack[st.stack.len() - 1]);
        let b = finish(t, o);
        crate::text::lemma_byte_offset_mono(t, o.content_end, bound);
        crate::text::lemma_byte_offset_mono(t, o.block_start, o.content_start);
        crate::text::lemma_byte_offset_mono(t, o.content_start, o.content_end);
        if o.children.len() > 0 {
            assert(o.children.last() == o.children[o.children.len() - 1]);
        }
        assert(b.block_end <= byte_offset(t, bound));
        let rest = st.stack.drop_last();
        let ns = close_top(t, st);
        if rest.len() == 0 {
            assert(o == st.stack[0]);
            let r = st.roots.push(b);
            assert forall|i: int| #![trigger r[i], r[i + 1]] 0 <= i < r.len() - 1 implies r[i].block_end <= r[i + 1].block_start by {
                if i < st.roots.len() - 1 {
                    assert(r[i] == st.roots[i] && r[i + 1] == st.roots[i + 1]);
                } else {
                    assert(r[i] == st.roots[i] && r[i + 1] == b);
                }
            }
            assert forall|i: int| 0 <= i < r.len() implies (#[trigger] r[i]).block_end <= byte_offset(t, bound) by {
                if i < st.roots.len() {
                    assert(r[i] == st.roots[i]);
                }
            }
        } else {
            let p = rest.last();
            assert(p == st.stack[rest.len() - 1]);
            assert(ns.stack[0].block_start == st.stack[0].block_start);
            assert forall|k: int| 0 <= k < ns.stack.len() implies roots_before(#[trigger] ns.stack[k].children, byte_offset(t, bound)) by {
                if k < ns.stack.len() - 1 {
                    assert(ns.stack[k] == st.stack[k]);
                } else {
                    let c = p.children.push(b);
                    assert(ns.stack[k].children == c);
                    assert forall|i: int| 0 <= i < c.len() implies (#[trigger] c[i]).block_end <= byte_offset(t, bound) by {
                        if i < p.children.len() {
                            assert(c[i] == p.children[i]);
                        }
                    }
                }
            }
        }
    }
}

proof fn lemma_widen_ordered(t: Seq<char>, st: ParseState, bound: int, end: int)
    requires
        state_ordered(t, st, bound),
        0 <= bound <= end <= t.len(),
    ensures
        state_ordered(t, st, end),
{
    crate::text::lemma_byte_offset_mono(t, bound, end);
}

proof fn lemma_close_while_ordered(t: Seq<char>, st: ParseState, indent: int, bound: int)
    requires
        state_nested(st, bound),
        state_ordered(t, st, bound),
        0 <= bound <= t.len(),
    ensures
        state_ordered(t, close_while(t, st, indent), bound),
    decreases st.stack.len(),
{
    if st.stack.len() > 0 && indent <= st.stack.last().indent {
        lemma_close_top_ordered(t, st, bound);
        lemma_close_top_nested(t, st, bound);
        lemma_close_top_ok(t, st, bound);
        lemma_close_while_ordered(t, close_top(t, st), indent, bound);
    }
}

proof fn lemma_extend_top_ordered(t: Seq<char>, st: ParseState, bound: int, end: int)
    requires
        state_ordered(t, st, bound),
        0 <= bound <= end <= t.len(),
    ensures
        state_ordered(t, extend_top(st, end), end),
{
    lemma_widen_ordered(t, st, bound, end);
    if st.stack.len() > 0 {
        let ns = extend_top(st, end).stack;
        assert(ns[0].block_start == st.stack[0].block_start);
        assert forall|k: int| 0 <= k < ns.len() implies roots_before(#[trigger] ns[k].children, byte_offset(t, end)) by {
            assert(ns[k].children == st.stack[k].children);
        }
    }
}

proof fn lemma_continue_block_ordered(t: Seq<char>, st: ParseState, indent: int, bound: int, end: int)
    requires
        state_nested(st, bound),
        state_ordered(t, st, bound),
        0 <= bound <= end <= t.len(),
    ensures
        state_ordered(t, continue_block(t, st, indent, end).0, end),
        !continue_block(t, st, indent, end).1 ==> roots_before(
            continue_block(t, st, indent, end).0.roots,
            byte_offset(t, bound),
        ),
    decreases st.stack.len(),
{
    if st.stack.len() == 0 {
        lemma_widen_ordered(t, st, bound, end);
    } else if st.stack.last().children.len() == 0 && indent >= st.stack.last().column {
        lemma_extend_top_ordered(t, st, bound, end);
    } else {
        lemma_close_top_ordered(t, st, bound);
        lemma_close_top_nested(t, st, bound);
        lemma_close_top_ok(t, st, bound);
        lemma_continue_block_ordered(t, close_top(t, st), indent, bound, end);
    }
}

proof fn lemma_push_open_ordered(t: Seq<char>, st: ParseState, o: OpenView, end: int)
    requires
        state_ordered(t, st, end),
        roots_before(st.roots, byte_offset(t, o.block_start)),
        o.children.len() == 0,
    ensures
        state_ordered(t, push_open(st, o), end),
{
    let ns = push_open(st, o).stack;
    if st.stack.len() > 0 {
        assert(ns[0] == st.stack[0]);
    } else {
        assert(ns[0] == o);
    }
    assert forall|k: int| 0 <= k < ns.len() implies roots_before(#[trigger] ns[k].children, byte_offset(t, end)) by {
        if k < st.stack.len() {
            assert(ns[k] == st.stack[k]);
        } else {
            assert(ns[k] == o);
        }
    }
}

proof fn lemma_step_ordered(t: Seq<char>, st: ParseState, in_fence: bool, start: int, end: int)
    requires
        state_nested(st, start),
        state_ordered(t, st, start),
        0 <= start <= end <= t.len(),
    ensures
        state_ordered(t, step(t, st, in_fence, start, end), end),
{
    let li = analyze(t, start, end, in_fence);
    if fence_after(t, in_fence, start, end) {
        lemma_widen_ordered(t, st, start, end);
    } else if li.is_blank {
        lemma_extend_top_ordered(t, st, start, end);
    } else if li.is_outliner {
        lemma_close_while_ordered(t, st, li.indent_width, start);
        let s1 = close_while(t, st, li.indent_width);
        lemma_widen_ordered(t, s1, start, end);
        lemma_push_open_ordered(t, s1, outliner_open(li), end);
    } else {
        lemma_continue_block_ordered(t, st, li.indent_width, start, end);
        let (s2, joined) = continue_block(t, st, li.indent_width, end);
        if !joined {
            lemma_push_open_ordered(t, s2, plaintext_open(li), end);
        }
    }
}

proof fn lemma_run_ordered(t: Seq<char>, pos: int, st: ParseState, in_fence: bool)
    requires
        0 <= pos <= t.len(),
        state_nested(st, pos),
        state_ordered(t, st, pos),
    ensures
        state_ordered(t, run(t, pos, st, in_fence), t.len() as int),
        state_nested(run(t, pos, st, in_fence), t.len() as int),
    decreases t.len() - pos,
{
    if pos < t.len() {
        let end = text_line_end(t, pos);
        lemma_next_newline(t, pos, t.len() as int);
        lemma_step_nested(t, st, in_fence, pos, end);
        lemma_step_ordered(t, st, in_fence, pos, end);
        lemma_run_ordered(t, end, step(t, st, in_fence, pos, end), fence_after(t, in_fence, pos, end));
    }
}

proof fn lemma_close_all_ordered(t: Seq<char>, st: ParseState)
    requires
        state_nested(st, t.len() as int),
        state_ordered(t, st, t.len() as int),
    ensures
        roots_in_order(close_all(t, st).roots),
    decreases st.stack.len(),
{
    if st.stack.len() > 0 {
        lemma_close_top_nested(t, st, t.len() as int);
        lemma_close_top_ordered(t, st, t.len() as int);
        lemma_close_top_ok(t, st, t.len() as int);
        lemma_close_all_ordered(t, close_top(t, st));
    }
}

/// The top-level blocks of a text come in source order, each ending before the
/// next one starts.
pub proof fn law_root_blocks_in_order(t: Seq<char>)
    ensures
        roots_in_order(parse_spec(t)),
{
    let init = ParseState { roots: seq![], stack: seq![] };
    assert(flatten_forest(Seq::<BlockView>::empty()) =~= Seq::<BlockView>::empty());
    lemma_run_ordered(t, 0, init, false);
    lemma_close_all_ordered(t, run(t, 0, init, false));
}


/// Every block of a forest, at any depth, has its children in order, each ending
/// before the next one starts.
pub open spec fn forest_children_in_order(s: Seq<BlockView>) -> bool {
    forall|i: int| 0 <= i < flatten_forest(s).len() ==> roots_in_order(#[trigger] flatten_forest(s)[i].children)
}

/// The children of each open block are in order and end before the next open
/// block starts, and every finished block has its children in order.
pub open spec fn state_children_ordered(t: Seq<char>, st: ParseState) -> bool {
    &&& forest_children_in_order(st.roots)
    &&& forall|k: int| 0 <= k < st.stack.len() ==> forest_children_in_order(#[trigger] st.stack[k].children)
    &&& forall|k: int| 0 <= k < st.stack.len() ==> roots_in_order(#[trigger] st.stack[k].children)
    &&& forall|k: int|
        0 <= k < st.stack.len() - 1 ==> roots_before(#[trigger] st.stack[k].children, byte_offset(t, st.stack[k + 1].block_start))
}

proof fn lemma_forest_children_push(s: Seq<BlockView>, b: BlockView)
    requires
        forest_children_in_order(s),
        forest_children_in_order(b.children),
        roots_in_order(b.children),
    ensures
        forest_children_in_order(s.push(b)),
{
    lemma_flatten_forest_push(s, b);
    let f = flatten_forest(s.push(b));
    let a = flatten_forest(s);
    let c = flatten_forest(b.children);
    assert(flatten_tree(b) == seq![b] + c);
    assert forall|i: int| 0 <= i < f.len() implies roots_in_order(#[trigger] f[i].children) by {
        if i < a.len() {
            assert(f[i] == a[i]);
        } else if i == a.len() {
            assert(f[i] == b);
        } else {
            assert(f[i] == c[i - a.len() - 1]);
        }
    }
}

proof fn lemma_push_in_order(s: Seq<BlockView>, b: BlockView, e: int)
    requires
        roots_in_order(s),
        roots_before(s, b.block_start),
        b.block_end <= e,
        roots_before(s, e),
    ensures
        roots_in_order(s.push(b)),
        roots_before(s.push(b), e),
{
    let r = s.push(b);
    assert forall|i: int| #![trigger r[i], r[i + 1]] 0 <= i < r.len() - 1 implies r[i].block_end <= r[i + 1].block_start by {
        assert(r[i] == s[i]);
        if i < s.len() - 1 {
            assert(r[i + 1] == s[i + 1]);
        }
    }
    assert forall|i: int| 0 <= i < r.len() implies (#[trigger] r[i]).block_end <= e by {
        if i < s.len() {
            assert(r[i] == s[i]);
        }
    }
}

proof fn lemma_close_top_children(t: Seq<char>, st: ParseState, bound: int)
    requires
        state_nested(st, bound),
        state_ordered(t, st, bound),
        state_children_ordered(t, st),
        0 <= bound <= t.len(),
    ensures
        state_children_ordered(t, close_top(t, st)),
{
    if st.stack.len() > 0 {
        let n = st.stack.len() - 1;
        let o = st.stack.last();
        assert(o == st.stack[n]);
        let b = finish(t, o);
        crate::text::lemma_byte_offset_mono(t, o.content_end, bound);
        crate::text::lemma_byte_offset_mono(t, o.block_start, o.content_start);
        crate::text::lemma_byte_offset_mono(t, o.content_start, o.content_end);
        if o.children.len() > 0 {
            assert(o.children.last() == o.children[o.children.len() - 1]);
        }
        assert(roots_in_order(b.children));
        assert(forest_children_in_order(b.children));
        let rest = st.stack.drop_last();
        let ns = close_top(t, st);
        if rest.len() == 0 {
            lemma_forest_children_push(st.roots, b);
        } else {
            let p = rest.last();
            assert(p == st.stack[n - 1]);
            lemma_forest_children_push(p.children, b);
            assert(roots_before(p.children, byte_offset(t, o.block_start)));
            assert(roots_before(p.children, byte_offset(t, bound)));
            assert(b.block_end <= byte_offset(t, bound));
            lemma_push_in_order(p.children, b, byte_offset(t, bound));
            assert forall|k: int| 0 <= k < ns.stack.len() implies forest_children_in_order(#[trigger] ns.stack[k].children)
                && roots_in_order(ns.stack[k].children) by {
                if k < ns.stack.len() - 1 {
                    assert(ns.stack[k] == st.stack[k]);
                }
            }
            assert forall|k: int| 0 <= k < ns.stack.len() - 1 implies roots_before(
                #[trigger] ns.stack[k].children,
                byte_offset(t, ns.stack[k + 1].block_start),
            ) by {
                assert(ns.stack[k] == st.stack[k]);
                assert(ns.stack[k + 1].block_start == st.stack[k + 1].block_start);
            }
        }
    }
}

proof fn lemma_close_while_children(t: Seq<char>, st: ParseState, indent: int, bound: int)
    requires
        state_nested(st, bound),
        state_ordered(t, st, bound),
        state_children_ordered(t, st),
        0 <= bound <= t.len(),
    ensures
        state_children_ordered(t, close_while(t, st, indent)),
    decreases st.stack.len(),
{
    if st.stack.len() > 0 && indent <= st.stack.last().indent {
        lemma_close_top_children(t, st, bound);
        lemma_close_top_ordered(t, st, bound);
        lemma_close_top_nested(t, st, bound);
        lemma_close_top_ok(t, st, bound);
        lemma_close_while_children(t, close_top(t, st), indent, bound);
    }
}

proof fn lemma_extend_top_children(t: Seq<char>, st: ParseState, end: int)
    requires
        state_children_ordered(t, st),
    ensures
        state_children_ordered(t, extend_top(st, end)),
{
    if st.stack.len() > 0 {
        let ns = extend_top(st, end).stack;
        assert forall|k: int| 0 <= k < ns.len() implies forest_children_in_order(#[trigger] ns[k].children)
            && roots_in_order(ns[k].children) by {
            assert(ns[k].children == st.stack[k].children);
        }
        assert forall|k: int| 0 <= k < ns.len() - 1 implies roots_before(
            #[trigger] ns[k].children,
            byte_offset(t, ns[k + 1].block_start),
        ) by {
            assert(ns[k] == st.stack[k]);
            assert(ns[k + 1].block_start == st.stack[k + 1].block_start);
        }
    }
}

proof fn lemma_continue_block_children(t: Seq<char>, st: ParseState, indent: int, bound: int, end: int)
    requires
        state_nested(st, bound),
        state_ordered(t, st, bound),
        state_children_ordered(t, st),
        0 <= bound <= end <= t.len(),
    ensures
        state_children_ordered(t, continue_block(t, st, indent, end).0),
        !continue_block(t, st, indent, end).1 ==> forall|k: int|
            0 <= k < continue_block(t, st, indent, end).0.stack.len() ==> roots_before(
                #[trigger] continue_block(t, st, indent, end).0.stack[k].children,
                byte_offset(t, bound),
            ),
    decreases st.stack.len(),
{
    if st.stack.len() == 0 {
    } else if st.stack.last().children.len() == 0 && indent >= st.stack.last().column {
        lemma_extend_top_children(t, st, end);
    } else {
        lemma_close_top_children(t, st, bound);
        lemma_close_top_ordered(t, st, bound);
        lemma_close_top_nested(t, st, bound);
        lemma_close_top_ok(t, st, bound);
        lemma_continue_block_children(t, close_top(t, st), indent, bound, end);
    }
}

proof fn lemma_push_open_children(t: Seq<char>, st: ParseState, o: OpenView)
    requires
        state_children_ordered(t, st),
        st.stack.len() > 0 ==> roots_before(st.stack.last().children, byte_offset(t, o.block_start)),
        o.children.len() == 0,
    ensures
        state_children_ordered(t, push_open(st, o)),
{
    let ns = push_open(st, o).stack;
    assert(flatten_forest(o.children) =~= Seq::<BlockView>::empty());
    assert forall|k: int| 0 <= k < ns.len() implies forest_children_in_order(#[trigger] ns[k].children)
        && roots_in_order(ns[k].children) by {
        if k < st.stack.len() {
            assert(ns[k] == st.stack[k]);
        } else {
            assert(ns[k] == o);
        }
    }
    assert forall|k: int| 0 <= k < ns.len() - 1 implies roots_before(
        #[trigger] ns[k].children,
        byte_offset(t, ns[k + 1].block_start),
    ) by {
        assert(ns[k] == st.stack[k]);
        if k < st.stack.len() - 1 {
            assert(ns[k + 1] == st.stack[k + 1]);
        } else {
            assert(ns[k + 1] == o);
            assert(st.stack.last() == st.stack[k]);
        }
    }
}

proof fn lemma_step_children(t: Seq<char>, st: ParseState, in_fence: bool, start: int, end: int)
    requires
        state_nested(st, start),
        state_ordered(t, st, start),
        state_children_ordered(t, st),
        0 <= start <= end <= t.len(),
    ensures
        state_children_ordered(t, step(t, st, in_fence, start, end)),
{
    let li = analyze(t, start, end, in_fence);
    if fence_after(t, in_fence, start, end) {
    } else if li.is_blank {
        lemma_extend_top_children(t, st, end);
    } else if li.is_outliner {
        lemma_close_while_children(t, st, li.indent_width, start);
        lemma_close_while_ordered(t, st, li.indent_width, start);
        let s1 = close_while(t, st, li.indent_width);
        if s1.stack.len() > 0 {
            assert(s1.stack.last() == s1.stack[s1.stack.len() - 1]);
        }
        lemma_push_open_children(t, s1, outliner_open(li));
    } else {
        lemma_continue_block_children(t, st, li.indent_width, start, end);
        let (s2, joined) = continue_block(t, st, li.indent_width, end);
        if !joined {
            if s2.stack.len() > 0 {
                assert(s2.stack.last() == s2.stack[s2.stack.len() - 1]);
            }
            lemma_push_open_children(t, s2, plaintext_open(li));
        }
    }
}

proof fn lemma_run_children(t: Seq<char>, pos: int, st: ParseState, in_fence: bool)
    requires
        0 <= pos <= t.len(),
        state_nested(st, pos),
        state_ordered(t, st, pos),
        state_children_ordered(t, st),
    ensures
        state_children_ordered(t, run(t, pos, st, in_fence)),
    decreases t.len() - pos,
{
    if pos < t.len() {
        let end = text_line_end(t, pos);
        lemma_next_newline(t, pos, t.len() as int);
        lemma_step_nested(t, st, in_fence, pos, end);
        lemma_step_ordered(t, st, in_fence, pos, end);
        lemma_step_children(t, st, in_fence, pos, end);
        lemma_run_children(t, end, step(t, st, in_fence, pos, end), fence_after(t, in_fence, pos, end));
    }
}

proof fn lemma_close_all_children(t: Seq<char>, st: ParseState)
    requires
        state_nested(st, t.len() as int),
        state_ordered(t, st, t.len() as int),
        state_children_ordered(t, st),
    ensures
        forest_children_in_order(close_all(t, st).roots),
    decreases st.stack.len(),
{
    if st.stack.len() > 0 {
        lemma_close_top_children(t, st, t.len() as int);
        lemma_close_top_nested(t, st, t.len() as int);
        lemma_close_top_ordered(t, st, t.len() as int);
        lemma_close_top_ok(t, st, t.len() as int);
        lemma_close_all_children(t, close_top(t, st));
    }
}

/// The children of every parsed block, at any depth, come in source order, each
/// ending before the next one starts.
pub proof fn law_child_blocks_in_order(t: Seq<char>)
    ensures
        forest_children_in_order(parse_spec(t)),
{
    let init = ParseState { roots: seq![], stack: seq![] };
    assert(flatten_forest(Seq::<BlockView>::empty()) =~= Seq::<BlockView>::empty());
    lemma_run_children(t, 0, init, false);
    lemma_run_ordered(t, 0, init, false);
    lemma_close_all_children(t, run(t, 0, init, false));
}


/// Each child of `b` lies inside `b`'s whole span.
pub open spec fn children_inside(b: BlockView) -> bool {
    forall|i: int|
        0 <= i < b.children.len() ==> b.block_start <= (#[trigger] b.children[i]).block_start && b.children[i].block_end
            <= b.block_end
}

/// Every block of a forest, at any depth, holds its children inside its span.
pub open spec fn forest_children_inside(s: Seq<BlockView>) -> bool {
    forall|i: int| 0 <= i < flatten_forest(s).len() ==> children_inside(#[trigger] flatten_forest(s)[i])
}

/// Open blocks start in order, their finished children start after them, and
/// every finished block holds its children inside its span.
pub open spec fn state_contained(t: Seq<char>, st: ParseState) -> bool {
    &&& forest_children_inside(st.roots)
    &&& forall|k: int| 0 <= k < st.stack.len() ==> forest_children_inside(#[trigger] st.stack[k].children)
    &&& forall|k: int| #![trigger st.stack[k], st.stack[k + 1]] 0 <= k < st.stack.len() - 1 ==> st.stack[k].block_start <= st.stack[k + 1].block_start
    &&& forall|k: int, i: int|
        0 <= k < st.stack.len() && 0 <= i < st.stack[k].children.len() ==> byte_offset(t, st.stack[k].block_start)
            <= (#[trigger] st.stack[k].children[i]).block_start
}

proof fn lemma_forest_inside_push(s: Seq<BlockView>, b: BlockView)
    requires
        forest_children_inside(s),
        forest_children_inside(b.children),
        children_inside(b),
    ensures
        forest_children_inside(s.push(b)),
{
    lemma_flatten_forest_push(s, b);
    let f = flatten_forest(s.push(b));
    let a = flatten_forest(s);
    let c = flatten_forest(b.children);
    assert(flatten_tree(b) == seq![b] + c);
    assert forall|i: int| 0 <= i < f.len() implies children_inside(#[trigger] f[i]) by {
        if i < a.len() {
            assert(f[i] == a[i]);
        } else if i == a.len() {
            assert(f[i] == b);
        } else {
            assert(f[i] == c[i - a.len() - 1]);
        }
    }
}

/// In an ordered forest of nested blocks, no block ends after the last one.
proof fn lemma_last_ends_latest(s: Seq<BlockView>, i: int)
    requires
        roots_in_order(s),
        forest_nested(s),
        0 <= i < s.len(),
    ensures
        s[i].block_end <= s.last().block_end,
    decreases s.len() - i,
{
    if i < s.len() - 1 {
        lemma_last_ends_latest(s, i + 1);
        assert(s[i].block_end <= s[i + 1].block_start);
        lemma_root_in_flatten(s, i + 1);
        assert(spans_nested(s[i + 1]));
    }
}

/// A top-level block of a forest is among its flattened blocks.
proof fn lemma_root_in_flatten(s: Seq<BlockView>, i: int)
    requires
        0 <= i < s.len(),
    ensures
        exists|j: int| 0 <= j < flatten_forest(s).len() && flatten_forest(s)[j] == s[i],
    decreases s.len(),
{
    assert(flatten_tree(s[0]) == seq![s[0]] + flatten_forest(s[0].children));
    assert(flatten_forest(s) == flatten_tree(s[0]) + flatten_forest(s.drop_first()));
    if i == 0 {
        assert(flatten_forest(s)[0] == s[0]);
    } else {
        lemma_root_in_flatten(s.drop_first(), i - 1);
        let j = choose|j: int| 0 <= j < flatten_forest(s.drop_first()).len() && flatten_forest(s.drop_first())[j]
            == s.drop_first()[i - 1];
        let off = flatten_tree(s[0]).len();
        assert(flatten_forest(s)[off + j] == s[i]);
    }
}

proof fn lemma_close_top_contained(t: Seq<char>, st: ParseState, bound: int)
    requires
        state_nested(st, bound),
        state_ordered(t, st, bound),
        state_children_ordered(t, st),
        state_contained(t, st),
        0 <= bound <= t.len(),
    ensures
        state_contained(t, close_top(t, st)),
{
    if st.stack.len() > 0 {
        let n = st.stack.len() - 1;
        let o = st.stack.last();
        assert(o == st.stack[n]);
        let b = finish(t, o);
        crate::text::lemma_byte_offset_mono(t, o.block_start, o.content_start);
        crate::text::lemma_byte_offset_mono(t, o.content_start, o.content_end);
        assert forall|i: int| 0 <= i < b.children.len() implies b.block_start <= (#[trigger] b.children[i]).block_start
            && b.children[i].block_end <= b.block_end by {
            assert(b.children[i] == st.stack[n].children[i]);
            lemma_last_ends_latest(o.children, i);
        }
        let rest = st.stack.drop_last();
        let ns = close_top(t, st);
        if rest.len() == 0 {
            lemma_forest_inside_push(st.roots, b);
        } else {
            let p = rest.last();
            assert(p == st.stack[n - 1]);
            lemma_forest_inside_push(p.children, b);
            crate::text::lemma_byte_offset_mono(t, p.block_start, o.block_start);
            assert forall|k: int| 0 <= k < ns.stack.len() implies forest_children_inside(#[trigger] ns.stack[k].children) by {
                if k < ns.stack.len() - 1 {
                    assert(ns.stack[k] == st.stack[k]);
                }
            }
            assert forall|k: int| #![trigger ns.stack[k], ns.stack[k + 1]] 0 <= k < ns.stack.len() - 1 implies ns.stack[k].block_start <= ns.stack[k + 1].block_start by {
                assert(ns.stack[k] == st.stack[k]);
                assert(ns.stack[k + 1].block_start == st.stack[k + 1].block_start);
            }
            assert forall|k: int, i: int|
                0 <= k < ns.stack.len() && 0 <= i < ns.stack[k].children.len() implies byte_offset(t, ns.stack[k].block_start)
                    <= (#[trigger] ns.stack[k].children[i]).block_start by {
                if k < ns.stack.len() - 1 {
                    assert(ns.stack[k] == st.stack[k]);
                } else {
                    assert(ns.stack[k].children == p.children.push(b));
                    if i < p.children.len() {
                        assert(ns.stack[k].children[i] == p.children[i]);
                        assert(p.children[i] == st.stack[n - 1].children[i]);
                    }
                }
            }
        }
    }
}

proof fn lemma_close_while_contained(t: Seq<char>, st: ParseState, indent: int, bound: int)
    requires
        state_nested(st, bound),
        state_ordered(t, st, bound),
        state_children_ordered(t, st),
        state_contained(t, st),
        0 <= bound <= t.len(),
    ensures
        state_contained(t, close_while(t, st, indent)),
        stack_ok(close_while(t, st, indent).stack, bound),
    decreases st.stack.len(),
{
    if st.stack.len() > 0 && indent <= st.stack.last().indent {
        lemma_close_top_contained(t, st, bound);
        lemma_close_top_children(t, st, bound);
        lemma_close_top_ordered(t, st, bound);
        lemma_close_top_nested(t, st, bound);
        lemma_close_top_ok(t, st, bound);
        lemma_close_while_contained(t, close_top(t, st), indent, bound);
    }
}

proof fn lemma_extend_top_contained(t: Seq<char>, st: ParseState, end: int)
    requires
        state_contained(t, st),
    ensures
        state_contained(t, extend_top(st, end)),
{
    if st.stack.len() > 0 {
        let ns = extend_top(st, end).stack;
        assert forall|k: int| 0 <= k < ns.len() implies forest_children_inside(#[trigger] ns[k].children) by {
            assert(ns[k].children == st.stack[k].children);
        }
        assert forall|k: int| #![trigger ns[k], ns[k + 1]] 0 <= k < ns.len() - 1 implies ns[k].block_start <= ns[k + 1].block_start by {
            assert(ns[k] == st.stack[k]);
            assert(ns[k + 1].block_start == st.stack[k + 1].block_start);
        }
        assert forall|k: int, i: int|
            0 <= k < ns.len() && 0 <= i < ns[k].children.len() implies byte_offset(t, ns[k].block_start)
                <= (#[trigger] ns[k].children[i]).block_start by {
            assert(ns[k].children == st.stack[k].children);
            assert(ns[k].block_start == st.stack[k].block_start);
        }
    }
}

proof fn lemma_continue_block_contained(t: Seq<char>, st: ParseState, indent: int, bound: int, end: int)
    requires
        state_nested(st, bound),
        state_ordered(t, st, bound),
        state_children_ordered(t, st),
        state_contained(t, st),
        0 <= bound <= end <= t.len(),
    ensures
        state_contained(t, continue_block(t, st, indent, end).0),
        !continue_block(t, st, indent, end).1 ==> stack_ok(continue_block(t, st, indent, end).0.stack, bound),
    decreases st.stack.len(),
{
    if st.stack.len() == 0 {
    } else if st.stack.last().children.len() == 0 && indent >= st.stack.last().column {
        lemma_extend_top_contained(t, st, end);
    } else {
        lemma_close_top_contained(t, st, bound);
        lemma_close_top_children(t, st, bound);
        lemma_close_top_ordered(t, st, bound);
        lemma_close_top_nested(t, st, bound);
        lemma_close_top_ok(t, st, bound);
        lemma_continue_block_contained(t, close_top(t, st), indent, bound, end);
    }
}

proof fn lemma_push_open_contained(t: Seq<char>, st: ParseState, o: OpenView, bound: int)
    requires
        state_contained(t, st),
        stack_ok(st.stack, bound),
        bound <= o.block_start,
        o.children.len() == 0,
    ensures
        state_contained(t, push_open(st, o)),
{
    let ns = push_open(st, o).stack;
    assert(flatten_forest(o.children) =~= Seq::<BlockView>::empty());
    assert forall|k: int| 0 <= k < ns.len() implies forest_children_inside(#[trigger] ns[k].children) by {
        if k < st.stack.len() {
            assert(ns[k] == st.stack[k]);
        } else {
            assert(ns[k] == o);
        }
    }
    assert forall|k: int| #![trigger ns[k], ns[k + 1]] 0 <= k < ns.len() - 1 implies ns[k].block_start <= ns[k + 1].block_start by {
        assert(ns[k] == st.stack[k]);
        if k < st.stack.len() - 1 {
            assert(ns[k + 1] == st.stack[k + 1]);
        } else {
            assert(ns[k + 1] == o);
        }
    }
    assert forall|k: int, i: int|
        0 <= k < ns.len() && 0 <= i < ns[k].children.len() implies byte_offset(t, ns[k].block_start)
            <= (#[trigger] ns[k].children[i]).block_start by {
        if k < st.stack.len() {
            assert(ns[k] == st.stack[k]);
        } else {
            assert(ns[k] == o);
        }
    }
}

proof fn lemma_step_contained(t: Seq<char>, st: ParseState, in_fence: bool, start: int, end: int)
    requires
        state_nested(st, start),
        state_ordered(t, st, start),
        state_children_ordered(t, st),
        state_contained(t, st),
        0 <= start <= end <= t.len(),
    ensures
        state_contained(t, step(t, st, in_fence, start, end)),
{
    let li = analyze(t, start, end, in_fence);
    if fence_after(t, in_fence, start, end) {
    } else if li.is_blank {
        lemma_extend_top_contained(t, st, end);
    } else if li.is_outliner {
        lemma_close_while_contained(t, st, li.indent_width, start);
        lemma_push_open_contained(t, close_while(t, st, li.indent_width), outliner_open(li), start);
    } else {
        lemma_continue_block_contained(t, st, li.indent_width, start, end);
        let (s2, joined) = continue_block(t, st, li.indent_width, end);
        if !joined {
            lemma_push_open_contained(t, s2, plaintext_open(li), start);
        }
    }
}

proof fn lemma_run_contained(t: Seq<char>, pos: int, st: ParseState, in_fence: bool)
    requires
        0 <= pos <= t.len(),
        state_nested(st, pos),
        state_ordered(t, st, pos),
        state_children_ordered(t, st),
        state_contained(t, st),
    ensures
        state_contained(t, run(t, pos, st, in_fence)),
    decreases t.len() - pos,
{
    if pos < t.len() {
        let end = text_line_end(t, pos);
        lemma_next_newline(t, pos, t.len() as int);
        lemma_step_nested(t, st, in_fence, pos, end);
        lemma_step_ordered(t, st, in_fence, pos, end);
        lemma_step_children(t, st, in_fence, pos, end);
        lemma_step_contained(t, st, in_fence, pos, end);
        lemma_run_contained(t, end, step(t, st, in_fence, pos, end), fence_after(t, in_fence, pos, end));
    }
}

proof fn lemma_close_all_contained(t: Seq<char>, st: ParseState)
    requires
        state_nested(st, t.len() as int),
        state_ordered(t, st, t.len() as int),
        state_children_ordered(t, st),
        state_contained(t, st),
    ensures
        forest_children_inside(close_all(t, st).roots),
    decreases st.stack.len(),
{
    if st.stack.len() > 0 {
        lemma_close_top_contained(t, st, t.len() as int);
        lemma_close_top_children(t, st, t.len() as int);
        lemma_close_top_nested(t, st, t.len() as int);
        lemma_close_top_ordered(t, st, t.len() as int);
        lemma_close_top_ok(t, st, t.len() as int);
        lemma_close_all_contained(t, close_top(t, st));
    }
}

/// Every parsed block, at any depth, holds the whole spans of its children inside
/// its own whole span.
pub proof fn law_child_blocks_inside(t: Seq<char>)
    ensures
        forest_children_inside(parse_spec(t)),
{
    let init = ParseState { roots: seq![], stack: seq![] };
    assert(flatten_forest(Seq::<BlockView>::empty()) =~= Seq::<BlockView>::empty());
    lemma_run_nested(t, 0, init, false);
    lemma_run_ordered(t, 0, init, false);
    lemma_run_children(t, 0, init, false);
    lemma_run_contained(t, 0, init, false);
    lemma_close_all_contained(t, run(t, 0, init, false));
}


/// The characters at `k` open a reference: `#` or `[[`.
pub open spec fn opens_ref(t: Seq<char>, k: int) -> bool {
    0 <= k < t.len() && (t[k] == '#' || (k + 1 < t.len() && t[k] == '[' && t[k + 1] == '['))
}

/// `r` is written at characters `[k, e)` of `t` and opens there with `#` or `[[`;
/// a `#` tag names more than the `#` and does not end in sentence punctuation
/// (`.`, `,`, `!`, `?`, `;`, `:`, `)`, `]` or `}`).
pub open spec fn written_at(t: Seq<char>, r: RefView, k: int, e: int) -> bool {
    &&& k < e
    &&& r.start == byte_offset(t, k)
    &&& r.end == byte_offset(t, e)
    &&& opens_ref(t, k)
    &&& t[k] == '#' ==> k + 1 < e && !(t[e - 1] == '.' || t[e - 1] == ',' || t[e - 1] == '!' || t[e - 1] == '?'
        || t[e - 1] == ';' || t[e - 1] == ':' || t[e - 1] == ')' || t[e - 1] == ']' || t[e - 1] == '}')
}

/// `r` is written within characters `[lo, hi)` of `t`.
pub open spec fn ref_within(t: Seq<char>, r: RefView, lo: int, hi: int) -> bool {
    exists|k: int, e: int| lo <= k && e <= hi && #[trigger] written_at(t, r, k, e)
}

/// Every reference of `refs` is written within characters `[lo, hi)` of `t`.
pub open spec fn refs_within(t: Seq<char>, refs: Seq<RefView>, lo: int, hi: int) -> bool {
    forall|i: int| 0 <= i < refs.len() ==> ref_within(t, #[trigger] refs[i], lo, hi)
}

proof fn lemma_refs_within_cons(t: Seq<char>, r: RefView, rest: Seq<RefView>, lo: int, hi: int, k: int, e: int, mid: int)
    requires
        lo <= k,
        e <= mid,
        mid <= hi,
        written_at(t, r, k, e),
        refs_within(t, rest, mid, hi),
    ensures
        refs_within(t, seq![r] + rest, lo, hi),
{
    let all = seq![r] + rest;
    assert forall|i: int| 0 <= i < all.len() implies ref_within(t, #[trigger] all[i], lo, hi) by {
        if i == 0 {
            assert(all[0] == r);
            assert(written_at(t, all[i], k, e));
        } else {
            assert(all[i] == rest[i - 1]);
            assert(ref_within(t, rest[i - 1], mid, hi));
            let (a, b) = choose|a: int, b: int| mid <= a && b <= hi && #[trigger] written_at(t, rest[i - 1], a, b);
            assert(written_at(t, all[i], a, b));
        }
    }
}

proof fn lemma_refs_within_widen(t: Seq<char>, refs: Seq<RefView>, lo: int, hi: int, lo2: int, hi2: int)
    requires
        refs_within(t, refs, lo, hi),
        lo2 <= lo,
        hi <= hi2,
    ensures
        refs_within(t, refs, lo2, hi2),
{
    assert forall|i: int| 0 <= i < refs.len() implies ref_within(t, #[trigger] refs[i], lo2, hi2) by {
        assert(ref_within(t, refs[i], lo, hi));
        let (a, b) = choose|a: int, b: int| lo <= a && b <= hi && #[trigger] written_at(t, refs[i], a, b);
        assert(written_at(t, refs[i], a, b));
    }
}

proof fn lemma_refs_within_concat(t: Seq<char>, a: Seq<RefView>, b: Seq<RefView>, lo: int, hi: int)
    requires
        refs_within(t, a, lo, hi),
        refs_within(t, b, lo, hi),
    ensures
        refs_within(t, a + b, lo, hi),
{
    let all = a + b;
    assert forall|i: int| 0 <= i < all.len() implies ref_within(t, #[trigger] all[i], lo, hi) by {
        if i < a.len() {
            assert(all[i] == a[i]);
            assert(ref_within(t, a[i], lo, hi));
        } else {
            assert(all[i] == b[i - a.len()]);
            assert(ref_within(t, b[i - a.len()], lo, hi));
        }
    }
}

proof fn lemma_trim_punct_end_clean(t: Seq<char>, s: int, e: int)
    requires
        s <= e,
    ensures
        trim_punct_end(t, s, e) > s ==> !is_trailing_punct(t[trim_punct_end(t, s, e) - 1]),
    decreases e - s,
{
    if s < e && is_trailing_punct(t[e - 1]) {
        lemma_trim_punct_end_clean(t, s, e - 1);
    }
}

proof fn lemma_hashtag_end_clean(t: Seq<char>, ls: int, le: int, k: int)
    requires
        0 <= k < le,
        hashtag_end(t, ls, le, k) > k + 1,
    ensures
        t[k] == '#',
        !is_trailing_punct(t[hashtag_end(t, ls, le, k) - 1]),
{
    lemma_tag_run_end(t, le, k + 1);
    lemma_trim_punct_end_clean(t, k + 1, tag_run_end(t, le, k + 1));
}

proof fn lemma_inline_refs_within(t: Seq<char>, ls: int, le: int, k: int)
    requires
        0 <= ls,
        le <= t.len(),
    ensures
        refs_within(t, inline_refs(t, ls, le, k), k, le),
    decreases le - k,
{
    if k < 0 || k < ls || k >= le {
    } else {
        let b = bracket_close(t, le, k);
        let h = hashtag_end(t, ls, le, k);
        lemma_bracket_close(t, le, k);
        lemma_hashtag_end(t, ls, le, k);
        if b >= k + 2 && candidate_target(t.subrange(k + 2, b)) is Some {
            let r = ref_at(t, candidate_target(t.subrange(k + 2, b))->0, k, b + 2);
            lemma_inline_refs_within(t, ls, le, b + 2);
            assert(written_at(t, r, k, b + 2));
            lemma_refs_within_cons(t, r, inline_refs(t, ls, le, b + 2), k, le, k, b + 2, b + 2);
        } else if h > k + 1 && candidate_target(t.subrange(k + 1, h)) is Some {
            let r = ref_at(t, candidate_target(t.subrange(k + 1, h))->0, k, h);
            lemma_inline_refs_within(t, ls, le, h);
            lemma_hashtag_end_clean(t, ls, le, k);
            assert(written_at(t, r, k, h));
            lemma_refs_within_cons(t, r, inline_refs(t, ls, le, h), k, le, k, h, h);
        } else {
            lemma_inline_refs_within(t, ls, le, k + 1);
            lemma_refs_within_widen(t, inline_refs(t, ls, le, k + 1), k + 1, le, k, le);
        }
    }
}

proof fn lemma_content_line_refs_within(t: Seq<char>, i: int, ce: int, in_fence: bool)
    requires
        0 <= i,
        ce <= t.len(),
    ensures
        refs_within(t, content_line_refs(t, i, ce, in_fence), i, ce),
    decreases ce - i,
{
    if i < 0 || i >= ce {
    } else {
        let nl = next_newline(t, i, ce);
        lemma_next_newline(t, i, ce);
        let next = if nl < ce {
            nl + 1
        } else {
            ce
        };
        let fence = starts_fence(t, indent_end(t, i, nl), nl);
        let here = if !in_fence && !fence {
            inline_refs(t, i, nl, i)
        } else {
            seq![]
        };
        if !in_fence && !fence {
            lemma_inline_refs_within(t, i, nl, i);
            lemma_refs_within_widen(t, here, i, nl, i, ce);
        }
        let nf = if fence {
            !in_fence
        } else {
            in_fence
        };
        lemma_content_line_refs_within(t, next, ce, nf);
        lemma_refs_within_widen(t, content_line_refs(t, next, ce, nf), next, ce, i, ce);
        lemma_refs_within_concat(t, here, content_line_refs(t, next, ce, nf), i, ce);
    }
}

/// `r` is written from a `#` or a `[[` of `t`, within bytes `[lo, hi)`.
pub open spec fn ref_in_bytes(t: Seq<char>, r: RefView, lo: int, hi: int) -> bool {
    exists|k: int, e: int| lo <= byte_offset(t, k) && byte_offset(t, e) <= hi && #[trigger] written_at(t, r, k, e)
}

/// Every reference of `b` lies within its content and opens with `#` or `[[`.
pub open spec fn refs_in_content(t: Seq<char>, b: BlockView) -> bool {
    forall|i: int| 0 <= i < b.refs.len() ==> ref_in_bytes(t, #[trigger] b.refs[i], b.content_start, b.content_end)
}

/// Every block of a forest, at any depth, has its references within its content.
pub open spec fn forest_refs_in_content(t: Seq<char>, s: Seq<BlockView>) -> bool {
    forall|i: int| 0 <= i < flatten_forest(s).len() ==> refs_in_content(t, #[trigger] flatten_forest(s)[i])
}

/// The finished blocks, and the children of every open block, have their
/// references within their content.
pub open spec fn state_refs_in_content(t: Seq<char>, st: ParseState) -> bool {
    &&& forest_refs_in_content(t, st.roots)
    &&& forall|k: int| 0 <= k < st.stack.len() ==> forest_refs_in_content(t, #[trigger] st.stack[k].children)
}

proof fn lemma_forest_refs_push(t: Seq<char>, s: Seq<BlockView>, b: BlockView)
    requires
        forest_refs_in_content(t, s),
        forest_refs_in_content(t, b.children),
        refs_in_content(t, b),
    ensures
        forest_refs_in_content(t, s.push(b)),
{
    lemma_flatten_forest_push(s, b);
    let f = flatten_forest(s.push(b));
    let a = flatten_forest(s);
    let c = flatten_forest(b.children);
    assert(flatten_tree(b) == seq![b] + c);
    assert forall|i: int| 0 <= i < f.len() implies refs_in_content(t, #[trigger] f[i]) by {
        if i < a.len() {
            assert(f[i] == a[i]);
        } else if i == a.len() {
            assert(f[i] == b);
        } else {
            assert(f[i] == c[i - a.len() - 1]);
        }
    }
}

proof fn lemma_finish_refs(t: Seq<char>, o: OpenView, bound: int)
    requires
        0 <= o.block_start <= o.content_start <= o.content_end <= bound,
        bound <= t.len(),
    ensures
        refs_in_content(t, finish(t, o)),
{
    let b = finish(t, o);
    lemma_content_line_refs_within(t, o.content_start, o.content_end, false);
    assert(b.refs == content_refs(t, o.content_start, o.content_end));
    assert forall|i: int| 0 <= i < b.refs.len() implies ref_in_bytes(t, #[trigger] b.refs[i], b.content_start, b.content_end) by {
        assert(ref_within(t, b.refs[i], o.content_start, o.content_end));
        let (k, e) = choose|k: int, e: int| o.content_start <= k && e <= o.content_end && #[trigger] written_at(
            t,
            b.refs[i],
            k,
            e,
        );
        crate::text::lemma_byte_offset_mono(t, o.content_start, k);
        crate::text::lemma_byte_offset_mono(t, k, e);
        crate::text::lemma_byte_offset_mono(t, e, o.content_end);
        assert(written_at(t, b.refs[i], k, e));
    }
}

proof fn lemma_close_top_refs(t: Seq<char>, st: ParseState, bound: int)
    requires
        state_nested(st, bound),
        state_refs_in_content(t, st),
        bound <= t.len(),
    ensures
        state_refs_in_content(t, close_top(t, st)),
{
    if st.stack.len() > 0 {
        let o = st.stack.last();
        assert(o == st.stack[st.stack.len() - 1]);
        let b = finish(t, o);
        lemma_finish_refs(t, o, bound);
        let rest = st.stack.drop_last();
        if rest.len() == 0 {
            lemma_forest_refs_push(t, st.roots, b);
        } else {
            let p = rest.last();
            assert(p == st.stack[rest.len() - 1]);
            lemma_forest_refs_push(t, p.children, b);
            let ns = close_top(t, st).stack;
            assert forall|k: int| 0 <= k < ns.len() implies forest_refs_in_content(t, #[trigger] ns[k].children) by {
                if k < ns.len() - 1 {
                    assert(ns[k] == st.stack[k]);
                }
            }
        }
    }
}

proof fn lemma_close_while_refs(t: Seq<char>, st: ParseState, indent: int, bound: int)
    requires
        state_nested(st, bound),
        state_refs_in_content(t, st),
        bound <= t.len(),
    ensures
        state_refs_in_content(t, close_while(t, st, indent)),
    decreases st.stack.len(),
{
    if st.stack.len() > 0 && indent <= st.stack.last().indent {
        lemma_close_top_refs(t, st, bound);
        lemma_close_top_nested(t, st, bound);
        lemma_close_top_ok(t, st, bound);
        lemma_close_while_refs(t, close_top(t, st), indent, bound);
    }
}

proof fn lemma_extend_top_refs(t: Seq<char>, st: ParseState, end: int)
    requires
        state_refs_in_content(t, st),
    ensures
        state_refs_in_content(t, extend_top(st, end)),
{
    if st.stack.len() > 0 {
        let ns = extend_top(st, end).stack;
        assert forall|k: int| 0 <= k < ns.len() implies forest_refs_in_content(t, #[trigger] ns[k].children) by {
            assert(ns[k].children == st.stack[k].children);
        }
    }
}

proof fn lemma_continue_block_refs(t: Seq<char>, st: ParseState, indent: int, bound: int, end: int)
    requires
        state_nested(st, bound),
        state_refs_in_content(t, st),
        bound <= end <= t.len(),
    ensures
        state_refs_in_content(t, continue_block(t, st, indent, end).0),
    decreases st.stack.len(),
{
    if st.stack.len() == 0 {
    } else if st.stack.last().children.len() == 0 && indent >= st.stack.last().column {
        lemma_extend_top_refs(t, st, end);
    } else {
        lemma_close_top_refs(t, st, bound);
        lemma_close_top_nested(t, st, bound);
        lemma_close_top_ok(t, st, bound);
        lemma_continue_block_refs(t, close_top(t, st), indent, bound, end);
    }
}

proof fn lemma_push_open_refs(t: Seq<char>, st: ParseState, o: OpenView)
    requires
        state_refs_in_content(t, st),
        o.children.len() == 0,
    ensures
        state_refs_in_content(t, push_open(st, o)),
{
    let ns = push_open(st, o).stack;
    assert(flatten_forest(o.children) =~= Seq::<BlockView>::empty());
    assert forall|k: int| 0 <= k < ns.len() implies forest_refs_in_content(t, #[trigger] ns[k].children) by {
        if k < st.stack.len() {
            assert(ns[k] == st.stack[k]);
        } else {
            assert(ns[k] == o);
        }
    }
}

proof fn lemma_step_refs(t: Seq<char>, st: ParseState, in_fence: bool, start: int, end: int)
    requires
        state_nested(st, start),
        state_refs_in_content(t, st),
        0 <= start <= end <= t.len(),
    ensures
        state_refs_in_content(t, step(t, st, in_fence, start, end)),
{
    let li = analyze(t, start, end, in_fence);
    if fence_after(t, in_fence, start, end) {
    } else if li.is_blank {
        lemma_extend_top_refs(t, st, end);
    } else if li.is_outliner {
        lemma_close_while_refs(t, st, li.indent_width, start);
        lemma_push_open_refs(t, close_while(t, st, li.indent_width), outliner_open(li));
    } else {
        lemma_continue_block_refs(t, st, li.indent_width, start, end);
        let (s2, joined) = continue_block(t, st, li.indent_width, end);
        if !joined {
            lemma_push_open_refs(t, s2, plaintext_open(li));
        }
    }
}

proof fn lemma_run_refs(t: Seq<char>, pos: int, st: ParseState, in_fence: bool)
    requires
        0 <= pos <= t.len(),
        state_nested(st, pos),
        state_refs_in_content(t, st),
    ensures
        state_refs_in_content(t, run(t, pos, st, in_fence)),
    decreases t.len() - pos,
{
    if pos < t.len() {
        let end = text_line_end(t, pos);
        lemma_next_newline(t, pos, t.len() as int);
        lemma_step_nested(t, st, in_fence, pos, end);
        lemma_step_refs(t, st, in_fence, pos, end);
        lemma_run_refs(t, end, step(t, st, in_fence, pos, end), fence_after(t, in_fence, pos, end));
    }
}

proof fn lemma_close_all_refs(t: Seq<char>, st: ParseState)
    requires
        state_nested(st, t.len() as int),
        state_refs_in_content(t, st),
    ensures
        forest_refs_in_content(t, close_all(t, st).roots),
    decreases st.stack.len(),
{
    if st.stack.len() > 0 {
        lemma_close_top_refs(t, st, t.len() as int);
        lemma_close_top_nested(t, st, t.len() as int);
        lemma_close_top_ok(t, st, t.len() as int);
        lemma_close_all_refs(t, close_top(t, st));
    }
}

/// Every reference of every parsed block, at any depth, lies within the block's
/// content and is written from a `#` or a `[[` of the text; a `#` tag never ends
/// in sentence punctuation (`#Budget.` names `Budget`).
pub proof fn law_refs_in_content(t: Seq<char>)
    ensures
        forest_refs_in_content(t, parse_spec(t)),
{
    let init = ParseState { roots: seq![], stack: seq![] };
    assert(flatten_forest(Seq::<BlockView>::empty()) =~= Seq::<BlockView>::empty());
    lemma_run_nested(t, 0, init, false);
    lemma_run_refs(t, 0, init, false);
    lemma_close_all_refs(t, run(t, 0, init, false));
}


/// A block's own content ends before its first child starts.
pub open spec fn content_before_children(b: BlockView) -> bool {
    b.children.len() > 0 ==> b.content_end <= b.children[0].block_start
}

/// Every block of a forest, at any depth, ends its content before its first child.
pub open spec fn forest_content_first(s: Seq<BlockView>) -> bool {
    forall|i: int| 0 <= i < flatten_forest(s).len() ==> content_before_children(#[trigger] flatten_forest(s)[i])
}

/// Finished blocks end their content before their first child; so does every open
/// block that has children; and each open block's content ends before the next
/// open block starts.
pub open spec fn state_content_first(t: Seq<char>, st: ParseState) -> bool {
    &&& forest_content_first(st.roots)
    &&& forall|k: int| 0 <= k < st.stack.len() ==> forest_content_first(#[trigger] st.stack[k].children)
    &&& forall|k: int|
        0 <= k < st.stack.len() && (#[trigger] st.stack[k]).children.len() > 0 ==> byte_offset(t, st.stack[k].content_end)
            <= st.stack[k].children[0].block_start
    &&& forall|k: int|
        #![trigger st.stack[k], st.stack[k + 1]]
        0 <= k < st.stack.len() - 1 ==> st.stack[k].content_end <= st.stack[k + 1].block_start
}

/// The innermost open block has no children yet.
pub open spec fn top_childless(st: ParseState) -> bool {
    st.stack.len() > 0 ==> st.stack.last().children.len() == 0
}

proof fn lemma_forest_first_push(s: Seq<BlockView>, b: BlockView)
    requires
        forest_content_first(s),
        forest_content_first(b.children),
        content_before_children(b),
    ensures
        forest_content_first(s.push(b)),
{
    lemma_flatten_forest_push(s, b);
    let f = flatten_forest(s.push(b));
    let a = flatten_forest(s);
    let c = flatten_forest(b.children);
    assert(flatten_tree(b) == seq![b] + c);
    assert forall|i: int| 0 <= i < f.len() implies content_before_children(#[trigger] f[i]) by {
        if i < a.len() {
            assert(f[i] == a[i]);
        } else if i == a.len() {
            assert(f[i] == b);
        } else {
            assert(f[i] == c[i - a.len() - 1]);
        }
    }
}

proof fn lemma_close_top_first(t: Seq<char>, st: ParseState, bound: int)
    requires
        state_nested(st, bound),
        state_content_first(t, st),
        bound <= t.len(),
    ensures
        state_content_first(t, close_top(t, st)),
{
    if st.stack.len() > 0 {
        let n = st.stack.len() - 1;
        let o = st.stack.last();
        assert(o == st.stack[n]);
        let b = finish(t, o);
        assert(content_before_children(b));
        let rest = st.stack.drop_last();
        let ns = close_top(t, st).stack;
        if rest.len() == 0 {
            lemma_forest_first_push(st.roots, b);
        } else {
            let p = rest.last();
            assert(p == st.stack[n - 1]);
            lemma_forest_first_push(p.children, b);
            assert(st.stack[(n - 1) + 1] == o);
            assert(p.content_end <= o.block_start);
            crate::text::lemma_byte_offset_mono(t, p.content_end, o.block_start);
            assert forall|k: int| 0 <= k < ns.len() implies forest_content_first(#[trigger] ns[k].children) by {
                if k < ns.len() - 1 {
                    assert(ns[k] == st.stack[k]);
                }
            }
            assert forall|k: int|
                0 <= k < ns.len() && (#[trigger] ns[k]).children.len() > 0 implies byte_offset(t, ns[k].content_end)
                    <= ns[k].children[0].block_start by {
                if k < ns.len() - 1 {
                    assert(ns[k] == st.stack[k]);
                } else {
                    assert(ns[k].children == p.children.push(b));
                    assert(ns[k].content_end == p.content_end);
                    if p.children.len() > 0 {
                        assert(ns[k].children[0] == p.children[0]);
                    } else {
                        assert(ns[k].children[0] == b);
                    }
                }
            }
            assert forall|k: int|
                #![trigger ns[k], ns[k + 1]]
                0 <= k < ns.len() - 1 implies ns[k].content_end <= ns[k + 1].block_start by {
                assert(ns[k] == st.stack[k]);
                assert(ns[k + 1].block_start == st.stack[k + 1].block_start);
            }
        }
    }
}

proof fn lemma_close_while_first(t: Seq<char>, st: ParseState, indent: int, bound: int)
    requires
        state_nested(st, bound),
        state_content_first(t, st),
        bound <= t.len(),
    ensures
        state_content_first(t, close_while(t, st, indent)),
        stack_ok(close_while(t, st, indent).stack, bound),
    decreases st.stack.len(),
{
    if st.stack.len() > 0 && indent <= st.stack.last().indent {
        lemma_close_top_first(t, st, bound);
        lemma_close_top_nested(t, st, bound);
        lemma_close_top_ok(t, st, bound);
        lemma_close_while_first(t, close_top(t, st), indent, bound);
    }
}

proof fn lemma_extend_top_first(t: Seq<char>, st: ParseState, end: int)
    requires
        state_content_first(t, st),
        top_childless(st),
    ensures
        state_content_first(t, extend_top(st, end)),
        top_childless(extend_top(st, end)),
{
    if st.stack.len() > 0 {
        let ns = extend_top(st, end).stack;
        let n = st.stack.len() - 1;
        assert(st.stack.last() == st.stack[n]);
        assert forall|k: int| 0 <= k < ns.len() implies forest_content_first(#[trigger] ns[k].children) by {
            assert(ns[k].children == st.stack[k].children);
        }
        assert forall|k: int|
            0 <= k < ns.len() && (#[trigger] ns[k]).children.len() > 0 implies byte_offset(t, ns[k].content_end)
                <= ns[k].children[0].block_start by {
            assert(k < n);
            assert(ns[k] == st.stack[k]);
        }
        assert forall|k: int|
            #![trigger ns[k], ns[k + 1]]
            0 <= k < ns.len() - 1 implies ns[k].content_end <= ns[k + 1].block_start by {
            assert(ns[k] == st.stack[k]);
            assert(ns[k + 1].block_start == st.stack[k + 1].block_start);
        }
    }
}

proof fn lemma_continue_block_first(t: Seq<char>, st: ParseState, indent: int, bound: int, end: int)
    requires
        state_nested(st, bound),
        state_content_first(t, st),
        bound <= end <= t.len(),
    ensures
        state_content_first(t, continue_block(t, st, indent, end).0),
        continue_block(t, st, indent, end).1 ==> top_childless(continue_block(t, st, indent, end).0),
        !continue_block(t, st, indent, end).1 ==> stack_ok(continue_block(t, st, indent, end).0.stack, bound),
    decreases st.stack.len(),
{
    if st.stack.len() == 0 {
    } else if st.stack.last().children.len() == 0 && indent >= st.stack.last().column {
        lemma_extend_top_first(t, st, end);
    } else {
        lemma_close_top_first(t, st, bound);
        lemma_close_top_nested(t, st, bound);
        lemma_close_top_ok(t, st, bound);
        lemma_continue_block_first(t, close_top(t, st), indent, bound, end);
    }
}

proof fn lemma_push_open_first(t: Seq<char>, st: ParseState, o: OpenView, bound: int)
    requires
        state_content_first(t, st),
        stack_ok(st.stack, bound),
        bound <= o.block_start,
        o.children.len() == 0,
    ensures
        state_content_first(t, push_open(st, o)),
        top_childless(push_open(st, o)),
{
    let ns = push_open(st, o).stack;
    assert(flatten_forest(o.children) =~= Seq::<BlockView>::empty());
    assert(ns.last() == o);
    assert forall|k: int| 0 <= k < ns.len() implies forest_content_first(#[trigger] ns[k].children) by {
        if k < st.stack.len() {
            assert(ns[k] == st.stack[k]);
        } else {
            assert(ns[k] == o);
        }
    }
    assert forall|k: int|
        0 <= k < ns.len() && (#[trigger] ns[k]).children.len() > 0 implies byte_offset(t, ns[k].content_end)
            <= ns[k].children[0].block_start by {
        if k < st.stack.len() {
            assert(ns[k] == st.stack[k]);
        } else {
            assert(ns[k] == o);
        }
    }
    assert forall|k: int|
        #![trigger ns[k], ns[k + 1]]
        0 <= k < ns.len() - 1 implies ns[k].content_end <= ns[k + 1].block_start by {
        assert(ns[k] == st.stack[k]);
        if k < st.stack.len() - 1 {
            assert(ns[k + 1] == st.stack[k + 1]);
        } else {
            assert(ns[k + 1] == o);
        }
    }
}

proof fn lemma_step_first(t: Seq<char>, st: ParseState, in_fence: bool, start: int, end: int)
    requires
        state_nested(st, start),
        state_content_first(t, st),
        top_childless(st),
        0 <= start <= end <= t.len(),
    ensures
        state_content_first(t, step(t, st, in_fence, start, end)),
        top_childless(step(t, st, in_fence, start, end)),
{
    let li = analyze(t, start, end, in_fence);
    if fence_after(t, in_fence, start, end) {
    } else if li.is_blank {
        lemma_extend_top_first(t, st, end);
    } else if li.is_outliner {
        lemma_close_while_first(t, st, li.indent_width, start);
        lemma_push_open_first(t, close_while(t, st, li.indent_width), outliner_open(li), start);
    } else {
        lemma_continue_block_first(t, st, li.indent_width, start, end);
        let (s2, joined) = continue_block(t, st, li.indent_width, end);
        if !joined {
            lemma_push_open_first(t, s2, plaintext_open(li), start);
        }
    }
}

proof fn lemma_run_first(t: Seq<char>, pos: int, st: ParseState, in_fence: bool)
    requires
        0 <= pos <= t.len(),
        state_nested(st, pos),
        state_content_first(t, st),
        top_childless(st),
    ensures
        state_content_first(t, run(t, pos, st, in_fence)),
    decreases t.len() - pos,
{
    if pos < t.len() {
        let end = text_line_end(t, pos);
        lemma_next_newline(t, pos, t.len() as int);
        lemma_step_nested(t, st, in_fence, pos, end);
        lemma_step_first(t, st, in_fence, pos, end);
        lemma_run_first(t, end, step(t, st, in_fence, pos, end), fence_after(t, in_fence, pos, end));
    }
}

proof fn lemma_close_all_first(t: Seq<char>, st: ParseState)
    requires
        state_nested(st, t.len() as int),
        state_content_first(t, st),
    ensures
        forest_content_first(close_all(t, st).roots),
    decreases st.stack.len(),
{
    if st.stack.len() > 0 {
        lemma_close_top_first(t, st, t.len() as int);
        lemma_close_top_nested(t, st, t.len() as int);
        lemma_close_top_ok(t, st, t.len() as int);
        lemma_close_all_first(t, close_top(t, st));
    }
}

/// Every parsed block, at any depth, ends its own content before its first child
/// starts.
pub proof fn law_content_before_children(t: Seq<char>)
    ensures
        forest_content_first(parse_spec(t)),
{
    let init = ParseState { roots: seq![], stack: seq![] };
    assert(flatten_forest(Seq::<BlockView>::empty()) =~= Seq::<BlockView>::empty());
    lemma_run_nested(t, 0, init, false);
    lemma_run_first(t, 0, init, false);
    lemma_close_all_first(t, run(t, 0, init, false));
}

} // verus!
