//! Read-only views of a workspace cache: page summaries and details, content,
//! references in both directions, linked references and search.

use vstd::prelude::*;

use super::block::{
    block_view, flatten_forest, refs_of, refs_view, Block, BlockKind, BlockView, IncomingRef,
    IncomingRefView, PageRefOccurrence, RefView,
};
use super::error::CoreError;
use super::page::{forest_view, FileFingerprint, Page};
use super::page_id::{has_parent, parent_view, PageId, PageIdView, PageLocation};
use super::span::{SourceSpan, SpanError};
use crate::text::{chars_to_string, lemma_decode_of_str, str_chars, sub_chars, utf8_of};
use vstd::utf8::decode_utf8;
use super::workspace::{incoming_views, lookup, WorkspaceCache};

verus! {

// ---------------------------------------------------------------------------
// Snapshot types
// ---------------------------------------------------------------------------

/// A block of a page in source order, with its depth and resolved content.
#[derive(Debug, Clone, PartialEq, Eq)]
pub struct FlatBlockSnapshot {
    pub kind: BlockKind,
    pub depth: u32,
    pub content: String,
}

/// A page's exact text, its revision and its blocks in source order.
#[derive(Debug, Clone, PartialEq, Eq)]
pub struct PageContentSnapshot {
    pub revision: FileFingerprint,
    pub blocks: Vec<FlatBlockSnapshot>,
    pub text: String,
}

/// What lists of pages show of a page.
#[derive(Debug, Clone, PartialEq, Eq)]
pub struct PageSummary {
    pub page_id: PageId,
    pub location: PageLocation,
    pub workspace_path: String,
    pub title: String,
    pub revision: FileFingerprint,
    pub modified_at: Option<u64>,
    pub parent_page_id: Option<PageId>,
    pub child_page_count: usize,
}

/// A page's summary with its references in both directions.
#[derive(Debug, Clone, PartialEq, Eq)]
pub struct PageDetail {
    pub summary: PageSummary,
    pub incoming_refs: Vec<IncomingPageRefSnapshot>,
    pub outgoing_refs: Vec<OutgoingPageRefSnapshot>,
    pub outgoing_ref_count: usize,
}

/// A page found by a search.
#[derive(Debug, Clone, PartialEq, Eq)]
pub struct SearchResult {
    pub page_id: PageId,
    pub title: String,
    pub location: PageLocation,
    pub matched_field: SearchMatchField,
    pub snippet: Option<String>,
}

/// Where a search matched a page.
#[derive(Debug, Clone, Copy, PartialEq, Eq, PartialOrd, Ord, Structural)]
pub enum SearchMatchField {
    Title,
    PageId,
    Content,
}

/// A reference to a page, as seen from the target.
#[derive(Debug, Clone, PartialEq, Eq)]
pub struct IncomingPageRefSnapshot {
    pub target_page_id: PageId,
    pub source_page_id: PageId,
    pub source_page_fingerprint: FileFingerprint,
    pub source_block_span: SourceSpan,
    pub ref_span: SourceSpan,
}

/// A reference a page makes, and whether its target is cached.
#[derive(Debug, Clone, PartialEq, Eq)]
pub struct OutgoingPageRefSnapshot {
    pub target_page_id: PageId,
    pub ref_span: SourceSpan,
    pub target_exists: bool,
}

/// Where a block was found: its page, that page's revision and the block's span.
#[derive(Debug, Clone, PartialEq, Eq)]
pub struct BlockHandle {
    pub source_page_id: PageId,
    pub source_page_revision: FileFingerprint,
    pub block_span: SourceSpan,
}

/// A block with its resolved text, references and child blocks.
#[derive(Debug, PartialEq, Eq)]
pub struct BlockSnapshot {
    pub handle: BlockHandle,
    pub kind: BlockKind,
    pub block_span: SourceSpan,
    pub content_span: SourceSpan,
    pub content: String,
    pub markdown: String,
    pub outgoing_refs: Vec<OutgoingPageRefSnapshot>,
    pub children: Vec<BlockSnapshot>,
}

/// A block's content split around a reference.
#[derive(Debug, Clone, PartialEq, Eq)]
pub struct RefHighlightSnapshot {
    pub prefix: String,
    pub highlight: String,
    pub suffix: String,
}

/// A reference to a page with the block that makes it.
#[derive(Debug, PartialEq, Eq)]
pub struct LinkedRefEntry {
    pub target_page_id: PageId,
    pub source_page_id: PageId,
    pub ref_span: SourceSpan,
    pub block: BlockSnapshot,
    pub block_content_highlight: Option<RefHighlightSnapshot>,
}

// ---------------------------------------------------------------------------
// Summaries
// ---------------------------------------------------------------------------

/// The modification time given for page `t`: the first entry with its identity.
pub open spec fn time_of(times: Seq<(PageId, u64)>, t: PageIdView) -> Option<u64>
    decreases times.len(),
{
    if times.len() == 0 {
        None
    } else if times[0].0@ == t {
        Some(times[0].1)
    } else {
        time_of(times.drop_first(), t)
    }
}

/// The parent of a page: only page-backed pages below the top level have one.
pub open spec fn parent_of(p: Page) -> Option<PageIdView> {
    if p.location@ is Pages && has_parent(p.page_id@) {
        Some(parent_view(p.page_id@))
    } else {
        None
    }
}

/// `s` summarises page `p`.
pub open spec fn summary_ok(s: PageSummary, p: Page, times: Seq<(PageId, u64)>) -> bool {
    &&& s.page_id@ == p.page_id@
    &&& s.location@ == p.location@
    &&& s.workspace_path@ == p.workspace_path@
    &&& s.title@ == p.title@
    &&& s.revision == p.fingerprint
    &&& s.modified_at == time_of(times, p.page_id@)
    &&& (s.parent_page_id is Some <==> parent_of(p) is Some)
    &&& (s.parent_page_id matches Some(q) ==> Some(q@) == parent_of(p))
    &&& s.child_page_count == p.child_page_ids@.len()
}

/// `s` summarises each of `pages`, in order.
pub open spec fn summaries_ok(s: Seq<PageSummary>, pages: Seq<Page>, times: Seq<(PageId, u64)>) -> bool {
    &&& s.len() == pages.len()
    &&& forall|i: int| 0 <= i < s.len() ==> #[trigger] summary_ok(s[i], pages[i], times)
}

fn time_for(times: &Vec<(PageId, u64)>, id: &PageId) -> (r: Option<u64>)
    ensures
        r == time_of(times@, id@),
{
    let mut i: usize = 0;
    assert(times@.skip(0) =~= times@);
    while i < times.len()
        invariant
            i <= times@.len(),
            time_of(times@.skip(i as int), id@) == time_of(times@, id@),
        decreases times@.len() - i,
    {
        proof {
            assert(times@.skip(i as int).drop_first() =~= times@.skip(i + 1));
            assert(times@.skip(i as int)[0] == times@[i as int]);
        }
        if times[i].0.same(id) {
            return Some(times[i].1);
        }
        i = i + 1;
    }
    None
}

fn summary_of(page: &Page, times: &Vec<(PageId, u64)>) -> (r: PageSummary)
    ensures
        summary_ok(r, *page, times@),
{
    let parent = page.parent_page_id();
    PageSummary {
        page_id: page.page_id.duplicate(),
        location: page.location.duplicate(),
        workspace_path: page.workspace_path.clone(),
        title: page.title.clone(),
        revision: page.fingerprint,
        modified_at: time_for(times, &page.page_id),
        parent_page_id: parent,
        child_page_count: page.child_page_ids.len(),
    }
}

fn summaries_of(pages: &[Page], from: usize, to: usize, times: &Vec<(PageId, u64)>) -> (r: Vec<
    PageSummary,
>)
    requires
        from <= to <= pages@.len(),
    ensures
        summaries_ok(r@, pages@.subrange(from as int, to as int), times@),
{
    let mut out: Vec<PageSummary> = Vec::new();
    let mut i = from;
    while i < to
        invariant
            from <= i <= to <= pages@.len(),
            out@.len() == i - from,
            forall|j: int| 0 <= j < out@.len() ==> #[trigger] summary_ok(out@[j], pages@[from + j], times@),
        decreases to - i,
    {
        out.push(summary_of(&pages[i], times));
        i = i + 1;
    }
    proof {
        let sub = pages@.subrange(from as int, to as int);
        assert forall|j: int| 0 <= j < out@.len() implies #[trigger] summary_ok(out@[j], sub[j], times@) by {
            assert(sub[j] == pages@[from + j]);
        }
    }
    out
}

// ---------------------------------------------------------------------------
// References
// ---------------------------------------------------------------------------

/// `s` shows the incoming reference `r` to `t`.
pub open spec fn incoming_snapshot_ok(s: IncomingPageRefSnapshot, t: PageIdView, r: IncomingRefView) -> bool {
    &&& s.target_page_id@ == t
    &&& s.source_page_id@ == r.source
    &&& s.source_page_fingerprint == r.fingerprint
    &&& s.source_block_span == r.block_span
    &&& s.ref_span == r.ref_span
}

/// `s` shows the reference `r`, and whether its target is among `pages`.
pub open spec fn outgoing_snapshot_ok(s: OutgoingPageRefSnapshot, r: RefView, pages: Seq<Page>) -> bool {
    &&& s.target_page_id@ == r.target
    &&& s.ref_span.lo() == r.start
    &&& s.ref_span.hi() == r.end
    &&& s.target_exists == (lookup(pages, r.target) is Some)
}

fn incoming_snapshots(refs: &Vec<IncomingRef>, target: &PageId) -> (r: Vec<IncomingPageRefSnapshot>)
    ensures
        r@.len() == refs@.len(),
        forall|i: int| 0 <= i < r@.len() ==> #[trigger] incoming_snapshot_ok(r@[i], target@, refs@[i]@),
{
    let mut out: Vec<IncomingPageRefSnapshot> = Vec::new();
    let mut i: usize = 0;
    while i < refs.len()
        invariant
            i <= refs@.len(),
            out@.len() == i,
            forall|j: int| 0 <= j < i ==> #[trigger] incoming_snapshot_ok(out@[j], target@, refs@[j]@),
        decreases refs@.len() - i,
    {
        let r = &refs[i];
        out.push(
            IncomingPageRefSnapshot {
                target_page_id: target.duplicate(),
                source_page_id: r.source_page_id.duplicate(),
                source_page_fingerprint: r.source_page_fingerprint,
                source_block_span: r.source_block_span,
                ref_span: r.ref_span,
            },
        );
        i = i + 1;
    }
    out
}

fn outgoing_snapshots(cache: &WorkspaceCache, refs: &Vec<PageRefOccurrence>) -> (r: Vec<
    OutgoingPageRefSnapshot,
>)
    ensures
        r@.len() == refs@.len(),
        forall|i: int|
            0 <= i < r@.len() ==> #[trigger] outgoing_snapshot_ok(r@[i], refs@[i]@, cache.page_list()),
{
    let mut out: Vec<OutgoingPageRefSnapshot> = Vec::new();
    let mut i: usize = 0;
    while i < refs.len()
        invariant
            i <= refs@.len(),
            out@.len() == i,
            forall|j: int|
                0 <= j < i ==> #[trigger] outgoing_snapshot_ok(out@[j], refs@[j]@, cache.page_list()),
        decreases refs@.len() - i,
    {
        let r = &refs[i];
        let exists = cache.page(&r.target_page_id).is_some();
        out.push(
            OutgoingPageRefSnapshot {
                target_page_id: r.target_page_id.duplicate(),
                ref_span: r.ref_span,
                target_exists: exists,
            },
        );
        i = i + 1;
    }
    out
}

/// A page makes a reference to a page that is not cached.
pub open spec fn has_missing_target(p: Page, pages: Seq<Page>) -> bool {
    let refs = refs_of(flatten_forest(forest_view(p.blocks@)));
    exists|i: int| 0 <= i < refs.len() && lookup(pages, (#[trigger] refs[i]).target) is None
}

// ---------------------------------------------------------------------------
// Block text
// ---------------------------------------------------------------------------

/// The characters of `text` that the byte span covers.
pub open spec fn span_text(text: Seq<char>, sp: SourceSpan) -> Seq<char> {
    decode_utf8(utf8_of(text).subrange(sp.lo() as int, sp.hi() as int))
}

/// `c` without one trailing `"\r\n"` or `"\n"`.
pub open spec fn strip_line_end(c: Seq<char>) -> Seq<char> {
    if c.len() >= 2 && c[c.len() - 2] == '\r' && c[c.len() - 1] == '\n' {
        c.take(c.len() - 2)
    } else if c.len() >= 1 && c[c.len() - 1] == '\n' {
        c.drop_last()
    } else {
        c
    }
}

/// The span of a block's content.
pub open spec fn content_span_of(b: BlockView) -> SourceSpan {
    SourceSpan::spec_new(b.content_start as usize, b.content_end as usize)
}

/// The whole span of a block.
pub open spec fn block_span_of(b: BlockView) -> SourceSpan {
    SourceSpan::spec_new(b.block_start as usize, b.block_end as usize)
}

/// The span lies on character boundaries of `text`.
pub open spec fn fits_text(text: Seq<char>, sp: SourceSpan) -> bool {
    sp.fits(utf8_of(text))
}

fn span_chars(text: &str, sp: SourceSpan) -> (r: Result<Vec<char>, SpanError>)
    ensures
        r is Ok <==> fits_text(text@, sp),
        !fits_text(text@, sp) ==> r == Err::<Vec<char>, SpanError>(sp.fit_error(utf8_of(text@))),
        r matches Ok(v) ==> v@ == span_text(text@, sp),
{
    match sp.slice(text) {
        Err(e) => Err(e),
        Ok(s) => {
            proof {
                lemma_decode_of_str(s);
            }
            Ok(str_chars(s))
        },
    }
}

fn strip_line_end_chars(c: Vec<char>) -> (r: Vec<char>)
    ensures
        r@ == strip_line_end(c@),
{
    let n = c.len();
    if n >= 2 && c[n - 2] == '\r' && c[n - 1] == '\n' {
        sub_chars(&c, 0, n - 2)
    } else if n >= 1 && c[n - 1] == '\n' {
        sub_chars(&c, 0, n - 1)
    } else {
        c
    }
}

/// A block's content without its line ending.
fn resolved_block_content(page: &Page, block: &Block) -> (r: Result<String, CoreError>)
    ensures
        r is Ok <==> fits_text(page.text@, block.content_span),
        !fits_text(page.text@, block.content_span) ==> r == Err::<String, CoreError>(
            CoreError::InvalidSpan(block.content_span.fit_error(utf8_of(page.text@))),
        ),
        r matches Ok(s) ==> s@ == strip_line_end(span_text(page.text@, block.content_span)),
{
    match span_chars(page.text.as_str(), block.content_span) {
        Err(e) => Err(CoreError::InvalidSpan(e)),
        Ok(c) => Ok(chars_to_string(&strip_line_end_chars(c))),
    }
}

/// A block's whole markdown.
fn resolved_block_markdown(page: &Page, block: &Block) -> (r: Result<String, CoreError>)
    ensures
        r is Ok <==> fits_text(page.text@, block.block_span),
        !fits_text(page.text@, block.block_span) ==> r == Err::<String, CoreError>(
            CoreError::InvalidSpan(block.block_span.fit_error(utf8_of(page.text@))),
        ),
        r matches Ok(s) ==> s@ == span_text(page.text@, block.block_span),
{
    match span_chars(page.text.as_str(), block.block_span) {
        Err(e) => Err(CoreError::InvalidSpan(e)),
        Ok(c) => Ok(chars_to_string(&c)),
    }
}

// ---------------------------------------------------------------------------
// Flat blocks
// ---------------------------------------------------------------------------

/// The blocks of a tree in source order with their depths.
pub open spec fn flat_tree(b: BlockView, d: int) -> Seq<(BlockView, int)>
    decreases b, 1int,
{
    seq![(b, d)] + flat_forest(b.children, d + 1)
}

/// The blocks of a forest in source order with their depths.
pub open spec fn flat_forest(s: Seq<BlockView>, d: int) -> Seq<(BlockView, int)>
    decreases s, 0int,
{
    if s.len() == 0 {
        seq![]
    } else {
        flat_tree(s[0], d) + flat_forest(s.drop_first(), d)
    }
}

/// The position of the first item whose content span does not fit `text`, or `-1`.
pub open spec fn first_unfit(text: Seq<char>, items: Seq<(BlockView, int)>) -> int
    decreases items.len(),
{
    if items.len() == 0 {
        -1
    } else if !fits_text(text, content_span_of(items[0].0)) {
        0
    } else if first_unfit(text, items.drop_first()) < 0 {
        -1
    } else {
        1 + first_unfit(text, items.drop_first())
    }
}

/// A depth as `u32`, saturating.
pub open spec fn depth_u32(d: int) -> u32 {
    if d > u32::MAX {
        u32::MAX
    } else {
        d as u32
    }
}

/// `f` shows the block `it.0` at depth `it.1` of a page with text `text`.
pub open spec fn flat_ok(f: FlatBlockSnapshot, it: (BlockView, int), text: Seq<char>) -> bool {
    &&& f.kind == it.0.kind
    &&& f.depth == depth_u32(it.1)
    &&& f.content@ == strip_line_end(span_text(text, content_span_of(it.0)))
}

proof fn lemma_first_unfit_concat(text: Seq<char>, a: Seq<(BlockView, int)>, b: Seq<(BlockView, int)>)
    ensures
        first_unfit(text, a + b) == (if first_unfit(text, a) >= 0 {
            first_unfit(text, a)
        } else if first_unfit(text, b) >= 0 {
            a.len() + first_unfit(text, b)
        } else {
            -1
        }),
        -1 <= first_unfit(text, a) < a.len(),
    decreases a.len(),
{
    if a.len() == 0 {
        assert(a + b =~= b);
    } else {
        assert((a + b).drop_first() =~= a.drop_first() + b);
        assert((a + b)[0] == a[0]);
        lemma_first_unfit_concat(text, a.drop_first(), b);
    }
}

proof fn lemma_first_unfit_range(text: Seq<char>, a: Seq<(BlockView, int)>)
    ensures
        -1 <= first_unfit(text, a) < a.len(),
        first_unfit(text, a) >= 0 ==> !fits_text(text, content_span_of(a[first_unfit(text, a)].0)),
        first_unfit(text, a) < 0 ==> forall|i: int| 0 <= i < a.len() ==> fits_text(text, content_span_of(#[trigger] a[i].0)),
    decreases a.len(),
{
    if a.len() > 0 {
        lemma_first_unfit_range(text, a.drop_first());
        if first_unfit(text, a) < 0 {
            assert forall|i: int| 0 <= i < a.len() implies fits_text(text, content_span_of(#[trigger] a[i].0)) by {
                if i > 0 {
                    assert(a[i] == a.drop_first()[i - 1]);
                }
            }
        }
        if first_unfit(text, a) > 0 {
            assert(a[first_unfit(text, a)] == a.drop_first()[first_unfit(text, a.drop_first())]);
        }
    }
}

/// Appends the flat blocks of a tree, or reports the first content span that does not fit.
fn collect_flat(page: &Page, block: &Block, depth: u32, ghost_depth: Ghost<int>, result: &mut Vec<FlatBlockSnapshot>) -> (r: Result<(), CoreError>)
    requires
        depth == depth_u32(ghost_depth@),
        ghost_depth@ >= 0,
    ensures
        ({
            let items = flat_tree(block_view(*block), ghost_depth@);
            let k = first_unfit(page.text@, items);
            &&& (r is Ok <==> k < 0)
            &&& (k >= 0 ==> r == Err::<(), CoreError>(CoreError::InvalidSpan(
                content_span_of(items[k].0).fit_error(utf8_of(page.text@)),
            )))
            &&& (r is Ok ==> final(result)@.len() == old(result)@.len() + items.len())
            &&& (r is Ok ==> forall|i: int| 0 <= i < old(result)@.len() ==> #[trigger] final(result)@[i] == old(result)@[i])
            &&& (r is Ok ==> forall|i: int|
                0 <= i < items.len() ==> #[trigger] flat_ok(final(result)@[old(result)@.len() + i], items[i], page.text@))
        }),
    decreases block,
{
    let ghost bv = block_view(*block);
    let ghost d = ghost_depth@;
    proof {
        SourceSpan::lemma_self_new(block.content_span);
    }
    let content = match resolved_block_content(page, block) {
        Ok(c) => c,
        Err(e) => {
            proof {
                assert(flat_tree(bv, d)[0] == (bv, d));
                assert(content_span_of(bv) == block.content_span);
            }
            return Err(e);
        },
    };
    let ghost start = result@.len();
    let ghost first = result@;
    result.push(FlatBlockSnapshot { kind: block.kind, depth, content });
    let next = depth.saturating_add(1);
    let mut i: usize = 0;
    let ghost kids = bv.children;
    proof {
        assert(kids.take(0) =~= Seq::<BlockView>::empty());
        assert(flat_forest(kids.take(0), d + 1) =~= Seq::<(BlockView, int)>::empty());
    }
    while i < block.children.len()
        invariant
            i <= block.children@.len(),
            kids == block_view(*block).children,
            kids.len() == block.children@.len(),
            bv == block_view(*block),
            content_span_of(bv) == block.content_span,
            fits_text(page.text@, content_span_of(bv)),
            next == depth_u32(d + 1),
            d == ghost_depth@,
            d >= 0,
            result@.len() == start + 1 + flat_forest(kids.take(i as int), d + 1).len(),
            first_unfit(page.text@, flat_forest(kids.take(i as int), d + 1)) < 0,
            forall|j: int| 0 <= j < start ==> #[trigger] result@[j] == first[j],
            flat_ok(result@[start as int], (bv, d), page.text@),
            forall|j: int|
                0 <= j < flat_forest(kids.take(i as int), d + 1).len() ==> #[trigger] flat_ok(
                    result@[start + 1 + j],
                    flat_forest(kids.take(i as int), d + 1)[j],
                    page.text@,
                ),
        decreases block.children@.len() - i,
    {
        let ghost before = result@;
        let ghost pre = flat_forest(kids.take(i as int), d + 1);
        let sub = collect_flat(page, &block.children[i], next, Ghost(d + 1), result);
        proof {
            assert(kids[i as int] == block_view(block.children@[i as int]));
            lemma_flat_forest_push(kids.take(i as int), kids[i as int], d + 1);
            assert(kids.take(i + 1) =~= kids.take(i as int).push(kids[i as int]));
            lemma_first_unfit_concat(page.text@, pre, flat_tree(kids[i as int], d + 1));
        }
        match sub {
            Err(e) => {
                proof {
                    let items = flat_tree(bv, d);
                    let tree_i = flat_tree(kids[i as int], d + 1);
                    let rest = flat_forest(kids.skip(i + 1), d + 1);
                    lemma_flat_forest_split(kids, i + 1, d + 1);
                    assert(flat_forest(kids, d + 1) == pre + tree_i + rest);
                    lemma_first_unfit_concat(page.text@, pre + tree_i, rest);
                    assert(seq![(bv, d)].drop_first() =~= Seq::<(BlockView, int)>::empty());
                    assert(seq![(bv, d)][0] == (bv, d));
                    assert(first_unfit(page.text@, Seq::<(BlockView, int)>::empty()) == -1);
                    assert(first_unfit(page.text@, seq![(bv, d)]) == -1);
                    lemma_first_unfit_concat(page.text@, seq![(bv, d)], flat_forest(kids, d + 1));
                    assert(content_span_of(bv) == block.content_span);
                    assert(items == seq![(bv, d)] + flat_forest(kids, d + 1));
                    let k = first_unfit(page.text@, tree_i);
                    assert(k >= 0);
                    assert(first_unfit(page.text@, pre) < 0);
                    assert(first_unfit(page.text@, pre + tree_i) == pre.len() + k);
                    assert(first_unfit(page.text@, flat_forest(kids, d + 1)) == pre.len() + k);
                    assert(first_unfit(page.text@, items) == 1 + pre.len() + k);
                    assert(items[1 + pre.len() + k] == tree_i[k]);
                }
                return Err(e);
            },
            Ok(()) => {
                proof {
                    let tree_i = flat_tree(kids[i as int], d + 1);
                    let now = flat_forest(kids.take(i + 1), d + 1);
                    assert(now == pre + tree_i);
                    assert forall|j: int| 0 <= j < now.len() implies #[trigger] flat_ok(result@[start + 1 + j], now[j], page.text@) by {
                        if j < pre.len() {
                            assert(result@[start + 1 + j] == before[start + 1 + j]);
                            assert(now[j] == pre[j]);
                            assert(flat_ok(before[start + 1 + j], pre[j], page.text@));
                        } else {
                            assert(now[j] == tree_i[j - pre.len()]);
                            assert(flat_ok(result@[before.len() + (j - pre.len())], tree_i[j - pre.len()], page.text@));
                        }
                    }
                }
            },
        }
        i = i + 1;
    }
    proof {
        assert(kids.take(kids.len() as int) =~= kids);
        let items = flat_tree(bv, d);
        let rest = flat_forest(kids, d + 1);
        assert(content_span_of(bv) == block.content_span);
        assert(items == seq![(bv, d)] + rest);
        lemma_first_unfit_concat(page.text@, seq![(bv, d)], rest);
        assert(seq![(bv, d)].drop_first() =~= Seq::<(BlockView, int)>::empty());
        let all_kids = flat_forest(kids.take(kids.len() as int), d + 1);
        assert(all_kids == rest);
        assert(items[0] == (bv, d));
        assert forall|j: int| 0 <= j < items.len() implies #[trigger] flat_ok(result@[start + j], items[j], page.text@) by {
            if j > 0 {
                assert(items[j] == rest[j - 1]);
                assert(flat_ok(result@[start + 1 + (j - 1)], all_kids[j - 1], page.text@));
            }
        }
    }
    Ok(())
}

/// The flat blocks of a page, or the first content span that does not fit its text.
fn flat_blocks(page: &Page) -> (r: Result<Vec<FlatBlockSnapshot>, CoreError>)
    ensures
        ({
            let items = flat_forest(forest_view(page.blocks@), 0);
            let k = first_unfit(page.text@, items);
            &&& (r is Ok <==> k < 0)
            &&& (k >= 0 ==> r == Err::<Vec<FlatBlockSnapshot>, CoreError>(CoreError::InvalidSpan(
                content_span_of(items[k].0).fit_error(utf8_of(page.text@)),
            )))
            &&& (r matches Ok(v) ==> v@.len() == items.len() && forall|i: int|
                0 <= i < items.len() ==> #[trigger] flat_ok(v@[i], items[i], page.text@))
        }),
{
    let ghost fv = forest_view(page.blocks@);
    let mut result: Vec<FlatBlockSnapshot> = Vec::new();
    let mut i: usize = 0;
    proof {
        assert(fv.take(0) =~= Seq::<BlockView>::empty());
        assert(flat_forest(fv.take(0), 0) =~= Seq::<(BlockView, int)>::empty());
    }
    while i < page.blocks.len()
        invariant
            i <= page.blocks@.len(),
            fv == forest_view(page.blocks@),
            result@.len() == flat_forest(fv.take(i as int), 0).len(),
            first_unfit(page.text@, flat_forest(fv.take(i as int), 0)) < 0,
            forall|j: int|
                0 <= j < flat_forest(fv.take(i as int), 0).len() ==> #[trigger] flat_ok(
                    result@[j],
                    flat_forest(fv.take(i as int), 0)[j],
                    page.text@,
                ),
        decreases page.blocks@.len() - i,
    {
        let ghost before = result@;
        let ghost pre = flat_forest(fv.take(i as int), 0);
        let sub = collect_flat(page, &page.blocks[i], 0, Ghost(0), &mut result);
        proof {
            assert(fv[i as int] == block_view(page.blocks@[i as int]));
            lemma_flat_forest_push(fv.take(i as int), fv[i as int], 0);
            assert(fv.take(i + 1) =~= fv.take(i as int).push(fv[i as int]));
            lemma_first_unfit_concat(page.text@, pre, flat_tree(fv[i as int], 0));
        }
        match sub {
            Err(e) => {
                proof {
                    let tree_i = flat_tree(fv[i as int], 0);
                    let rest = flat_forest(fv.skip(i + 1), 0);
                    lemma_flat_forest_split(fv, i + 1, 0);
                    lemma_first_unfit_concat(page.text@, pre + tree_i, rest);
                    let k = first_unfit(page.text@, tree_i);
                    assert(first_unfit(page.text@, pre + tree_i) == pre.len() + k);
                    assert(flat_forest(fv, 0)[pre.len() + k] == tree_i[k]);
                }
                return Err(e);
            },
            Ok(()) => {
                proof {
                    let tree_i = flat_tree(fv[i as int], 0);
                    let now = flat_forest(fv.take(i + 1), 0);
                    assert(now == pre + tree_i);
                    assert forall|j: int| 0 <= j < now.len() implies #[trigger] flat_ok(result@[j], now[j], page.text@) by {
                        if j < pre.len() {
                            assert(result@[j] == before[j]);
                            assert(now[j] == pre[j]);
                            assert(flat_ok(before[j], pre[j], page.text@));
                        } else {
                            assert(now[j] == tree_i[j - pre.len()]);
                            assert(flat_ok(result@[before.len() + (j - pre.len())], tree_i[j - pre.len()], page.text@));
                        }
                    }
                }
            },
        }
        i = i + 1;
    }
    proof {
        assert(fv.take(fv.len() as int) =~= fv);
    }
    Ok(result)
}

proof fn lemma_flat_forest_push(s: Seq<BlockView>, b: BlockView, d: int)
    ensures
        flat_forest(s.push(b), d) == flat_forest(s, d) + flat_tree(b, d),
    decreases s.len(),
{
    if s.len() == 0 {
        assert(s.push(b).drop_first() =~= Seq::<BlockView>::empty());
        assert(s.push(b)[0] == b);
        assert(flat_forest(Seq::<BlockView>::empty(), d) =~= Seq::<(BlockView, int)>::empty());
        assert(flat_forest(s.push(b), d) =~= flat_tree(b, d) + Seq::<(BlockView, int)>::empty());
        assert(flat_forest(s, d) + flat_tree(b, d) =~= flat_tree(b, d));
    } else {
        assert(s.push(b).drop_first() =~= s.drop_first().push(b));
        lemma_flat_forest_push(s.drop_first(), b, d);
        assert(flat_forest(s.push(b), d) =~= flat_forest(s, d) + flat_tree(b, d));
    }
}

proof fn lemma_flat_forest_split(s: Seq<BlockView>, i: int, d: int)
    requires
        0 <= i <= s.len(),
    ensures
        flat_forest(s, d) == flat_forest(s.take(i), d) + flat_forest(s.skip(i), d),
    decreases s.len(),
{
    if i == 0 {
        assert(s.take(0) =~= Seq::<BlockView>::empty());
        assert(s.skip(0) =~= s);
        assert(flat_forest(s.take(0), d) + flat_forest(s, d) =~= flat_forest(s, d));
    } else {
        lemma_flat_forest_split(s.drop_first(), i - 1, d);
        assert(s.drop_first().take(i - 1) =~= s.take(i).drop_first());
        assert(s.drop_first().skip(i - 1) =~= s.skip(i));
        assert(s.take(i)[0] == s[0]);
        assert(flat_forest(s, d) =~= flat_forest(s.take(i), d) + flat_forest(s.skip(i), d));
    }
}

// ---------------------------------------------------------------------------
// Block snapshots
// ---------------------------------------------------------------------------

/// The first span of a block tree that does not fit `text`: each block's content,
/// then its whole span, then its children in order.
pub open spec fn snapshot_error(text: Seq<char>, b: BlockView) -> Option<SpanError>
    decreases b, 1int,
{
    if !fits_text(text, content_span_of(b)) {
        Some(content_span_of(b).fit_error(utf8_of(text)))
    } else if !fits_text(text, block_span_of(b)) {
        Some(block_span_of(b).fit_error(utf8_of(text)))
    } else {
        children_error(text, b.children)
    }
}

/// The first span of a sequence of block trees that does not fit `text`.
pub open spec fn children_error(text: Seq<char>, s: Seq<BlockView>) -> Option<SpanError>
    decreases s, 0int,
{
    if s.len() == 0 {
        None
    } else if snapshot_error(text, s[0]) is Some {
        snapshot_error(text, s[0])
    } else {
        children_error(text, s.drop_first())
    }
}

/// `s` shows block `b` of `page`, with its children, against the cached `pages`.
pub open spec fn snapshot_ok(s: BlockSnapshot, b: BlockView, page: Page, pages: Seq<Page>) -> bool
    decreases b, 1int,
{
    &&& s.handle.source_page_id@ == page.page_id@
    &&& s.handle.source_page_revision == page.fingerprint
    &&& s.handle.block_span == block_span_of(b)
    &&& s.kind == b.kind
    &&& s.block_span == block_span_of(b)
    &&& s.content_span == content_span_of(b)
    &&& s.content@ == strip_line_end(span_text(page.text@, content_span_of(b)))
    &&& s.markdown@ == span_text(page.text@, block_span_of(b))
    &&& s.outgoing_refs@.len() == b.refs.len()
    &&& (forall|i: int|
        0 <= i < b.refs.len() ==> #[trigger] outgoing_snapshot_ok(s.outgoing_refs@[i], b.refs[i], pages))
    &&& snapshots_ok(s.children@, b.children, page, pages)
}

/// Each of `ss` shows the corresponding block tree of `kids`.
pub open spec fn snapshots_ok(ss: Seq<BlockSnapshot>, kids: Seq<BlockView>, page: Page, pages: Seq<Page>) -> bool
    decreases kids, 0int,
{
    &&& ss.len() == kids.len()
    &&& (kids.len() > 0 ==> {
        &&& snapshot_ok(ss[0], kids[0], page, pages)
        &&& snapshots_ok(ss.drop_first(), kids.drop_first(), page, pages)
    })
}

proof fn lemma_snapshots_ok_push(ss: Seq<BlockSnapshot>, kids: Seq<BlockView>, s: BlockSnapshot, b: BlockView, page: Page, pages: Seq<Page>)
    requires
        snapshots_ok(ss, kids, page, pages),
        snapshot_ok(s, b, page, pages),
    ensures
        snapshots_ok(ss.push(s), kids.push(b), page, pages),
    decreases kids.len(),
{
    if kids.len() == 0 {
        assert(ss.push(s).drop_first() =~= Seq::<BlockSnapshot>::empty());
        assert(kids.push(b).drop_first() =~= Seq::<BlockView>::empty());
        assert(ss.push(s)[0] == s);
        assert(kids.push(b)[0] == b);
        assert(snapshots_ok(Seq::<BlockSnapshot>::empty(), Seq::<BlockView>::empty(), page, pages));
    } else {
        lemma_snapshots_ok_push(ss.drop_first(), kids.drop_first(), s, b, page, pages);
        assert(ss.push(s).drop_first() =~= ss.drop_first().push(s));
        assert(kids.push(b).drop_first() =~= kids.drop_first().push(b));
        assert(ss.push(s)[0] == ss[0]);
        assert(kids.push(b)[0] == kids[0]);
    }
}

proof fn lemma_children_error_push(text: Seq<char>, s: Seq<BlockView>, b: BlockView)
    ensures
        children_error(text, s.push(b)) == (if children_error(text, s) is Some {
            children_error(text, s)
        } else {
            snapshot_error(text, b)
        }),
    decreases s.len(),
{
    if s.len() == 0 {
        assert(s.push(b).drop_first() =~= Seq::<BlockView>::empty());
        assert(s.push(b)[0] == b);
    } else {
        assert(s.push(b).drop_first() =~= s.drop_first().push(b));
        assert(s.push(b)[0] == s[0]);
        lemma_children_error_push(text, s.drop_first(), b);
    }
}

/// A snapshot of `block` of `page`; `Err(InvalidSpan(..))` for the first span that
/// does not fit the page's text.
fn snapshot_block(cache: &WorkspaceCache, page: &Page, block: &Block) -> (r: Result<BlockSnapshot, CoreError>)
    ensures
        r is Ok <==> snapshot_error(page.text@, block_view(*block)) is None,
        r matches Err(e) ==> e == CoreError::InvalidSpan(snapshot_error(page.text@, block_view(*block))->0),
        r matches Ok(s) ==> snapshot_ok(s, block_view(*block), *page, cache.page_list()),
    decreases block,
{
    let ghost bv = block_view(*block);
    proof {
        SourceSpan::lemma_self_new(block.content_span);
        SourceSpan::lemma_self_new(block.block_span);
        assert(content_span_of(bv) == block.content_span);
        assert(block_span_of(bv) == block.block_span);
    }
    let content = match resolved_block_content(page, block) {
        Ok(c) => c,
        Err(e) => {
            return Err(e);
        },
    };
    let markdown = match resolved_block_markdown(page, block) {
        Ok(m) => m,
        Err(e) => {
            return Err(e);
        },
    };
    let outgoing = outgoing_snapshots(cache, &block.outgoing_refs);
    let mut children: Vec<BlockSnapshot> = Vec::new();
    let mut i: usize = 0;
    let ghost kids = bv.children;
    proof {
        assert(kids.take(0) =~= Seq::<BlockView>::empty());
        assert(children@ =~= Seq::<BlockSnapshot>::empty());
    }
    while i < block.children.len()
        invariant
            i <= block.children@.len(),
            kids == block_view(*block).children,
            bv == block_view(*block),
            kids.len() == block.children@.len(),
            content_span_of(bv) == block.content_span,
            block_span_of(bv) == block.block_span,
            fits_text(page.text@, content_span_of(bv)),
            fits_text(page.text@, block_span_of(bv)),
            content@ == strip_line_end(span_text(page.text@, content_span_of(bv))),
            markdown@ == span_text(page.text@, block_span_of(bv)),
            outgoing@.len() == block.outgoing_refs@.len(),
            forall|j: int|
                0 <= j < outgoing@.len() ==> #[trigger] outgoing_snapshot_ok(outgoing@[j], block.outgoing_refs@[j]@, cache.page_list()),
            children@.len() == i,
            children_error(page.text@, kids.take(i as int)) is None,
            snapshots_ok(children@, kids.take(i as int), *page, cache.page_list()),
        decreases block.children@.len() - i,
    {
        let sub = snapshot_block(cache, page, &block.children[i]);
        proof {
            assert(kids[i as int] == block_view(block.children@[i as int]));
            lemma_children_error_push(page.text@, kids.take(i as int), kids[i as int]);
            assert(kids.take(i + 1) =~= kids.take(i as int).push(kids[i as int]));
        }
        match sub {
            Err(e) => {
                proof {
                    lemma_children_error_split(page.text@, kids, i + 1);
                }
                return Err(e);
            },
            Ok(c) => {
                proof {
                    lemma_snapshots_ok_push(children@, kids.take(i as int), c, kids[i as int], *page, cache.page_list());
                }
                children.push(c);
            },
        }
        i = i + 1;
    }
    proof {
        assert(kids.take(kids.len() as int) =~= kids);
        assert forall|j: int| 0 <= j < block.outgoing_refs@.len() implies #[trigger] outgoing_snapshot_ok(outgoing@[j], bv.refs[j], cache.page_list()) by {
            assert(bv.refs[j] == block.outgoing_refs@[j]@);
        }
    }
    let snap = BlockSnapshot {
        handle: BlockHandle {
            source_page_id: page.page_id.duplicate(),
            source_page_revision: page.fingerprint,
            block_span: block.block_span,
        },
        kind: block.kind,
        block_span: block.block_span,
        content_span: block.content_span,
        content,
        markdown,
        outgoing_refs: outgoing,
        children,
    };
    proof {
        assert(snap.outgoing_refs@.len() == bv.refs.len());
        assert(snap.content@ == strip_line_end(span_text(page.text@, content_span_of(bv))));
        assert(snap.handle.source_page_id@ == page.page_id@);
        assert(snap.handle.source_page_revision == page.fingerprint);
        assert(snap.handle.block_span == block_span_of(bv));
        assert(snap.kind == bv.kind);
        assert(snap.block_span == block_span_of(bv));
        assert(snap.content_span == content_span_of(bv));
        assert(snap.markdown@ == span_text(page.text@, block_span_of(bv)));
        assert(forall|j: int| 0 <= j < bv.refs.len() ==> #[trigger] outgoing_snapshot_ok(snap.outgoing_refs@[j], bv.refs[j], cache.page_list()));
        assert(snapshot_ok(snap, bv, *page, cache.page_list()));
    }
    Ok(snap)
}

proof fn lemma_children_error_split(text: Seq<char>, s: Seq<BlockView>, i: int)
    requires
        0 <= i <= s.len(),
    ensures
        children_error(text, s.take(i)) is Some ==> children_error(text, s) == children_error(text, s.take(i)),
    decreases s.len(),
{
    if i > 0 && s.len() > 0 {
        assert(s.take(i).drop_first() =~= s.drop_first().take(i - 1));
        assert(s.take(i)[0] == s[0]);
        lemma_children_error_split(text, s.drop_first(), i - 1);
    }
}

// ---------------------------------------------------------------------------
// Linked references
// ---------------------------------------------------------------------------

/// The parts of a block's content around a reference inside it: the text before,
/// the reference, and the text after without its line ending. `None` when the
/// reference is not inside the content; an error for the first part that does not fit.
pub open spec fn highlight_result(text: Seq<char>, cs: SourceSpan, rs: SourceSpan) -> Result<
    Option<(Seq<char>, Seq<char>, Seq<char>)>,
    SpanError,
> {
    if !(cs.lo() <= rs.lo() && rs.hi() <= cs.hi()) {
        Ok(None)
    } else {
        let pre = SourceSpan::spec_new(cs.lo(), rs.lo());
        let suf = SourceSpan::spec_new(rs.hi(), cs.hi());
        if !fits_text(text, suf) {
            Err(suf.fit_error(utf8_of(text)))
        } else if !fits_text(text, pre) {
            Err(pre.fit_error(utf8_of(text)))
        } else if !fits_text(text, rs) {
            Err(rs.fit_error(utf8_of(text)))
        } else {
            Ok(Some((span_text(text, pre), span_text(text, rs), strip_line_end(span_text(text, suf)))))
        }
    }
}

/// `h` shows the parts `v`.
pub open spec fn highlight_ok(h: Option<RefHighlightSnapshot>, v: Option<(Seq<char>, Seq<char>, Seq<char>)>) -> bool {
    match (h, v) {
        (None, None) => true,
        (Some(x), Some((p, m, q))) => x.prefix@ == p && x.highlight@ == m && x.suffix@ == q,
        _ => false,
    }
}

fn linked_ref_highlight(page: &Page, content_span: SourceSpan, ref_span: SourceSpan) -> (r: Result<Option<RefHighlightSnapshot>, CoreError>)
    ensures
        match highlight_result(page.text@, content_span, ref_span) {
            Err(e) => r == Err::<Option<RefHighlightSnapshot>, CoreError>(CoreError::InvalidSpan(e)),
            Ok(v) => r matches Ok(h) && highlight_ok(h, v),
        },
{
    broadcast use SourceSpan::lemma_spec_new;

    if !content_span.contains_span(ref_span) {
        return Ok(None);
    }
    let prefix_span = SourceSpan::unchecked(content_span.start(), ref_span.start());
    let suffix_span = SourceSpan::unchecked(ref_span.end(), content_span.end());
    let text = page.text.as_str();
    let suffix = match span_chars(text, suffix_span) {
        Ok(c) => c,
        Err(e) => {
            return Err(CoreError::InvalidSpan(e));
        },
    };
    let prefix = match span_chars(text, prefix_span) {
        Ok(c) => c,
        Err(e) => {
            return Err(CoreError::InvalidSpan(e));
        },
    };
    let highlight = match span_chars(text, ref_span) {
        Ok(c) => c,
        Err(e) => {
            return Err(CoreError::InvalidSpan(e));
        },
    };
    Ok(
        Some(
            RefHighlightSnapshot {
                prefix: chars_to_string(&prefix),
                highlight: chars_to_string(&highlight),
                suffix: chars_to_string(&strip_line_end_chars(suffix)),
            },
        ),
    )
}

/// What resolving an incoming reference against the cached pages gives.
pub enum LinkOutcome {
    MissingSource,
    Conflict(Seq<char>),
    BadSpan(SpanError),
    Found(Page, BlockView),
}

/// The source page of a reference, the block it names, and whether that block and
/// the reference's highlight can be shown.
pub open spec fn link_outcome(pages: Seq<Page>, r: IncomingRefView) -> LinkOutcome {
    match lookup(pages, r.source) {
        None => LinkOutcome::MissingSource,
        Some(src) => {
            let fl = flatten_forest(forest_view(src.blocks@));
            let k = super::block::first_span_match(fl, r.block_span.lo() as int, r.block_span.hi() as int);
            if k < 0 {
                LinkOutcome::Conflict(src.workspace_path@)
            } else if snapshot_error(src.text@, fl[k]) is Some {
                LinkOutcome::BadSpan(snapshot_error(src.text@, fl[k])->0)
            } else if highlight_result(src.text@, content_span_of(fl[k]), r.ref_span) is Err {
                LinkOutcome::BadSpan(highlight_result(src.text@, content_span_of(fl[k]), r.ref_span)->Err_0)
            } else {
                LinkOutcome::Found(src, fl[k])
            }
        },
    }
}

/// `e` is the error that the outcome `o` is reported as.
pub open spec fn reported_as(e: CoreError, o: LinkOutcome) -> bool {
    match o {
        LinkOutcome::MissingSource => e == CoreError::MissingPage,
        LinkOutcome::Conflict(p) => e matches CoreError::StructuralConflict { path } && path@ == p,
        LinkOutcome::BadSpan(se) => e == CoreError::InvalidSpan(se),
        LinkOutcome::Found(_, _) => false,
    }
}

/// `x` shows the reference `r` to `t` with its block.
pub open spec fn entry_ok(x: LinkedRefEntry, t: PageIdView, r: IncomingRefView, pages: Seq<Page>) -> bool {
    &&& x.target_page_id@ == t
    &&& x.source_page_id@ == r.source
    &&& x.ref_span == r.ref_span
    &&& (link_outcome(pages, r) matches LinkOutcome::Found(src, b) && snapshot_ok(x.block, b, src, pages)
        && (highlight_result(src.text@, content_span_of(b), r.ref_span) matches Ok(v)
        && highlight_ok(x.block_content_highlight, v)))
}

/// The position of the first reference that cannot be shown, or `-1`.
pub open spec fn first_unlinked(pages: Seq<Page>, refs: Seq<IncomingRefView>) -> int
    decreases refs.len(),
{
    if refs.len() == 0 {
        -1
    } else if !(link_outcome(pages, refs[0]) is Found) {
        0
    } else if first_unlinked(pages, refs.drop_first()) < 0 {
        -1
    } else {
        1 + first_unlinked(pages, refs.drop_first())
    }
}

proof fn lemma_first_unlinked_take(pages: Seq<Page>, refs: Seq<IncomingRefView>, i: int)
    requires
        0 <= i < refs.len(),
        first_unlinked(pages, refs.take(i)) < 0,
    ensures
        !(link_outcome(pages, refs[i]) is Found) ==> first_unlinked(pages, refs) == i,
        link_outcome(pages, refs[i]) is Found ==> first_unlinked(pages, refs.take(i + 1)) < 0,
    decreases i,
{
    if i == 0 {
        assert(refs.take(1).drop_first() =~= Seq::<IncomingRefView>::empty());
        assert(refs.take(1)[0] == refs[0]);
        assert(first_unlinked(pages, Seq::<IncomingRefView>::empty()) == -1);
    } else {
        assert(refs.take(i).drop_first() =~= refs.drop_first().take(i - 1));
        assert(refs.take(i)[0] == refs[0]);
        assert(refs.take(i + 1).drop_first() =~= refs.drop_first().take(i));
        assert(refs.take(i + 1)[0] == refs[0]);
        assert(refs.drop_first()[i - 1] == refs[i]);
        lemma_first_unlinked_take(pages, refs.drop_first(), i - 1);
    }
}

/// The block of `source` whose whole span is `block_span`, as a snapshot.
fn source_block_snapshot(cache: &WorkspaceCache, source: &Page, block_span: SourceSpan) -> (r: Result<BlockSnapshot, CoreError>)
    ensures
        ({
            let fl = flatten_forest(forest_view(source.blocks@));
            let k = super::block::first_span_match(fl, block_span.lo() as int, block_span.hi() as int);
            &&& (k < 0 ==> (r matches Err(e) && (e matches CoreError::StructuralConflict { path } && path@ == source.workspace_path@)))
            &&& (k >= 0 ==> (r is Ok <==> snapshot_error(source.text@, fl[k]) is None))
            &&& (k >= 0 ==> (r matches Err(e) ==> e == CoreError::InvalidSpan(snapshot_error(source.text@, fl[k])->0)))
            &&& (k >= 0 ==> (r matches Ok(s) ==> snapshot_ok(s, fl[k], *source, cache.page_list())))
        }),
{
    match source.find_block_by_span(block_span) {
        None => Err(CoreError::StructuralConflict { path: source.workspace_path.clone() }),
        Some(block) => snapshot_block(cache, source, block),
    }
}

// ---------------------------------------------------------------------------
// Search
// ---------------------------------------------------------------------------

/// What `str::to_lowercase` gives for the characters `s`.
pub uninterp spec fn lowercase(s: Seq<char>) -> Seq<char>;

/// The lower-case form of `s`: a trusted call of `str::to_lowercase`. Its contract
/// claims only that the result is `lowercase` of the characters of `s`, one fixed
/// function of them; the Unicode case mappings themselves are not stated.
#[verifier::external_body]
pub(crate) fn to_lowercase(s: &str) -> (r: String)
    ensures
        r@ == lowercase(s@),
{
    s.to_lowercase()
}

/// The first position at or after `i` where `q` occurs in `s`, or `-1`.
pub open spec fn find_from(s: Seq<char>, q: Seq<char>, i: int) -> int
    decreases s.len() - i,
{
    if i < 0 || i + q.len() > s.len() {
        -1
    } else if s.subrange(i, i + q.len()) == q {
        i
    } else if i >= s.len() {
        -1
    } else {
        find_from(s, q, i + 1)
    }
}

/// The first position where `q` occurs in `s`, or `-1` (`str::find`).
pub open spec fn find_chars(s: Seq<char>, q: Seq<char>) -> int {
    find_from(s, q, 0)
}

/// The query a search looks for: trimmed, then lowercased.
pub open spec fn normalized_query(query: Seq<char>) -> Seq<char> {
    lowercase(super::parser::trim_white_space(query))
}

/// `c` with carriage returns and line feeds turned into spaces.
pub open spec fn flatten_line_breaks(c: Seq<char>) -> Seq<char> {
    c.map_values(|x: char| if x == '\r' || x == '\n' { ' ' } else { x })
}

/// Up to thirty characters of `text` on either side of a match of `len` characters
/// at `k`, with line breaks as spaces and `...` where text was cut off.
pub open spec fn snippet_of(text: Seq<char>, k: int, len: int) -> Seq<char> {
    let n = text.len() as int;
    let e = if k + len + 30 < n {
        k + len + 30
    } else {
        n
    };
    let s0 = if k - 30 > 0 {
        k - 30
    } else {
        0
    };
    let s = if s0 < e {
        s0
    } else {
        e
    };
    (if s > 0 {
        seq!['.', '.', '.']
    } else {
        seq![]
    }) + flatten_line_breaks(text.subrange(s, e)) + (if e < n {
        seq!['.', '.', '.']
    } else {
        seq![]
    })
}

/// A page's match for a search, with what it is ranked by.
pub struct RankedView {
    pub page: Page,
    pub score: int,
    pub position: int,
    pub field: SearchMatchField,
    pub snippet: Option<Seq<char>>,
}

/// How page `p` matches the normalized query `q`: its whole title, else its title
/// (higher at the start), else its identity, else its text; `None` when nothing matches.
pub open spec fn rank_page(p: Page, q: Seq<char>) -> Option<RankedView> {
    rank_lowered_view(p, lowercase(p.title@), lowercase(super::page_id::identity_display_view(p.page_id@)), lowercase(p.text@), q)
}

/// How page `p` matches the normalized query `q`, given its title `tl`, its
/// identity `il` and its text `xl` in lower case.
pub open spec fn rank_lowered_view(p: Page, tl: Seq<char>, il: Seq<char>, xl: Seq<char>, q: Seq<char>) -> Option<RankedView> {
    if tl == q {
        Some(RankedView { page: p, score: 6, position: 0, field: SearchMatchField::Title, snippet: None })
    } else if find_chars(tl, q) >= 0 {
        Some(RankedView {
            page: p,
            score: if find_chars(tl, q) == 0 { 5 } else { 4 },
            position: crate::text::byte_offset(tl, find_chars(tl, q)),
            field: SearchMatchField::Title,
            snippet: None,
        })
    } else if find_chars(il, q) >= 0 {
        Some(RankedView {
            page: p,
            score: 3,
            position: crate::text::byte_offset(il, find_chars(il, q)),
            field: SearchMatchField::PageId,
            snippet: None,
        })
    } else if find_chars(xl, q) >= 0 {
        Some(RankedView {
            page: p,
            score: 2,
            position: crate::text::byte_offset(xl, find_chars(xl, q)),
            field: SearchMatchField::Content,
            snippet: Some(snippet_of(p.text@, find_chars(xl, q), q.len() as int)),
        })
    } else {
        None
    }
}

/// The matches of all pages, in page order.
pub open spec fn ranked_all(pages: Seq<Page>, q: Seq<char>) -> Seq<RankedView>
    decreases pages.len(),
{
    if pages.len() == 0 {
        seq![]
    } else {
        ranked_all(pages.drop_last(), q) + (match rank_page(pages.last(), q) {
            Some(x) => seq![x],
            None => seq![],
        })
    }
}

/// `a` ranks before `b`: higher score, then earlier match, then title, then identity.
pub open spec fn rank_before(a: RankedView, b: RankedView) -> bool {
    ||| a.score > b.score
    ||| (a.score == b.score && a.position < b.position)
    ||| (a.score == b.score && a.position == b.position && super::order::chars_lt(
        a.page.title@,
        b.page.title@,
    ))
    ||| (a.score == b.score && a.position == b.position && a.page.title@ == b.page.title@
        && super::order::id_lt(a.page.page_id@, b.page.page_id@))
}

/// The first position at or after `i` whose element `x` ranks before, or the length.
pub open spec fn rank_slot(s: Seq<RankedView>, x: RankedView, i: int) -> int
    decreases s.len() - i,
{
    if i < 0 || i >= s.len() {
        s.len() as int
    } else if rank_before(x, s[i]) {
        i
    } else {
        rank_slot(s, x, i + 1)
    }
}

/// `s` sorted by rank, each element inserted after those it does not rank before.
pub open spec fn sort_ranked(s: Seq<RankedView>) -> Seq<RankedView>
    decreases s.len(),
{
    if s.len() == 0 {
        seq![]
    } else {
        let t = sort_ranked(s.drop_last());
        t.insert(rank_slot(t, s.last(), 0), s.last())
    }
}

/// `r` shows the match `v`.
pub open spec fn result_ok(r: SearchResult, v: RankedView) -> bool {
    &&& r.page_id@ == v.page.page_id@
    &&& r.title@ == v.page.title@
    &&& r.location@ == v.page.location@
    &&& r.matched_field == v.field
    &&& (r.snippet is Some <==> v.snippet is Some)
    &&& (r.snippet matches Some(x) ==> Some(x@) == v.snippet)
}

/// A match while searching.
/// A page's match for a search, with what it is ranked by.
pub struct Ranked {
    pub page_id: PageId,
    pub title: String,
    pub location: PageLocation,
    pub matched_field: SearchMatchField,
    pub snippet: Option<String>,
    pub score: u8,
    pub position: usize,
}

/// Match `x` carries the values of `v`.
pub open spec fn ranked_ok(x: Ranked, v: RankedView) -> bool {
    &&& x.page_id@ == v.page.page_id@
    &&& x.title@ == v.page.title@
    &&& x.location@ == v.page.location@
    &&& x.matched_field == v.field
    &&& (x.snippet is Some <==> v.snippet is Some)
    &&& (x.snippet matches Some(y) ==> Some(y@) == v.snippet)
    &&& x.score == v.score
    &&& x.position == v.position
}

/// The first position of `q` in `s`.
pub(crate) fn find_in(s: &Vec<char>, q: &Vec<char>) -> (r: Option<usize>)
    ensures
        r is None <==> find_chars(s@, q@) < 0,
        r matches Some(k) ==> k == find_chars(s@, q@) && k + q@.len() <= s@.len(),
{
    let mut i: usize = 0;
    let n = s.len();
    assert(find_from(s@, q@, 0) == find_chars(s@, q@));
    while i < s.len() && q.len() <= s.len() - i
        invariant
            n == s@.len(),
            i <= s@.len(),
            find_from(s@, q@, i as int) == find_chars(s@, q@),
        decreases s@.len() - i,
    {
        let mut j: usize = 0;
        while j < q.len() && s[i + j] == q[j]
            invariant
                n == s@.len(),
                i < n,
                j <= q@.len(),
                i + q@.len() <= s@.len(),
                forall|m: int| 0 <= m < j ==> s@[i + m] == q@[m],
            decreases q@.len() - j,
        {
            j = j + 1;
        }
        if j == q.len() {
            assert(s@.subrange(i as int, i + q@.len()) =~= q@);
            return Some(i);
        }
        assert(s@.subrange(i as int, i + q@.len())[j as int] != q@[j as int]);
        i = i + 1;
    }
    if i == s.len() && q.len() == 0 {
        assert(s@.subrange(i as int, i as int) =~= q@);
        return Some(i);
    }
    None
}

fn flatten_breaks(c: &Vec<char>, from: usize, to: usize) -> (r: Vec<char>)
    requires
        from <= to <= c@.len(),
    ensures
        r@ == flatten_line_breaks(c@.subrange(from as int, to as int)),
{
    let mut out: Vec<char> = Vec::new();
    let mut i = from;
    while i < to
        invariant
            from <= i <= to <= c@.len(),
            out@ == flatten_line_breaks(c@.subrange(from as int, i as int)),
        decreases to - i,
    {
        let x = c[i];
        out.push(if x == '\r' || x == '\n' { ' ' } else { x });
        i = i + 1;
        assert(out@ =~= flatten_line_breaks(c@.subrange(from as int, i as int)));
    }
    out
}

fn build_search_snippet(text: &Vec<char>, k: usize, len: usize) -> (r: String)
    ensures
        r@ == snippet_of(text@, k as int, len as int),
{
    let n = text.len();
    let e = if len <= n && k <= n - len && 30 < n - len - k {
        k + len + 30
    } else {
        n
    };
    let s0 = if k > 30 {
        k - 30
    } else {
        0
    };
    let s = if s0 < e {
        s0
    } else {
        e
    };
    let mut out: Vec<char> = Vec::new();
    if s > 0 {
        out.push('.');
        out.push('.');
        out.push('.');
    }
    let body = flatten_breaks(text, s, e);
    let ghost head = out@;
    let mut body = body;
    out.append(&mut body);
    if e < n {
        out.push('.');
        out.push('.');
        out.push('.');
    }
    let r = chars_to_string(&out);
    assert(r@ =~= snippet_of(text@, k as int, len as int));
    r
}

proof fn lemma_rank_slot(s: Seq<RankedView>, x: RankedView, i: int)
    requires
        0 <= i <= s.len(),
    ensures
        i <= rank_slot(s, x, i) <= s.len(),
    decreases s.len() - i,
{
    if i < s.len() && !rank_before(x, s[i]) {
        lemma_rank_slot(s, x, i + 1);
    }
}

/// `a` ranks before `b`, on the exec matches.
fn ranks_before(a: &Ranked, b: &Ranked) -> (r: bool)
    ensures
        forall|va: RankedView, vb: RankedView| ranked_ok(*a, va) && ranked_ok(*b, vb) ==> r == rank_before(va, vb),
{
    if a.score != b.score {
        return a.score > b.score;
    }
    if a.position != b.position {
        return a.position < b.position;
    }
    let ta = str_chars(a.title.as_str());
    let tb = str_chars(b.title.as_str());
    if !crate::text::chars_eq(&ta, &tb) {
        return super::order::chars_less_pub(&ta, &tb);
    }
    proof {
        super::order::lemma_chars_lt_irreflexive(ta@);
    }
    super::order::page_id_less(&a.page_id, &b.page_id)
}

/// How a page matches the normalized query `q` (non-empty characters `qc`).
fn rank_one(page: &Page, qc: &Vec<char>) -> (r: Option<Ranked>)
    ensures
        r is None <==> rank_page(*page, qc@) is None,
        r matches Some(x) ==> ranked_ok(x, rank_page(*page, qc@)->0),
{
    let tl_s = to_lowercase(page.title.as_str());
    let id_s = page.page_id.canonical_identity_display();
    let il_s = to_lowercase(id_s.as_str());
    let xl_s = to_lowercase(page.text.as_str());
    rank_lowered(page, tl_s.as_str(), il_s.as_str(), xl_s.as_str(), qc)
}

/// How a page matches the normalized query `qc`, given its title, identity and
/// text in lower case: its whole title, else its title (higher at the start),
/// else its identity, else its text.
pub fn rank_lowered(page: &Page, title_lower: &str, id_lower: &str, text_lower: &str, qc: &Vec<char>) -> (r: Option<Ranked>)
    ensures
        r is None <==> rank_lowered_view(*page, title_lower@, id_lower@, text_lower@, qc@) is None,
        r matches Some(x) ==> ranked_ok(x, rank_lowered_view(*page, title_lower@, id_lower@, text_lower@, qc@)->0),
{
    let tl = str_chars(title_lower);
    if crate::text::chars_eq(&tl, qc) {
        return Some(
            Ranked {
                page_id: page.page_id.duplicate(),
                title: page.title.clone(),
                location: page.location.duplicate(),
                matched_field: SearchMatchField::Title,
                snippet: None,
                score: 6,
                position: 0,
            },
        );
    }
    if let Some(k) = find_in(&tl, qc) {
        let offs = crate::text::char_byte_offsets(title_lower, &tl);
        return Some(
            Ranked {
                page_id: page.page_id.duplicate(),
                title: page.title.clone(),
                location: page.location.duplicate(),
                matched_field: SearchMatchField::Title,
                snippet: None,
                score: if k == 0 {
                    5
                } else {
                    4
                },
                position: offs[k],
            },
        );
    }
    let il = str_chars(id_lower);
    if let Some(k) = find_in(&il, qc) {
        let offs = crate::text::char_byte_offsets(id_lower, &il);
        return Some(
            Ranked {
                page_id: page.page_id.duplicate(),
                title: page.title.clone(),
                location: page.location.duplicate(),
                matched_field: SearchMatchField::PageId,
                snippet: None,
                score: 3,
                position: offs[k],
            },
        );
    }
    let xl = str_chars(text_lower);
    if let Some(k) = find_in(&xl, qc) {
        let offs = crate::text::char_byte_offsets(text_lower, &xl);
        let text = str_chars(page.text.as_str());
        let snippet = build_search_snippet(&text, k, qc.len());
        return Some(
            Ranked {
                page_id: page.page_id.duplicate(),
                title: page.title.clone(),
                location: page.location.duplicate(),
                matched_field: SearchMatchField::Content,
                snippet: Some(snippet),
                score: 2,
                position: offs[k],
            },
        );
    }
    None
}

/// The matches of all pages for the normalized query, in page order.
fn rank_all(pages: &Vec<Page>, qc: &Vec<char>) -> (r: Vec<Ranked>)
    ensures
        r@.len() == ranked_all(pages@, qc@).len(),
        forall|i: int| 0 <= i < r@.len() ==> #[trigger] ranked_ok(r@[i], ranked_all(pages@, qc@)[i]),
{
    let mut out: Vec<Ranked> = Vec::new();
    let mut i: usize = 0;
    proof {
        assert(pages@.take(0) =~= Seq::<Page>::empty());
    }
    while i < pages.len()
        invariant
            i <= pages@.len(),
            out@.len() == ranked_all(pages@.take(i as int), qc@).len(),
            forall|j: int| 0 <= j < out@.len() ==> #[trigger] ranked_ok(out@[j], ranked_all(pages@.take(i as int), qc@)[j]),
        decreases pages@.len() - i,
    {
        let ghost before = ranked_all(pages@.take(i as int), qc@);
        proof {
            assert(pages@.take(i + 1).drop_last() =~= pages@.take(i as int));
            assert(pages@.take(i + 1).last() == pages@[i as int]);
        }
        match rank_one(&pages[i], qc) {
            Some(x) => {
                out.push(x);
                proof {
                    let now = ranked_all(pages@.take(i + 1), qc@);
                    assert(now == before + seq![rank_page(pages@[i as int], qc@)->0]);
                    assert forall|j: int| 0 <= j < out@.len() implies #[trigger] ranked_ok(out@[j], now[j]) by {
                        if j < before.len() {
                            assert(now[j] == before[j]);
                        }
                    }
                }
            },
            None => {
                proof {
                    let now = ranked_all(pages@.take(i + 1), qc@);
                    assert(now =~= before + Seq::<RankedView>::empty());
                    assert(now =~= before);
                }
            },
        }
        i = i + 1;
    }
    proof {
        assert(pages@.take(pages@.len() as int) =~= pages@);
    }
    out
}

/// The matches sorted by rank.
fn sort_matches(cands: Vec<Ranked>, ghost_cands: Ghost<Seq<RankedView>>) -> (r: Vec<Ranked>)
    requires
        cands@.len() == ghost_cands@.len(),
        forall|i: int| 0 <= i < cands@.len() ==> #[trigger] ranked_ok(cands@[i], ghost_cands@[i]),
    ensures
        r@.len() == sort_ranked(ghost_cands@).len(),
        forall|i: int| 0 <= i < r@.len() ==> #[trigger] ranked_ok(r@[i], sort_ranked(ghost_cands@)[i]),
{
    let ghost cs = ghost_cands@;
    let ghost orig = cands@;
    let mut rev = super::workspace::reverse_vec(cands);
    let total = rev.len();
    let mut sorted: Vec<Ranked> = Vec::new();
    let mut j: usize = 0;
    proof {
        assert(cs.take(0) =~= Seq::<RankedView>::empty());
    }
    while rev.len() > 0
        invariant
            rev@.len() + j == cs.len(),
            total == cs.len(),
            cs.len() == orig.len(),
            forall|m: int| 0 <= m < rev@.len() ==> #[trigger] rev@[m] == orig[orig.len() - 1 - m],
            forall|m: int| 0 <= m < orig.len() ==> #[trigger] ranked_ok(orig[m], cs[m]),
            sorted@.len() == sort_ranked(cs.take(j as int)).len(),
            forall|m: int| 0 <= m < sorted@.len() ==> #[trigger] ranked_ok(sorted@[m], sort_ranked(cs.take(j as int))[m]),
        decreases rev@.len(),
    {
        let x = rev.pop().unwrap();
        let ghost xv = cs[j as int];
        assert(x == orig[j as int]);
        assert(ranked_ok(x, xv));
        let ghost t = sort_ranked(cs.take(j as int));
        let mut k: usize = 0;
        proof {
            lemma_rank_slot(t, xv, 0);
        }
        while k < sorted.len() && !ranks_before(&x, &sorted[k])
            invariant
                k <= sorted@.len(),
                sorted@.len() == t.len(),
                forall|m: int| 0 <= m < sorted@.len() ==> #[trigger] ranked_ok(sorted@[m], t[m]),
                ranked_ok(x, xv),
                rank_slot(t, xv, k as int) == rank_slot(t, xv, 0),
            decreases sorted@.len() - k,
        {
            proof {
                assert(ranked_ok(sorted@[k as int], t[k as int]));
            }
            k = k + 1;
        }
        proof {
            if k < sorted@.len() {
                assert(ranked_ok(sorted@[k as int], t[k as int]));
            }
            assert(rank_slot(t, xv, 0) == k);
            assert(cs.take(j + 1).drop_last() =~= cs.take(j as int));
            assert(cs.take(j + 1).last() == xv);
        }
        let ghost before = sorted@;
        sorted.insert(k, x);
        proof {
            let now = sort_ranked(cs.take(j + 1));
            assert(now == t.insert(k as int, xv));
            assert forall|m: int| 0 <= m < sorted@.len() implies #[trigger] ranked_ok(sorted@[m], now[m]) by {
                if m < k {
                    assert(sorted@[m] == before[m]);
                    assert(now[m] == t[m]);
                } else if m > k {
                    assert(sorted@[m] == before[m - 1]);
                    assert(now[m] == t[m - 1]);
                }
            }
        }
        j = j + 1;
    }
    proof {
        assert(cs.take(cs.len() as int) =~= cs);
    }
    sorted
}

// ---------------------------------------------------------------------------
// The read API
// ---------------------------------------------------------------------------

/// Every child listed by the cache is itself cached.
proof fn lemma_children_cached(pages: Seq<Page>, x: int)
    requires
        0 <= x < pages.len(),
        super::workspace::hierarchy_ok(pages),
    ensures
        forall|j: int|
            0 <= j < pages[x].child_page_ids@.len() ==> super::workspace::ids_of(pages).contains(
                (#[trigger] pages[x].child_page_ids@[j])@,
            ),
{
    let ids = super::workspace::ids_of(pages);
    let kids = super::workspace::children_of(ids, pages[x].page_id@);
    lemma_children_of_in(ids, pages[x].page_id@);
    assert forall|j: int| 0 <= j < pages[x].child_page_ids@.len() implies ids.contains(
        (#[trigger] pages[x].child_page_ids@[j])@,
    ) by {
        assert(super::workspace::id_views(pages[x].child_page_ids@)[j] == pages[x].child_page_ids@[j]@);
        assert(kids[j] == pages[x].child_page_ids@[j]@);
    }
}

proof fn lemma_children_of_in(ids: Seq<PageIdView>, p: PageIdView)
    ensures
        forall|j: int|
            0 <= j < super::workspace::children_of(ids, p).len() ==> ids.contains(
                #[trigger] super::workspace::children_of(ids, p)[j],
            ),
    decreases ids.len(),
{
    if ids.len() > 0 {
        lemma_children_of_in(ids.drop_last(), p);
        let a = super::workspace::children_of(ids.drop_last(), p);
        let c = super::workspace::children_of(ids, p);
        assert forall|j: int| 0 <= j < c.len() implies ids.contains(#[trigger] c[j]) by {
            if j < a.len() {
                assert(c[j] == a[j]);
                let k = choose|k: int| 0 <= k < ids.drop_last().len() && ids.drop_last()[k] == a[j];
                assert(ids[k] == a[j]);
            } else {
                assert(c[j] == ids.last());
                assert(ids[ids.len() - 1] == ids.last());
            }
        }
    }
}

/// Read access to a cache, with the modification times (milliseconds since the
/// epoch) known for its pages.
pub struct WorkspaceReadApi<'a> {
    cache: &'a WorkspaceCache,
    page_modified_at: Vec<(PageId, u64)>,
}

impl<'a> WorkspaceReadApi<'a> {
    /// The cached pages, in identity order.
    pub closed spec fn pages_view(self) -> Seq<Page> {
        self.cache.page_list()
    }

    /// The modification times.
    pub closed spec fn times_view(self) -> Seq<(PageId, u64)> {
        self.page_modified_at@
    }

    pub fn new(cache: &'a WorkspaceCache, page_modified_at: Vec<(PageId, u64)>) -> (r: Self)
        ensures
            r.pages_view() == cache.page_list(),
            r.times_view() == page_modified_at@,
    {
        WorkspaceReadApi { cache, page_modified_at }
    }

    /// Summaries of all pages, in identity order.
    pub fn all_pages(&self) -> (r: Vec<PageSummary>)
        ensures
            summaries_ok(r@, self.pages_view(), self.times_view()),
    {
        let pages = self.cache.pages();
        let r = summaries_of(pages.as_slice(), 0, pages.len(), &self.page_modified_at);
        assert(pages@.subrange(0, pages@.len() as int) =~= pages@);
        r
    }

    /// The summary of one page; `Err(MissingPage)` when it is not cached.
    pub fn page_summary(&self, page_id: &PageId) -> (r: Result<PageSummary, CoreError>)
        ensures
            r is Err <==> lookup(self.pages_view(), page_id@) is None,
            r matches Err(e) ==> e == CoreError::MissingPage,
            r matches Ok(s) ==> summary_ok(s, lookup(self.pages_view(), page_id@)->0, self.times_view()),
    {
        match self.cache.page(page_id) {
            None => Err(CoreError::MissingPage),
            Some(page) => Ok(summary_of(page, &self.page_modified_at)),
        }
    }

    /// Summaries of a page's children; `Err(MissingPage)` when the page is not cached.
    pub fn child_pages(&self, page_id: &PageId) -> (r: Result<Vec<PageSummary>, CoreError>)
        ensures
            r is Err <==> lookup(self.pages_view(), page_id@) is None,
            r matches Err(e) ==> e == CoreError::MissingPage,
            r matches Ok(v) ==> {
                let p = lookup(self.pages_view(), page_id@)->0;
                &&& v@.len() == p.child_page_ids@.len()
                &&& forall|i: int|
                    0 <= i < v@.len() ==> #[trigger] summary_ok(
                        v@[i],
                        lookup(self.pages_view(), p.child_page_ids@[i]@)->0,
                        self.times_view(),
                    )
            },
    {
        let pages = self.cache.pages();
        let page = match self.cache.page(page_id) {
            None => {
                return Err(CoreError::MissingPage);
            },
            Some(p) => p,
        };
        let ghost x = choose|x: int| 0 <= x < pages@.len() && pages@[x] == *page;
        proof {
            super::workspace::lemma_lookup_some(pages@, page_id@);
            lemma_children_cached(pages@, x);
        }
        let mut out: Vec<PageSummary> = Vec::new();
        let mut i: usize = 0;
        while i < page.child_page_ids.len()
            invariant
                i <= page.child_page_ids@.len(),
                out@.len() == i,
                pages@ == self.pages_view(),
                lookup(pages@, page_id@) == Some(*page),
                forall|j: int|
                    0 <= j < page.child_page_ids@.len() ==> super::workspace::ids_of(pages@).contains(
                        (#[trigger] page.child_page_ids@[j])@,
                    ),
                forall|j: int|
                    0 <= j < i ==> #[trigger] summary_ok(
                        out@[j],
                        lookup(pages@, page.child_page_ids@[j]@)->0,
                        self.times_view(),
                    ),
            decreases page.child_page_ids@.len() - i,
        {
            let c = &page.child_page_ids[i];
            assert(super::workspace::ids_of(pages@).contains(c@));
            match self.cache.page(c) {
                None => {
                    proof {
                        super::workspace::lemma_lookup_contains(pages@, c@);
                    }
                    return Err(CoreError::MissingPage);
                },
                Some(child) => {
                    out.push(summary_of(child, &self.page_modified_at));
                },
            }
            i = i + 1;
        }
        Ok(out)
    }

    /// The incoming references of a page; `Err(MissingPage)` when it is not cached.
    pub fn page_incoming_refs(&self, target_page_id: &PageId) -> (r: Result<Vec<IncomingPageRefSnapshot>, CoreError>)
        ensures
            r is Err <==> lookup(self.pages_view(), target_page_id@) is None,
            r matches Err(e) ==> e == CoreError::MissingPage,
            r matches Ok(v) ==> {
                let p = lookup(self.pages_view(), target_page_id@)->0;
                &&& v@.len() == p.incoming_refs@.len()
                &&& forall|i: int|
                    0 <= i < v@.len() ==> #[trigger] incoming_snapshot_ok(v@[i], target_page_id@, p.incoming_refs@[i]@)
            },
    {
        match self.cache.page(target_page_id) {
            None => Err(CoreError::MissingPage),
            Some(page) => Ok(incoming_snapshots(&page.incoming_refs, target_page_id)),
        }
    }

    /// The references a page makes, in source order; `Err(MissingPage)` when it is not cached.
    pub fn page_outgoing_refs(&self, source_page_id: &PageId) -> (r: Result<Vec<OutgoingPageRefSnapshot>, CoreError>)
        ensures
            r is Err <==> lookup(self.pages_view(), source_page_id@) is None,
            r matches Err(e) ==> e == CoreError::MissingPage,
            r matches Ok(v) ==> {
                let refs = refs_of(flatten_forest(forest_view(lookup(self.pages_view(), source_page_id@)->0.blocks@)));
                &&& v@.len() == refs.len()
                &&& forall|i: int|
                    0 <= i < v@.len() ==> #[trigger] outgoing_snapshot_ok(v@[i], refs[i], self.pages_view())
            },
    {
        match self.cache.page(source_page_id) {
            None => Err(CoreError::MissingPage),
            Some(page) => {
                let refs = page.outgoing_refs();
                let v = outgoing_snapshots(self.cache, &refs);
                proof {
                    assert forall|i: int| 0 <= i < v@.len() implies #[trigger] outgoing_snapshot_ok(
                        v@[i],
                        refs_of(flatten_forest(forest_view(page.blocks@)))[i],
                        self.pages_view(),
                    ) by {
                        assert(refs_view(refs@)[i] == refs@[i]@);
                    }
                }
                Ok(v)
            },
        }
    }

    /// A page's summary with its references; `Err(MissingPage)` when it is not cached.
    pub fn page_detail(&self, page_id: &PageId) -> (r: Result<PageDetail, CoreError>)
        ensures
            r is Err <==> lookup(self.pages_view(), page_id@) is None,
            r matches Err(e) ==> e == CoreError::MissingPage,
            r matches Ok(d) ==> {
                let p = lookup(self.pages_view(), page_id@)->0;
                let refs = refs_of(flatten_forest(forest_view(p.blocks@)));
                &&& summary_ok(d.summary, p, self.times_view())
                &&& d.incoming_refs@.len() == p.incoming_refs@.len()
                &&& (forall|i: int|
                    0 <= i < d.incoming_refs@.len() ==> #[trigger] incoming_snapshot_ok(
                        d.incoming_refs@[i],
                        page_id@,
                        p.incoming_refs@[i]@,
                    ))
                &&& d.outgoing_refs@.len() == refs.len()
                &&& (forall|i: int|
                    0 <= i < d.outgoing_refs@.len() ==> #[trigger] outgoing_snapshot_ok(
                        d.outgoing_refs@[i],
                        refs[i],
                        self.pages_view(),
                    ))
                &&& d.outgoing_ref_count == refs.len()
            },
    {
        match self.cache.page(page_id) {
            None => Err(CoreError::MissingPage),
            Some(page) => {
                let refs = page.outgoing_refs();
                let outgoing = outgoing_snapshots(self.cache, &refs);
                let count = refs.len();
                proof {
                    assert forall|i: int| 0 <= i < outgoing@.len() implies #[trigger] outgoing_snapshot_ok(
                        outgoing@[i],
                        refs_of(flatten_forest(forest_view(page.blocks@)))[i],
                        self.pages_view(),
                    ) by {
                        assert(refs_view(refs@)[i] == refs@[i]@);
                    }
                }
                Ok(
                    PageDetail {
                        summary: summary_of(page, &self.page_modified_at),
                        incoming_refs: incoming_snapshots(&page.incoming_refs, page_id),
                        outgoing_refs: outgoing,
                        outgoing_ref_count: count,
                    },
                )
            },
        }
    }

    /// Summaries of the pages that reference a page that is not cached, in identity order.
    pub fn pages_with_missing_targets(&self) -> (r: Vec<PageSummary>)
        ensures
            summaries_ok(
                r@,
                self.pages_view().filter(|p: Page| has_missing_target(p, self.pages_view())),
                self.times_view(),
            ),
    {
        let pages = self.cache.pages();
        let ghost all = pages@;
        let ghost pred = |p: Page| has_missing_target(p, all);
        let mut out: Vec<PageSummary> = Vec::new();
        let mut i: usize = 0;
        proof {
            reveal(Seq::filter);
            assert(all.take(0) =~= Seq::<Page>::empty());
        }
        while i < pages.len()
            invariant
                i <= all.len(),
                all == pages@,
                all == self.pages_view(),
                pred == (|p: Page| has_missing_target(p, all)),
                summaries_ok(out@, all.take(i as int).filter(pred), self.times_view()),
            decreases all.len() - i,
        {
            let page = &pages[i];
            let refs = page.outgoing_refs();
            let mut missing = false;
            let mut k: usize = 0;
            while k < refs.len()
                invariant
                    k <= refs@.len(),
                    missing == (exists|j: int| 0 <= j < k && lookup(all, (#[trigger] refs_view(refs@)[j]).target) is None),
                    all == self.pages_view(),
                decreases refs@.len() - k,
            {
                if self.cache.page(&refs[k].target_page_id).is_none() {
                    proof {
                        assert(refs_view(refs@)[k as int] == refs@[k as int]@);
                    }
                    missing = true;
                } else {
                    proof {
                        assert(refs_view(refs@)[k as int] == refs@[k as int]@);
                    }
                }
                k = k + 1;
            }
            proof {
                assert(all.take(i + 1).drop_last() =~= all.take(i as int));
                assert(all.take(i + 1).last() == all[i as int]);
                assert(missing == has_missing_target(all[i as int], all));
            }
            if missing {
                let ghost before = out@;
                out.push(summary_of(page, &self.page_modified_at));
                proof {
                    reveal(Seq::filter);
                    let f = all.take(i + 1).filter(pred);
                    assert(f == all.take(i as int).filter(pred).push(all[i as int]));
                    assert forall|j: int| 0 <= j < out@.len() implies #[trigger] summary_ok(out@[j], f[j], self.times_view()) by {
                        if j < before.len() {
                            assert(summary_ok(before[j], all.take(i as int).filter(pred)[j], self.times_view()));
                        }
                    }
                }
            } else {
                proof {
                    reveal(Seq::filter);
                    assert(all.take(i + 1).filter(pred) == all.take(i as int).filter(pred));
                }
            }
            i = i + 1;
        }
        proof {
            assert(all.take(all.len() as int) =~= all);
        }
        out
    }

    /// Summaries of at most `limit` pages after skipping `offset`, in identity order.
    pub fn all_pages_paginated(&self, offset: usize, limit: usize) -> (r: Vec<PageSummary>)
        ensures
            ({
                let n = self.pages_view().len() as int;
                let from = if offset < n {
                    offset as int
                } else {
                    n
                };
                let to = if limit < n - from {
                    from + limit
                } else {
                    n
                };
                summaries_ok(r@, self.pages_view().subrange(from, to), self.times_view())
            }),
    {
        let pages = self.cache.pages();
        let n = pages.len();
        let from = if offset < n {
            offset
        } else {
            n
        };
        let to = if limit < n - from {
            from + limit
        } else {
            n
        };
        summaries_of(pages.as_slice(), from, to, &self.page_modified_at)
    }

    /// A page's revision, text and flat blocks; `Err(MissingPage)` when it is not
    /// cached, `Err(InvalidSpan(..))` for the first block whose content span does not
    /// fit the text.
    pub fn page_content(&self, page_id: &PageId) -> (r: Result<PageContentSnapshot, CoreError>)
        ensures
            lookup(self.pages_view(), page_id@) is None ==> r == Err::<PageContentSnapshot, CoreError>(
                CoreError::MissingPage,
            ),
            lookup(self.pages_view(), page_id@) matches Some(p) ==> ({
                let items = flat_forest(forest_view(p.blocks@), 0);
                let k = first_unfit(p.text@, items);
                &&& (r is Ok <==> k < 0)
                &&& (k >= 0 ==> r == Err::<PageContentSnapshot, CoreError>(CoreError::InvalidSpan(
                    content_span_of(items[k].0).fit_error(utf8_of(p.text@)),
                )))
                &&& (r matches Ok(c) ==> {
                    &&& c.revision == p.fingerprint
                    &&& c.text@ == p.text@
                    &&& c.blocks@.len() == items.len()
                    &&& forall|i: int| 0 <= i < items.len() ==> #[trigger] flat_ok(c.blocks@[i], items[i], p.text@)
                })
            }),
    {
        match self.cache.page(page_id) {
            None => Err(CoreError::MissingPage),
            Some(page) => {
                let blocks = match flat_blocks(page) {
                    Ok(b) => b,
                    Err(e) => {
                        return Err(e);
                    },
                };
                Ok(PageContentSnapshot { revision: page.fingerprint, blocks, text: page.text.clone() })
            },
        }
    }

    /// A snapshot of the block a handle names, as the source page holds it now.
    pub fn block_snapshot(&self, handle: &BlockHandle) -> (r: Result<BlockSnapshot, CoreError>)
        ensures
            lookup(self.pages_view(), handle.source_page_id@) is None ==> r == Err::<BlockSnapshot, CoreError>(
                CoreError::MissingPage,
            ),
            lookup(self.pages_view(), handle.source_page_id@) matches Some(src) ==> ({
                let fl = flatten_forest(forest_view(src.blocks@));
                let k = super::block::first_span_match(fl, handle.block_span.lo() as int, handle.block_span.hi() as int);
                &&& (k < 0 ==> (r matches Err(e) && (e matches CoreError::StructuralConflict { path } && path@ == src.workspace_path@)))
                &&& (k >= 0 ==> (r is Ok <==> snapshot_error(src.text@, fl[k]) is None))
                &&& (k >= 0 ==> (r matches Err(e) ==> e == CoreError::InvalidSpan(snapshot_error(src.text@, fl[k])->0)))
                &&& (k >= 0 ==> (r matches Ok(s) ==> snapshot_ok(s, fl[k], src, self.pages_view())))
            }),
    {
        match self.cache.page(&handle.source_page_id) {
            None => Err(CoreError::MissingPage),
            Some(source) => source_block_snapshot(self.cache, source, handle.block_span),
        }
    }

    /// Each reference to a page, with the block that makes it and the reference
    /// highlighted in that block's content; `Err(MissingPage)` when the page is not
    /// cached, else the error of the first reference that cannot be shown.
    pub fn page_linked_refs(&self, target_page_id: &PageId) -> (r: Result<Vec<LinkedRefEntry>, CoreError>)
        ensures
            lookup(self.pages_view(), target_page_id@) is None ==> r == Err::<Vec<LinkedRefEntry>, CoreError>(
                CoreError::MissingPage,
            ),
            lookup(self.pages_view(), target_page_id@) matches Some(p) ==> ({
                let refs = incoming_views(p.incoming_refs@);
                let k = first_unlinked(self.pages_view(), refs);
                &&& (r is Ok <==> k < 0)
                &&& (k >= 0 ==> (r matches Err(e) && reported_as(e, link_outcome(self.pages_view(), refs[k]))))
                &&& (r matches Ok(v) ==> v@.len() == refs.len() && forall|i: int|
                    0 <= i < refs.len() ==> #[trigger] entry_ok(v@[i], target_page_id@, refs[i], self.pages_view()))
            }),
    {
        let target = match self.cache.page(target_page_id) {
            None => {
                return Err(CoreError::MissingPage);
            },
            Some(p) => p,
        };
        let ghost pages = self.pages_view();
        let ghost refs = incoming_views(target.incoming_refs@);
        let mut out: Vec<LinkedRefEntry> = Vec::new();
        let mut i: usize = 0;
        proof {
            assert(refs.take(0) =~= Seq::<IncomingRefView>::empty());
        }
        while i < target.incoming_refs.len()
            invariant
                i <= target.incoming_refs@.len(),
                refs == incoming_views(target.incoming_refs@),
                pages == self.pages_view(),
                pages == self.cache.page_list(),
                lookup(pages, target_page_id@) == Some(*target),
                out@.len() == i,
                first_unlinked(pages, refs.take(i as int)) < 0,
                forall|j: int| 0 <= j < i ==> #[trigger] entry_ok(out@[j], target_page_id@, refs[j], pages),
            decreases target.incoming_refs@.len() - i,
        {
            let r = &target.incoming_refs[i];
            let ghost rv = r@;
            proof {
                assert(refs[i as int] == rv);
                lemma_first_unlinked_take(pages, refs, i as int);
            }
            let source = match self.cache.page(&r.source_page_id) {
                None => {
                    return Err(CoreError::MissingPage);
                },
                Some(s) => s,
            };
            let block = match source_block_snapshot(self.cache, source, r.source_block_span) {
                Ok(b) => b,
                Err(e) => {
                    return Err(e);
                },
            };
            let ghost fl = flatten_forest(forest_view(source.blocks@));
            let ghost k = super::block::first_span_match(fl, r.source_block_span.lo() as int, r.source_block_span.hi() as int);
            let highlight = match linked_ref_highlight(source, block.content_span, r.ref_span) {
                Ok(h) => h,
                Err(e) => {
                    return Err(e);
                },
            };
            proof {
                assert(block.content_span == content_span_of(fl[k]));
            }
            out.push(
                LinkedRefEntry {
                    target_page_id: target_page_id.duplicate(),
                    source_page_id: r.source_page_id.duplicate(),
                    ref_span: r.ref_span,
                    block,
                    block_content_highlight: highlight,
                },
            );
            i = i + 1;
        }
        proof {
            assert(refs.take(refs.len() as int) =~= refs);
        }
        Ok(out)
    }

    /// Pages matching `query` (trimmed, case-insensitive) by title, identity or
    /// text, best first, at most `limit` of them; none for a blank query or a zero limit.
    pub fn search_pages(&self, query: &str, limit: usize) -> (r: Vec<SearchResult>)
        ensures
            (normalized_query(query@).len() == 0 || limit == 0) ==> r@.len() == 0,
            !(normalized_query(query@).len() == 0 || limit == 0) ==> ({
                let sorted = sort_ranked(ranked_all(self.pages_view(), normalized_query(query@)));
                &&& r@.len() == (if limit < sorted.len() { limit as int } else { sorted.len() as int })
                &&& forall|i: int| 0 <= i < r@.len() ==> #[trigger] result_ok(r@[i], sorted[i])
            }),
    {
        let qchars = str_chars(query);
        let trimmed = super::parser::trim_white_space_chars(&qchars);
        let trimmed_s = chars_to_string(&trimmed);
        let normalized = to_lowercase(trimmed_s.as_str());
        let qc = str_chars(normalized.as_str());
        if qc.len() == 0 || limit == 0 {
            return Vec::new();
        }
        let pages = self.cache.pages();
        let cands = rank_all(pages, &qc);
        let ghost cs = ranked_all(pages@, qc@);
        let sorted = sort_matches(cands, Ghost(cs));
        let n = if limit < sorted.len() {
            limit
        } else {
            sorted.len()
        };
        let mut out: Vec<SearchResult> = Vec::new();
        let mut i: usize = 0;
        while i < n
            invariant
                i <= n <= sorted@.len(),
                out@.len() == i,
                sorted@.len() == sort_ranked(cs).len(),
                forall|m: int| 0 <= m < sorted@.len() ==> #[trigger] ranked_ok(sorted@[m], sort_ranked(cs)[m]),
                forall|m: int| 0 <= m < i ==> #[trigger] result_ok(out@[m], sort_ranked(cs)[m]),
            decreases n - i,
        {
            let x = &sorted[i];
            assert(ranked_ok(*x, sort_ranked(cs)[i as int]));
            let snippet = match &x.snippet {
                Some(t) => Some(t.clone()),
                None => None,
            };
            out.push(
                SearchResult {
                    page_id: x.page_id.duplicate(),
                    title: x.title.clone(),
                    location: x.location.duplicate(),
                    matched_field: x.matched_field,
                    snippet,
                },
            );
            i = i + 1;
        }
        out
    }
}


/// `q` occurs in `s` at position `k`.
pub open spec fn occurs_at(s: Seq<char>, q: Seq<char>, k: int) -> bool {
    0 <= k && k + q.len() <= s.len() && s.subrange(k, k + q.len()) == q
}

/// `q` occurs somewhere in `s`.
pub open spec fn holds_text(s: Seq<char>, q: Seq<char>) -> bool {
    exists|k: int| #[trigger] occurs_at(s, q, k)
}

proof fn lemma_find_from_occurs(s: Seq<char>, q: Seq<char>, i: int)
    requires
        0 <= i,
    ensures
        find_from(s, q, i) == -1 ==> forall|k: int| i <= k ==> !#[trigger] occurs_at(s, q, k),
        find_from(s, q, i) != -1 ==> i <= find_from(s, q, i) && occurs_at(s, q, find_from(s, q, i)) && forall|k: int|
            i <= k < find_from(s, q, i) ==> !#[trigger] occurs_at(s, q, k),
    decreases s.len() - i,
{
    if i + q.len() > s.len() {
    } else if s.subrange(i, i + q.len()) == q {
    } else if i >= s.len() {
    } else {
        lemma_find_from_occurs(s, q, i + 1);
        assert(!occurs_at(s, q, i));
    }
}

proof fn lemma_find_chars_occurs(s: Seq<char>, q: Seq<char>)
    ensures
        find_chars(s, q) >= 0 <==> holds_text(s, q),
        find_chars(s, q) == 0 <==> occurs_at(s, q, 0),
{
    lemma_find_from_occurs(s, q, 0);
    if holds_text(s, q) {
        let k = choose|k: int| #[trigger] occurs_at(s, q, k);
        assert(0 <= k);
    }
    if find_chars(s, q) >= 0 {
        assert(occurs_at(s, q, find_chars(s, q)));
    }
}

/// How search ranks a page's match against another's, for a non-empty lower-case
/// query `q`, given each page's title, identity and text in lower case: a page
/// matches exactly when one of the three holds `q`; a title equal to `q` ranks
/// above any other match; a title that starts with `q` ranks above a title that
/// holds it only further on; any title match ranks above a match of the identity
/// or the text; an identity match ranks above a text match; and two title matches
/// that both hold `q` only further on rank alike.
pub proof fn law_search_match_order(
    a: Page,
    ta: Seq<char>,
    ia: Seq<char>,
    xa: Seq<char>,
    b: Page,
    tb: Seq<char>,
    ib: Seq<char>,
    xb: Seq<char>,
    q: Seq<char>,
)
    requires
        q.len() > 0,
    ensures
        rank_lowered_view(a, ta, ia, xa, q) is Some <==> (holds_text(ta, q) || holds_text(ia, q) || holds_text(xa, q)),
        ({
            let ra = rank_lowered_view(a, ta, ia, xa, q);
            let rb = rank_lowered_view(b, tb, ib, xb, q);
            &&& ta == q && tb != q && rb is Some ==> ra->0.score > rb->0.score
            &&& occurs_at(ta, q, 0) && ta != q && holds_text(tb, q) && !occurs_at(tb, q, 0) ==> ra->0.score
                > rb->0.score
            &&& holds_text(ta, q) && !holds_text(tb, q) && rb is Some ==> ra->0.score > rb->0.score
            &&& !holds_text(ta, q) && holds_text(ia, q) && !holds_text(tb, q) && !holds_text(ib, q) && rb is Some
                ==> ra->0.score > rb->0.score
            &&& holds_text(ta, q) && !occurs_at(ta, q, 0) && holds_text(tb, q) && !occurs_at(tb, q, 0) ==> ra->0.score
                == rb->0.score
        }),
{
    lemma_find_chars_occurs(ta, q);
    lemma_find_chars_occurs(ia, q);
    lemma_find_chars_occurs(xa, q);
    lemma_find_chars_occurs(tb, q);
    lemma_find_chars_occurs(ib, q);
    lemma_find_chars_occurs(xb, q);
    if ta == q {
        assert(ta.subrange(0, q.len() as int) =~= q);
        assert(occurs_at(ta, q, 0));
    }
    if tb == q {
        assert(tb.subrange(0, q.len() as int) =~= q);
        assert(occurs_at(tb, q, 0));
    }
}

proof fn lemma_sort_ranked_scores(s: Seq<RankedView>)
    ensures
        sort_ranked(s).len() == s.len(),
        forall|i: int, j: int|
            0 <= i < j < sort_ranked(s).len() ==> (#[trigger] sort_ranked(s)[i]).score >= (#[trigger] sort_ranked(
                s,
            )[j]).score,
        forall|i: int, j: int|
            0 <= i < j < sort_ranked(s).len() && (#[trigger] sort_ranked(s)[i]).score == (#[trigger] sort_ranked(
                s,
            )[j]).score ==> sort_ranked(s)[i].position <= sort_ranked(s)[j].position,
    decreases s.len(),
{
    if s.len() > 0 {
        lemma_sort_ranked_scores(s.drop_last());
        let t = sort_ranked(s.drop_last());
        let x = s.last();
        lemma_rank_slot(t, x, 0);
        let k = rank_slot(t, x, 0);
        lemma_rank_slot_facts(t, x, 0);
        let out = t.insert(k, x);
        assert(out == sort_ranked(s));
        assert forall|i: int, j: int| 0 <= i < j < out.len() implies (#[trigger] out[i]).score >= (#[trigger] out[j]).score
            && (out[i].score == out[j].score ==> out[i].position <= out[j].position) by {
            if j < k {
                assert(out[i] == t[i] && out[j] == t[j]);
            } else if j == k {
                assert(out[i] == t[i] && out[j] == x);
                assert(!rank_before(x, t[i]));
            } else if i == k {
                assert(out[j] == t[j - 1]);
                assert(rank_before(x, t[k]));
                if j - 1 > k {
                    assert(t[k].score >= t[j - 1].score);
                    if x.score == t[j - 1].score {
                        assert(t[k].score == t[j - 1].score);
                        assert(t[k].position <= t[j - 1].position);
                    }
                }
            } else if i < k {
                assert(out[i] == t[i] && out[j] == t[j - 1]);
            } else {
                assert(out[i] == t[i - 1] && out[j] == t[j - 1]);
            }
        }
    }
}

proof fn lemma_rank_slot_facts(s: Seq<RankedView>, x: RankedView, i: int)
    requires
        0 <= i <= s.len(),
    ensures
        forall|m: int| i <= m < rank_slot(s, x, i) ==> !rank_before(x, #[trigger] s[m]),
        rank_slot(s, x, i) < s.len() ==> rank_before(x, s[rank_slot(s, x, i)]),
    decreases s.len() - i,
{
    if i < s.len() && !rank_before(x, s[i]) {
        lemma_rank_slot_facts(s, x, i + 1);
    }
}

/// Search results come by score: a result never has a lower score than one after it,
/// and of two results with the same score the earlier match comes first.
pub proof fn law_search_results_by_score(pages: Seq<Page>, q: Seq<char>)
    ensures
        forall|i: int, j: int|
            0 <= i < j < sort_ranked(ranked_all(pages, q)).len() ==> (#[trigger] sort_ranked(ranked_all(pages, q))[i]).score
                >= (#[trigger] sort_ranked(ranked_all(pages, q))[j]).score,
        forall|i: int, j: int|
            0 <= i < j < sort_ranked(ranked_all(pages, q)).len() && (#[trigger] sort_ranked(ranked_all(pages, q))[i]).score
                == (#[trigger] sort_ranked(ranked_all(pages, q))[j]).score ==> sort_ranked(ranked_all(pages, q))[i].position
                <= sort_ranked(ranked_all(pages, q))[j].position,
{
    lemma_sort_ranked_scores(ranked_all(pages, q));
}

} // verus!
