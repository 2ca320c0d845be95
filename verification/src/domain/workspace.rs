//! The in-memory cache of a workspace's pages: pages ordered by identity, each with
//! the ids of its child pages and the references other blocks make to it.

use vstd::prelude::*;
use vstd::multiset::Multiset;

use super::block::{
    block_view, flatten_forest, flatten_tree, lemma_flatten_forest_push, BlockView,
    IncomingRef, IncomingRefView, RefView,
};
use super::error::CoreError;
use super::order::{id_lt, lemma_id_lt_order, page_id_less};
use super::page::{fingerprint_of, forest_view, FileFingerprint, Page};
use super::page_id::{ancestor_view, has_parent, parent_view, workspace_path_view, PageId, PageIdView};
use crate::text::utf8_of;
use super::parser::{parse_blocks, parse_spec};
use super::span::SourceSpan;

verus! {

// ---------------------------------------------------------------------------
// Values
// ---------------------------------------------------------------------------

/// The identities of a sequence of pages.
pub open spec fn ids_of(pages: Seq<Page>) -> Seq<PageIdView> {
    pages.map_values(|p: Page| p.page_id@)
}

/// The values of a sequence of page ids.
pub open spec fn id_views(ids: Seq<PageId>) -> Seq<PageIdView> {
    ids.map_values(|i: PageId| i@)
}

/// The values of a sequence of incoming references.
pub open spec fn incoming_views(refs: Seq<IncomingRef>) -> Seq<IncomingRefView> {
    refs.map_values(|r: IncomingRef| r@)
}

/// Strictly increasing identities (so no identity occurs twice).
pub open spec fn sorted_ids(ids: Seq<PageIdView>) -> bool {
    forall|i: int, j: int| 0 <= i < j < ids.len() ==> id_lt(#[trigger] ids[i], #[trigger] ids[j])
}

/// `c` is a page-backed child of `p`.
pub open spec fn is_child_of(c: PageIdView, p: PageIdView) -> bool {
    has_parent(c) && parent_view(c) == p
}

/// The children of `p` among `ids`, in order.
pub open spec fn children_of(ids: Seq<PageIdView>, p: PageIdView) -> Seq<PageIdView>
    decreases ids.len(),
{
    if ids.len() == 0 {
        seq![]
    } else {
        children_of(ids.drop_last(), p) + (if is_child_of(ids.last(), p) {
            seq![ids.last()]
        } else {
            seq![]
        })
    }
}

/// Every page lists exactly its children among the cached pages, in order.
pub open spec fn hierarchy_ok(pages: Seq<Page>) -> bool {
    forall|i: int|
        0 <= i < pages.len() ==> id_views(#[trigger] pages[i].child_page_ids@) == children_of(
            ids_of(pages),
            pages[i].page_id@,
        )
}

/// The page with identity `t`, if any (the last one, should there be several).
pub open spec fn lookup(pages: Seq<Page>, t: PageIdView) -> Option<Page>
    decreases pages.len(),
{
    if pages.len() == 0 {
        None
    } else if pages.last().page_id@ == t {
        Some(pages.last())
    } else {
        lookup(pages.drop_last(), t)
    }
}

/// A page's own parts (everything but its children and incoming references) agree.
pub open spec fn same_content(a: Page, b: Page) -> bool {
    &&& a.page_id == b.page_id
    &&& a.location == b.location
    &&& a.title == b.title
    &&& a.workspace_path == b.workspace_path
    &&& a.text == b.text
    &&& a.blocks == b.blocks
    &&& a.fingerprint == b.fingerprint
}

/// The incoming reference that the reference `r` of block `b` of page `src` makes.
pub open spec fn incoming_of(src: PageIdView, fp: FileFingerprint, b: BlockView, r: RefView) -> (
    PageIdView,
    IncomingRefView,
) {
    (
        r.target,
        IncomingRefView {
            source: src,
            fingerprint: fp,
            block_span: SourceSpan::spec_new(b.block_start as usize, b.block_end as usize),
            ref_span: SourceSpan::spec_new(r.start as usize, r.end as usize),
        },
    )
}

/// The incoming references made by the references `refs` of one block.
pub open spec fn block_incoming(src: PageIdView, fp: FileFingerprint, b: BlockView, refs: Seq<RefView>) -> Seq<
    (PageIdView, IncomingRefView),
>
    decreases refs.len(),
{
    if refs.len() == 0 {
        seq![]
    } else {
        block_incoming(src, fp, b, refs.drop_last()).push(incoming_of(src, fp, b, refs.last()))
    }
}

/// The incoming references made by a sequence of blocks, block after block.
pub open spec fn blocks_incoming(src: PageIdView, fp: FileFingerprint, s: Seq<BlockView>) -> Seq<
    (PageIdView, IncomingRefView),
>
    decreases s.len(),
{
    if s.len() == 0 {
        seq![]
    } else {
        blocks_incoming(src, fp, s.drop_last()) + block_incoming(src, fp, s.last(), s.last().refs)
    }
}

/// Every reference a page makes, with its target, in source order.
pub open spec fn page_incoming(p: Page) -> Seq<(PageIdView, IncomingRefView)> {
    blocks_incoming(p.page_id@, p.fingerprint, flatten_forest(forest_view(p.blocks@)))
}

/// The references of `s` that target `t`, in order.
pub open spec fn targeting(s: Seq<(PageIdView, IncomingRefView)>, t: PageIdView) -> Seq<
    IncomingRefView,
>
    decreases s.len(),
{
    if s.len() == 0 {
        seq![]
    } else {
        targeting(s.drop_last(), t) + (if s.last().0 == t {
            seq![s.last().1]
        } else {
            seq![]
        })
    }
}

/// The references to `t` made by the pages other than `excluded`, page after page.
pub open spec fn refs_into(pages: Seq<Page>, t: PageIdView, excluded: PageIdView) -> Seq<
    IncomingRefView,
>
    decreases pages.len(),
{
    if pages.len() == 0 {
        seq![]
    } else {
        refs_into(pages.drop_last(), t, excluded) + (if pages.last().page_id@ == excluded {
            seq![]
        } else {
            targeting(page_incoming(pages.last()), t)
        })
    }
}

/// `refs` without those made by page `src`.
pub open spec fn without_source(refs: Seq<IncomingRefView>, src: PageIdView) -> Seq<IncomingRefView>
    decreases refs.len(),
{
    if refs.len() == 0 {
        seq![]
    } else {
        without_source(refs.drop_last(), src) + (if refs.last().source == src {
            seq![]
        } else {
            seq![refs.last()]
        })
    }
}

// ---------------------------------------------------------------------------
// Small lemmas
// ---------------------------------------------------------------------------

pub proof fn lemma_children_of_concat(a: Seq<PageIdView>, b: Seq<PageIdView>, p: PageIdView)
    ensures
        children_of(a + b, p) == children_of(a, p) + children_of(b, p),
    decreases b.len(),
{
    if b.len() == 0 {
        assert(a + b =~= a);
        assert(children_of(a, p) + children_of(b, p) =~= children_of(a, p));
    } else {
        assert((a + b).drop_last() =~= a + b.drop_last());
        lemma_children_of_concat(a, b.drop_last(), p);
        assert(children_of(a + b, p) =~= children_of(a, p) + children_of(b, p));
    }
}

pub proof fn lemma_blocks_incoming_concat(
    src: PageIdView,
    fp: FileFingerprint,
    a: Seq<BlockView>,
    b: Seq<BlockView>,
)
    ensures
        blocks_incoming(src, fp, a + b) == blocks_incoming(src, fp, a) + blocks_incoming(src, fp, b),
    decreases b.len(),
{
    if b.len() == 0 {
        assert(a + b =~= a);
        assert(blocks_incoming(src, fp, a) + blocks_incoming(src, fp, b) =~= blocks_incoming(
            src,
            fp,
            a,
        ));
    } else {
        assert((a + b).drop_last() =~= a + b.drop_last());
        lemma_blocks_incoming_concat(src, fp, a, b.drop_last());
        assert(blocks_incoming(src, fp, a + b) =~= blocks_incoming(src, fp, a) + blocks_incoming(
            src,
            fp,
            b,
        ));
    }
}

pub proof fn lemma_lookup_at(pages: Seq<Page>, k: int)
    requires
        sorted_ids(ids_of(pages)),
        0 <= k < pages.len(),
    ensures
        lookup(pages, pages[k].page_id@) == Some(pages[k]),
    decreases pages.len(),
{
    let t = pages[k].page_id@;
    if k < pages.len() - 1 {
        assert(ids_of(pages)[k] == t);
        assert(id_lt(ids_of(pages)[k], ids_of(pages)[pages.len() - 1]));
        lemma_id_lt_order(t, t, t);
        assert(pages.last().page_id@ != t);
        assert(ids_of(pages.drop_last()) =~= ids_of(pages).drop_last());
        assert(pages.drop_last()[k] == pages[k]);
        lemma_lookup_at(pages.drop_last(), k);
    }
}

/// A found page sits at some position and has the identity looked for.
pub proof fn lemma_lookup_some(pages: Seq<Page>, t: PageIdView)
    ensures
        lookup(pages, t) matches Some(q) ==> exists|x: int|
            0 <= x < pages.len() && pages[x] == q && #[trigger] pages[x].page_id@ == t,
    decreases pages.len(),
{
    if pages.len() > 0 {
        if pages.last().page_id@ == t {
            assert(pages[pages.len() - 1] == pages.last());
        } else {
            lemma_lookup_some(pages.drop_last(), t);
            if let Some(q) = lookup(pages.drop_last(), t) {
                let x = choose|x: int| 0 <= x < pages.drop_last().len() && pages.drop_last()[x] == q && #[trigger] pages.drop_last()[x].page_id@ == t;
                assert(pages[x] == pages.drop_last()[x]);
            }
        }
    }
}

/// A contained identity is found.
pub proof fn lemma_lookup_contains(pages: Seq<Page>, t: PageIdView)
    requires
        ids_of(pages).contains(t),
    ensures
        lookup(pages, t) is Some,
    decreases pages.len(),
{
    if pages.len() > 0 && pages.last().page_id@ != t {
        let j = choose|j: int| 0 <= j < ids_of(pages).len() && ids_of(pages)[j] == t;
        assert(j != pages.len() - 1);
        assert(ids_of(pages.drop_last())[j] == t);
        lemma_lookup_contains(pages.drop_last(), t);
    }
}

pub proof fn lemma_lookup_none(pages: Seq<Page>, t: PageIdView)
    requires
        !ids_of(pages).contains(t),
    ensures
        lookup(pages, t) is None,
    decreases pages.len(),
{
    if pages.len() > 0 {
        assert(ids_of(pages)[pages.len() - 1] == pages.last().page_id@);
        assert(ids_of(pages.drop_last()) =~= ids_of(pages).drop_last());
        assert(!ids_of(pages.drop_last()).contains(t)) by {
            if ids_of(pages.drop_last()).contains(t) {
                let j = choose|j: int| 0 <= j < ids_of(pages.drop_last()).len() && ids_of(pages.drop_last())[j] == t;
                assert(ids_of(pages)[j] == t);
            }
        }
        lemma_lookup_none(pages.drop_last(), t);
    }
}

// ---------------------------------------------------------------------------
// Executable helpers
// ---------------------------------------------------------------------------

/// A reference made by a block, together with the page it targets.
struct TargetedRef {
    target_page_id: PageId,
    incoming_ref: IncomingRef,
}

spec fn targeted_views(s: Seq<TargetedRef>) -> Seq<(PageIdView, IncomingRefView)> {
    s.map_values(|x: TargetedRef| (x.target_page_id@, x.incoming_ref@))
}

/// The elements of `v` in reverse order.
pub(crate) fn reverse_vec<T>(v: Vec<T>) -> (r: Vec<T>)
    ensures
        r@.len() == v@.len(),
        forall|m: int| 0 <= m < r@.len() ==> #[trigger] r@[m] == v@[v@.len() - 1 - m],
{
    let ghost orig = v@;
    let mut v = v;
    let mut r: Vec<T> = Vec::new();
    while v.len() > 0
        invariant
            v@ == orig.take(v@.len() as int),
            r@.len() == orig.len() - v@.len(),
            forall|m: int| 0 <= m < r@.len() ==> #[trigger] r@[m] == orig[orig.len() - 1 - m],
        decreases v@.len(),
    {
        let x = v.pop().unwrap();
        r.push(x);
        assert(v@ =~= orig.take(v@.len() as int));
    }
    r
}

/// Every reference a page makes, with its target, in source order.
fn incoming_refs_of_page(page: &Page) -> (r: Vec<TargetedRef>)
    ensures
        targeted_views(r@) == page_incoming(*page),
{
    let ghost src = page.page_id@;
    let fp = page.fingerprint;
    let ghost fv = forest_view(page.blocks@);
    let mut out: Vec<TargetedRef> = Vec::new();
    let mut i: usize = 0;
    proof {
        assert(fv.take(0) =~= Seq::<BlockView>::empty());
        assert(targeted_views(out@) =~= blocks_incoming(src, fp, flatten_forest(fv.take(0))));
    }
    while i < page.blocks.len()
        invariant
            i <= page.blocks@.len(),
            fv == forest_view(page.blocks@),
            src == page.page_id@,
            fp == page.fingerprint,
            targeted_views(out@) == blocks_incoming(src, fp, flatten_forest(fv.take(i as int))),
        decreases page.blocks@.len() - i,
    {
        let blocks = page.blocks[i].walk_blocks();
        let ghost tree = flatten_tree(fv[i as int]);
        let ghost base = targeted_views(out@);
        proof {
            assert(fv[i as int] == block_view(page.blocks@[i as int]));
            assert(tree.take(0) =~= Seq::<BlockView>::empty());
            assert(base + blocks_incoming(src, fp, tree.take(0)) =~= base);
        }
        let mut j: usize = 0;
        while j < blocks.len()
            invariant
                j <= blocks@.len(),
                super::block::views_of(blocks@) == tree,
                src == page.page_id@,
                fp == page.fingerprint,
                targeted_views(out@) == base + blocks_incoming(src, fp, tree.take(j as int)),
            decreases blocks@.len() - j,
        {
            let b = blocks[j];
            let ghost bv = block_view(*b);
            let ghost mid = targeted_views(out@);
            proof {
                assert(tree[j as int] == bv);
                assert(bv.refs.take(0) =~= Seq::<RefView>::empty());
                assert(mid + block_incoming(src, fp, bv, bv.refs.take(0)) =~= mid);
            }
            let mut k: usize = 0;
            while k < b.outgoing_refs.len()
                invariant
                    k <= b.outgoing_refs@.len(),
                    bv == block_view(*b),
                    src == page.page_id@,
                    fp == page.fingerprint,
                    targeted_views(out@) == mid + block_incoming(src, fp, bv, bv.refs.take(k as int)),
                decreases b.outgoing_refs@.len() - k,
            {
                let r = &b.outgoing_refs[k];
                let x = TargetedRef {
                    target_page_id: r.target_page_id.duplicate(),
                    incoming_ref: IncomingRef::new(
                        page.page_id.duplicate(),
                        fp,
                        b.block_span,
                        r.ref_span,
                    ),
                };
                let ghost before = out@;
                out.push(x);
                proof {
                    SourceSpan::lemma_self_new(b.block_span);
                    SourceSpan::lemma_self_new(r.ref_span);
                    assert(bv.refs[k as int] == r@);
                    assert((x.target_page_id@, x.incoming_ref@) == incoming_of(src, fp, bv, r@));
                    assert(bv.refs.take(k + 1).drop_last() =~= bv.refs.take(k as int));
                    assert(targeted_views(out@) =~= targeted_views(before).push(
                        (x.target_page_id@, x.incoming_ref@),
                    ));
                }
                k = k + 1;
            }
            proof {
                assert(bv.refs.take(b.outgoing_refs@.len() as int) =~= bv.refs);
                assert(tree.take(j + 1).drop_last() =~= tree.take(j as int));
            }
            j = j + 1;
        }
        proof {
            assert(tree.take(blocks@.len() as int) =~= tree);
            assert(fv.take(i + 1) =~= fv.take(i as int).push(fv[i as int]));
            lemma_flatten_forest_push(fv.take(i as int), fv[i as int]);
            lemma_blocks_incoming_concat(src, fp, flatten_forest(fv.take(i as int)), tree);
        }
        i = i + 1;
    }
    proof {
        assert(fv.take(page.blocks@.len() as int) =~= fv);
    }
    out
}

/// The references of `refs` that target `t`.
fn refs_targeting(refs: &Vec<TargetedRef>, t: &PageId) -> (r: Vec<IncomingRef>)
    ensures
        incoming_views(r@) == targeting(targeted_views(refs@), t@),
{
    let ghost tv = targeted_views(refs@);
    let mut out: Vec<IncomingRef> = Vec::new();
    let mut i: usize = 0;
    proof {
        assert(tv.take(0) =~= Seq::<(PageIdView, IncomingRefView)>::empty());
        assert(incoming_views(out@) =~= Seq::<IncomingRefView>::empty());
    }
    while i < refs.len()
        invariant
            i <= refs@.len(),
            tv == targeted_views(refs@),
            incoming_views(out@) == targeting(tv.take(i as int), t@),
        decreases refs@.len() - i,
    {
        proof {
            assert(tv.take(i + 1).drop_last() =~= tv.take(i as int));
            assert(tv[i as int] == (refs@[i as int].target_page_id@, refs@[i as int].incoming_ref@));
        }
        if refs[i].target_page_id.same(t) {
            let ghost before = out@;
            out.push(refs[i].incoming_ref.duplicate());
            proof {
                assert(incoming_views(out@) =~= incoming_views(before).push(
                    refs@[i as int].incoming_ref@,
                ));
            }
        }
        i = i + 1;
    }
    proof {
        assert(tv.take(refs@.len() as int) =~= tv);
    }
    out
}

/// `refs` without those made by page `src`.
fn refs_without_source(refs: &Vec<IncomingRef>, src: &PageId) -> (r: Vec<IncomingRef>)
    ensures
        incoming_views(r@) == without_source(incoming_views(refs@), src@),
{
    let ghost iv = incoming_views(refs@);
    let mut out: Vec<IncomingRef> = Vec::new();
    let mut i: usize = 0;
    proof {
        assert(iv.take(0) =~= Seq::<IncomingRefView>::empty());
        assert(incoming_views(out@) =~= Seq::<IncomingRefView>::empty());
    }
    while i < refs.len()
        invariant
            i <= refs@.len(),
            iv == incoming_views(refs@),
            incoming_views(out@) == without_source(iv.take(i as int), src@),
        decreases refs@.len() - i,
    {
        proof {
            assert(iv.take(i + 1).drop_last() =~= iv.take(i as int));
        }
        if !refs[i].source_page_id.same(src) {
            let ghost before = out@;
            out.push(refs[i].duplicate());
            proof {
                assert(incoming_views(out@) =~= incoming_views(before).push(refs@[i as int]@));
            }
        }
        i = i + 1;
    }
    proof {
        assert(iv.take(refs@.len() as int) =~= iv);
    }
    out
}

/// The references to `t` made by the pages other than `excluded`, page after page.
fn refs_into_page(pages: &Vec<Page>, t: &PageId, excluded: &PageId) -> (r: Vec<IncomingRef>)
    ensures
        incoming_views(r@) == refs_into(pages@, t@, excluded@),
{
    let mut out: Vec<IncomingRef> = Vec::new();
    let mut i: usize = 0;
    proof {
        assert(pages@.take(0) =~= Seq::<Page>::empty());
        assert(incoming_views(out@) =~= Seq::<IncomingRefView>::empty());
    }
    while i < pages.len()
        invariant
            i <= pages@.len(),
            incoming_views(out@) == refs_into(pages@.take(i as int), t@, excluded@),
        decreases pages@.len() - i,
    {
        proof {
            assert(pages@.take(i + 1).drop_last() =~= pages@.take(i as int));
        }
        if !pages[i].page_id.same(excluded) {
            let all = incoming_refs_of_page(&pages[i]);
            let mut tg = refs_targeting(&all, t);
            let ghost before = out@;
            let ghost more = tg@;
            out.append(&mut tg);
            proof {
                assert(incoming_views(out@) =~= incoming_views(before) + incoming_views(more));
            }
        } else {
            proof {
                assert(refs_into(pages@.take(i + 1), t@, excluded@) =~= refs_into(
                    pages@.take(i as int),
                    t@,
                    excluded@,
                ) + Seq::<IncomingRefView>::empty());
            }
        }
        i = i + 1;
    }
    proof {
        assert(pages@.take(pages@.len() as int) =~= pages@);
    }
    out
}

/// The ids of the children of `parent` among `pages`, in order.
fn children_in(pages: &Vec<Page>, parent: &PageId) -> (r: Vec<PageId>)
    ensures
        id_views(r@) == children_of(ids_of(pages@), parent@),
{
    let ghost ids = ids_of(pages@);
    let mut out: Vec<PageId> = Vec::new();
    let mut i: usize = 0;
    proof {
        assert(ids.take(0) =~= Seq::<PageIdView>::empty());
        assert(id_views(out@) =~= Seq::<PageIdView>::empty());
    }
    while i < pages.len()
        invariant
            i <= pages@.len(),
            ids == ids_of(pages@),
            id_views(out@) == children_of(ids.take(i as int), parent@),
        decreases pages@.len() - i,
    {
        proof {
            assert(ids.take(i + 1).drop_last() =~= ids.take(i as int));
            assert(ids[i as int] == pages@[i as int].page_id@);
        }
        match pages[i].page_id.parent() {
            Some(p) => {
                if p.same(parent) {
                    let ghost before = out@;
                    out.push(pages[i].page_id.duplicate());
                    proof {
                        assert(id_views(out@) =~= id_views(before).push(pages@[i as int].page_id@));
                    }
                } else {
                    proof {
                        assert(id_views(out@) =~= id_views(out@) + Seq::<PageIdView>::empty());
                    }
                }
            },
            None => {
                proof {
                    assert(id_views(out@) =~= id_views(out@) + Seq::<PageIdView>::empty());
                }
            },
        }
        i = i + 1;
    }
    proof {
        assert(ids.take(pages@.len() as int) =~= ids);
    }
    out
}

/// The references to `t` made by all of `pages`, page after page.
fn refs_into_all(pages: &Vec<Page>, t: &PageId) -> (r: Vec<IncomingRef>)
    ensures
        incoming_views(r@) == all_refs_into(pages@, t@),
{
    let mut out: Vec<IncomingRef> = Vec::new();
    let mut i: usize = 0;
    proof {
        assert(pages@.take(0) =~= Seq::<Page>::empty());
        assert(incoming_views(out@) =~= Seq::<IncomingRefView>::empty());
    }
    while i < pages.len()
        invariant
            i <= pages@.len(),
            incoming_views(out@) == all_refs_into(pages@.take(i as int), t@),
        decreases pages@.len() - i,
    {
        proof {
            assert(pages@.take(i + 1).drop_last() =~= pages@.take(i as int));
        }
        let all = incoming_refs_of_page(&pages[i]);
        let mut tg = refs_targeting(&all, t);
        let ghost before = out@;
        let ghost more = tg@;
        out.append(&mut tg);
        proof {
            assert(incoming_views(out@) =~= incoming_views(before) + incoming_views(more));
        }
        i = i + 1;
    }
    proof {
        assert(pages@.take(pages@.len() as int) =~= pages@);
    }
    out
}

/// The position of the page with identity `id`, if any.
fn position_of(pages: &Vec<Page>, id: &PageId) -> (r: Option<usize>)
    ensures
        r matches Some(i) ==> i < pages@.len() && pages@[i as int].page_id@ == id@,
        r is None ==> !ids_of(pages@).contains(id@),
{
    let mut i: usize = 0;
    while i < pages.len()
        invariant
            i <= pages@.len(),
            forall|j: int| 0 <= j < i ==> pages@[j].page_id@ != id@,
        decreases pages@.len() - i,
    {
        if pages[i].page_id.same(id) {
            return Some(i);
        }
        i = i + 1;
    }
    proof {
        if ids_of(pages@).contains(id@) {
            let j = choose|j: int| 0 <= j < ids_of(pages@).len() && ids_of(pages@)[j] == id@;
            assert(pages@[j].page_id@ == id@);
        }
    }
    None
}

/// The first position whose identity comes after `id`.
fn insert_position(pages: &Vec<Page>, id: &PageId) -> (r: usize)
    ensures
        r <= pages@.len(),
        forall|j: int| 0 <= j < r ==> !id_lt(id@, #[trigger] pages@[j].page_id@),
        r < pages@.len() ==> id_lt(id@, pages@[r as int].page_id@),
{
    let mut i: usize = 0;
    while i < pages.len()
        invariant
            i <= pages@.len(),
            forall|j: int| 0 <= j < i ==> !id_lt(id@, #[trigger] pages@[j].page_id@),
        decreases pages@.len() - i,
    {
        if page_id_less(id, &pages[i].page_id) {
            return i;
        }
        i = i + 1;
    }
    i
}

/// Replaces the children of the page at `i` by its children among `pages`.
fn refresh_children_at(pages: &mut Vec<Page>, i: usize)
    requires
        i < old(pages)@.len(),
    ensures
        final(pages)@.len() == old(pages)@.len(),
        ids_of(final(pages)@) == ids_of(old(pages)@),
        forall|j: int| 0 <= j < old(pages)@.len() && j != i ==> #[trigger] final(pages)@[j] == old(pages)@[j],
        same_content(final(pages)@[i as int], old(pages)@[i as int]),
        final(pages)@[i as int].incoming_refs == old(pages)@[i as int].incoming_refs,
        id_views(final(pages)@[i as int].child_page_ids@) == children_of(
            ids_of(old(pages)@),
            old(pages)@[i as int].page_id@,
        ),
{
    let kids = children_in(pages, &pages[i].page_id);
    let ghost before = pages@;
    let mut q = pages.remove(i);
    q.child_page_ids = kids;
    pages.insert(i, q);
    proof {
        assert(pages@ =~= before.update(i as int, q));
        assert(ids_of(pages@) =~= ids_of(before));
    }
}

/// Inserting an id that is no child of `p` leaves the children of `p` as they were.
pub proof fn lemma_children_of_insert(ids: Seq<PageIdView>, k: int, x: PageIdView, p: PageIdView)
    requires
        0 <= k <= ids.len(),
        !is_child_of(x, p),
    ensures
        children_of(ids.insert(k, x), p) == children_of(ids, p),
{
    assert(ids.insert(k, x) =~= ids.take(k) + (seq![x] + ids.skip(k)));
    assert(ids =~= ids.take(k) + ids.skip(k));
    lemma_children_of_concat(ids.take(k), seq![x] + ids.skip(k), p);
    lemma_children_of_concat(seq![x], ids.skip(k), p);
    lemma_children_of_concat(ids.take(k), ids.skip(k), p);
    assert(seq![x].drop_last() =~= Seq::<PageIdView>::empty());
    assert(children_of(Seq::<PageIdView>::empty(), p) =~= Seq::<PageIdView>::empty());
    assert(children_of(seq![x], p) =~= Seq::<PageIdView>::empty());
    assert(children_of(seq![x], p) + children_of(ids.skip(k), p) =~= children_of(ids.skip(k), p));
}

/// Inserting `x` where `insert_position` puts it keeps identities increasing.
pub proof fn lemma_sorted_insert(ids: Seq<PageIdView>, k: int, x: PageIdView)
    requires
        sorted_ids(ids),
        0 <= k <= ids.len(),
        !ids.contains(x),
        forall|j: int| 0 <= j < k ==> !id_lt(x, #[trigger] ids[j]),
        k < ids.len() ==> id_lt(x, ids[k]),
    ensures
        sorted_ids(ids.insert(k, x)),
{
    let n = ids.insert(k, x);
    assert forall|i: int, j: int| 0 <= i < j < n.len() implies id_lt(#[trigger] n[i], #[trigger] n[j]) by {
        if i < k && j == k {
            assert(ids[i] != x);
            lemma_id_lt_order(ids[i], x, x);
        } else if i == k && j > k {
            if j - 1 > k {
                lemma_id_lt_order(x, ids[k], ids[j - 1]);
            }
        } else if i < k && j > k {
            assert(id_lt(ids[i], ids[j - 1]));
        } else if i > k {
            assert(id_lt(ids[i - 1], ids[j - 1]));
        } else {
            assert(id_lt(ids[i], ids[j]));
        }
    }
}

/// `t` is among `scope`, or there is no scope.
pub open spec fn in_scope(scope: Option<Seq<PageIdView>>, t: PageIdView) -> bool {
    match scope {
        None => true,
        Some(s) => s.contains(t),
    }
}

/// Page `p` makes a reference to `t`.
pub open spec fn refers_to(p: Page, t: PageIdView) -> bool {
    exists|i: int| 0 <= i < page_incoming(p).len() && (#[trigger] page_incoming(p)[i]).0 == t
}

/// The incoming references of `o` after the references made by `src` are dropped
/// (when `o` is in scope) and those in `new_refs` to `o` are appended.
pub open spec fn rewritten(
    o: Page,
    n: Page,
    src: PageIdView,
    scope: Option<Seq<PageIdView>>,
    new_refs: Seq<(PageIdView, IncomingRefView)>,
) -> bool {
    &&& same_content(n, o)
    &&& n.child_page_ids == o.child_page_ids
    &&& incoming_views(n.incoming_refs@) == (if in_scope(scope, o.page_id@) {
        without_source(incoming_views(o.incoming_refs@), src)
    } else {
        incoming_views(o.incoming_refs@)
    }) + targeting(new_refs, o.page_id@)
}

/// The identities of an optional scope.
pub open spec fn scope_view(scope: Option<&Vec<PageId>>) -> Option<Seq<PageIdView>> {
    match scope {
        None => None,
        Some(s) => Some(id_views(s@)),
    }
}

/// `ids` holds `t`.
pub(crate) fn holds_id(ids: &Vec<PageId>, t: &PageId) -> (r: bool)
    ensures
        r == id_views(ids@).contains(t@),
{
    let mut i: usize = 0;
    while i < ids.len()
        invariant
            i <= ids@.len(),
            forall|j: int| 0 <= j < i ==> ids@[j]@ != t@,
        decreases ids@.len() - i,
    {
        if ids[i].same(t) {
            assert(id_views(ids@)[i as int] == t@);
            return true;
        }
        i = i + 1;
    }
    proof {
        if id_views(ids@).contains(t@) {
            let j = choose|j: int| 0 <= j < id_views(ids@).len() && id_views(ids@)[j] == t@;
            assert(ids@[j]@ == t@);
        }
    }
    false
}

/// The pages with the references made by `src` dropped from those in `scope` (all
/// pages when there is no scope) and the references `new_refs` appended to their targets.
fn rewrite_incoming(
    pages: Vec<Page>,
    src: &PageId,
    scope: Option<&Vec<PageId>>,
    new_refs: &Vec<TargetedRef>,
) -> (r: Vec<Page>)
    ensures
        r@.len() == pages@.len(),
        forall|j: int|
            0 <= j < r@.len() ==> #[trigger] rewritten(
                pages@[j],
                r@[j],
                src@,
                scope_view(scope),
                targeted_views(new_refs@),
            ),
{
    let ghost old = pages@;
    let ghost sc = scope_view(scope);
    let ghost nr = targeted_views(new_refs@);
    let mut rev = reverse_vec(pages);
    let mut out: Vec<Page> = Vec::new();
    while rev.len() > 0
        invariant
            rev@.len() + out@.len() == old.len(),
            forall|m: int| 0 <= m < rev@.len() ==> #[trigger] rev@[m] == old[old.len() - 1 - m],
            forall|j: int| 0 <= j < out@.len() ==> #[trigger] rewritten(old[j], out@[j], src@, sc, nr),
            sc == scope_view(scope),
            nr == targeted_views(new_refs@),
        decreases rev@.len(),
    {
        let mut q = rev.pop().unwrap();
        let ghost j = out@.len() as int;
        assert(q == old[j]);
        let touched = match scope {
            None => true,
            Some(s) => holds_id(s, &q.page_id),
        };
        let mut kept = if touched {
            refs_without_source(&q.incoming_refs, src)
        } else {
            duplicate_incoming(&q.incoming_refs)
        };
        let mut added = refs_targeting(new_refs, &q.page_id);
        let ghost kv = incoming_views(kept@) + incoming_views(added@);
        kept.append(&mut added);
        q.incoming_refs = kept;
        proof {
            assert(incoming_views(q.incoming_refs@) =~= kv);
        }
        out.push(q);
    }
    out
}

/// Copies of the references.
fn duplicate_incoming(refs: &Vec<IncomingRef>) -> (r: Vec<IncomingRef>)
    ensures
        incoming_views(r@) == incoming_views(refs@),
{
    let mut out: Vec<IncomingRef> = Vec::new();
    let mut i: usize = 0;
    while i < refs.len()
        invariant
            i <= refs@.len(),
            incoming_views(out@) == incoming_views(refs@).take(i as int),
        decreases refs@.len() - i,
    {
        let ghost before = out@;
        out.push(refs[i].duplicate());
        proof {
            assert(incoming_views(out@) =~= incoming_views(before).push(refs@[i as int]@));
            assert(incoming_views(refs@).take(i + 1) =~= incoming_views(refs@).take(i as int).push(
                refs@[i as int]@,
            ));
        }
        i = i + 1;
    }
    assert(incoming_views(refs@).take(refs@.len() as int) =~= incoming_views(refs@));
    out
}

/// The target ids of references, in order.
fn target_ids(refs: &Vec<TargetedRef>) -> (r: Vec<PageId>)
    ensures
        forall|t: PageIdView|
            id_views(r@).contains(t) <==> exists|i: int|
                0 <= i < refs@.len() && (#[trigger] targeted_views(refs@)[i]).0 == t,
{
    let mut out: Vec<PageId> = Vec::new();
    let mut i: usize = 0;
    while i < refs.len()
        invariant
            i <= refs@.len(),
            out@.len() == i,
            forall|j: int| 0 <= j < i ==> (#[trigger] out@[j])@ == refs@[j].target_page_id@,
        decreases refs@.len() - i,
    {
        out.push(refs[i].target_page_id.duplicate());
        i = i + 1;
    }
    proof {
        assert forall|t: PageIdView|
            id_views(out@).contains(t) <==> exists|i: int|
                0 <= i < refs@.len() && (#[trigger] targeted_views(refs@)[i]).0 == t by {
            if id_views(out@).contains(t) {
                let j = choose|j: int| 0 <= j < id_views(out@).len() && id_views(out@)[j] == t;
                assert(targeted_views(refs@)[j].0 == t);
            }
            if exists|i: int| 0 <= i < refs@.len() && (#[trigger] targeted_views(refs@)[i]).0 == t {
                let j = choose|i: int|
                    0 <= i < refs@.len() && (#[trigger] targeted_views(refs@)[i]).0 == t;
                assert(id_views(out@)[j] == t);
            }
        }
    }
    out
}

/// What `refresh_page_content` makes of a page `o` when page `src_old` is replaced by
/// a version whose references are `new_refs`: references made by `src_old` are
/// dropped from the pages it referred to, and the new references appended.
pub open spec fn refreshed_page(o: Page, n: Page, src_old: Page, new_refs: Seq<(PageIdView, IncomingRefView)>) -> bool {
    &&& n.child_page_ids == o.child_page_ids
    &&& incoming_views(n.incoming_refs@) == (if refers_to(src_old, o.page_id@) {
        without_source(incoming_views(o.incoming_refs@), src_old.page_id@)
    } else {
        incoming_views(o.incoming_refs@)
    }) + targeting(new_refs, o.page_id@)
}

/// What `refresh_page_content` makes of the pages `old` when it stores `p` over the
/// existing page `e`: the identities stay; `p` takes `e`'s children and incoming
/// references; every page then loses the references `e` made to it and gains those
/// `p` makes.
pub open spec fn refreshed(old: Seq<Page>, new: Seq<Page>, p: Page, e: Page) -> bool {
    let id = p.page_id@;
    &&& ids_of(new) == ids_of(old)
    &&& lookup(new, id) matches Some(q) && same_content(q, p) && refreshed_page(e, q, e, page_incoming(p))
    &&& forall|t: PageIdView|
        #![trigger lookup(new, t)]
        t != id && ids_of(old).contains(t) ==> (lookup(new, t) matches Some(n) && lookup(
            old,
            t,
        ) matches Some(o) && same_content(n, o) && refreshed_page(o, n, e, page_incoming(p)))
}

/// What `remove_page` makes of the pages `old` when it removes `id`, and what it
/// returns: the identity leaves; the removed page and every other page lose the
/// references made by `id`.
pub open spec fn removed(old: Seq<Page>, new: Seq<Page>, id: PageIdView, r: Option<Page>) -> bool {
    &&& forall|t: PageIdView| ids_of(new).contains(t) <==> (ids_of(old).contains(t) && t != id)
    &&& (r is Some <==> ids_of(old).contains(id))
    &&& r matches Some(q) ==> (lookup(old, id) matches Some(o) && same_content(q, o)
        && q.child_page_ids == o.child_page_ids && incoming_views(q.incoming_refs@)
        == without_source(incoming_views(o.incoming_refs@), id))
    &&& forall|t: PageIdView|
        #![trigger lookup(new, t)]
        t != id && ids_of(old).contains(t) ==> (lookup(new, t) matches Some(n) && lookup(
            old,
            t,
        ) matches Some(o) && same_content(n, o) && incoming_views(n.incoming_refs@)
            == without_source(incoming_views(o.incoming_refs@), id))
}

/// Removing an id that is no child of `p` leaves the children of `p` as they were.
pub proof fn lemma_children_of_remove(ids: Seq<PageIdView>, k: int, p: PageIdView)
    requires
        0 <= k < ids.len(),
        !is_child_of(ids[k], p),
    ensures
        children_of(ids.remove(k), p) == children_of(ids, p),
{
    lemma_children_of_insert(ids.remove(k), k, ids[k], p);
    assert(ids.remove(k).insert(k, ids[k]) =~= ids);
}

/// Removing an identity keeps identities increasing.
pub proof fn lemma_sorted_remove(ids: Seq<PageIdView>, k: int)
    requires
        sorted_ids(ids),
        0 <= k < ids.len(),
    ensures
        sorted_ids(ids.remove(k)),
{
    let n = ids.remove(k);
    assert forall|i: int, j: int| 0 <= i < j < n.len() implies id_lt(#[trigger] n[i], #[trigger] n[j]) by {
        let ii = if i < k {
            i
        } else {
            i + 1
        };
        let jj = if j < k {
            j
        } else {
            j + 1
        };
        assert(id_lt(ids[ii], ids[jj]));
    }
}

/// A page as `reparse_and_upsert_page_markdown` builds it from an id and a text.
pub open spec fn parsed_page(p: Page, id: PageIdView, text: Seq<char>) -> bool {
    &&& p.page_id@ == id
    &&& p.location@ == id.location
    &&& p.title@ == id.segments.last()
    &&& p.workspace_path@ == workspace_path_view(id)
    &&& p.text@ == text
    &&& forest_view(p.blocks@) == parse_spec(text)
    &&& p.fingerprint@ == fingerprint_of(utf8_of(text))
}

/// `t` is a proper page-backed ancestor of `v`.
pub open spec fn below(v: PageIdView, t: PageIdView) -> bool {
    v.location is Pages && exists|k: int| 1 <= k < v.segments.len() && t == #[trigger] ancestor_view(v, k)
}

/// Some page among the first `n` lies below `t`.
pub open spec fn below_some(pages: Seq<Page>, n: int, t: PageIdView) -> bool {
    exists|i: int| 0 <= i < n && #[trigger] below(pages[i].page_id@, t)
}

/// `t` is one of the first `n` ids.
pub open spec fn among_first(ids: Seq<PageId>, n: int, t: PageIdView) -> bool {
    exists|j: int| 0 <= j < n && #[trigger] ids[j]@ == t
}

/// `t` is a missing ancestor: some cached page lies below it, and no cached page has
/// its identity.
pub open spec fn missing_parent(pages: Seq<Page>, t: PageIdView) -> bool {
    &&& !ids_of(pages).contains(t)
    &&& exists|i: int| 0 <= i < pages.len() && #[trigger] below(pages[i].page_id@, t)
}

/// Inserts `id` into the increasing ids unless it is there already.
pub(crate) fn insert_sorted_id(ids: &mut Vec<PageId>, id: PageId)
    requires
        sorted_ids(id_views(old(ids)@)),
    ensures
        sorted_ids(id_views(final(ids)@)),
        forall|t: PageIdView| id_views(final(ids)@).contains(t) <==> (id_views(old(ids)@).contains(t) || t == id@),
{
    if holds_id(ids, &id) {
        return;
    }
    let ghost before = id_views(ids@);
    let mut k: usize = 0;
    while k < ids.len() && !page_id_less(&id, &ids[k])
        invariant
            k <= ids@.len(),
            before == id_views(ids@),
            forall|j: int| 0 <= j < k ==> !id_lt(id@, #[trigger] before[j]),
        decreases ids@.len() - k,
    {
        k = k + 1;
    }
    let ghost idv = id@;
    ids.insert(k, id);
    proof {
        assert(id_views(ids@) =~= before.insert(k as int, idv));
        lemma_sorted_insert(before, k as int, idv);
        assert forall|t: PageIdView| id_views(ids@).contains(t) <==> (before.contains(t) || t == idv) by {
            let ins = before.insert(k as int, idv);
            assert(ins[k as int] == idv);
            if before.contains(t) {
                let j = choose|j: int| 0 <= j < before.len() && before[j] == t;
                if j < k {
                    assert(ins[j] == t);
                } else {
                    assert(ins[j + 1] == t);
                }
            }
            if ins.contains(t) {
                let j = choose|j: int| 0 <= j < ins.len() && ins[j] == t;
                if j < k {
                    assert(before[j] == t);
                } else if j > k {
                    assert(before[j - 1] == t);
                }
            }
        }
    }
}

/// The references to `t` made by all of `pages`, page after page.
pub open spec fn all_refs_into(pages: Seq<Page>, t: PageIdView) -> Seq<IncomingRefView>
    decreases pages.len(),
{
    if pages.len() == 0 {
        seq![]
    } else {
        all_refs_into(pages.drop_last(), t) + targeting(page_incoming(pages.last()), t)
    }
}

/// Pages with the same content make the same references.
pub proof fn lemma_all_refs_into_content(a: Seq<Page>, b: Seq<Page>, t: PageIdView)
    requires
        a.len() == b.len(),
        forall|i: int| 0 <= i < a.len() ==> #[trigger] same_content(a[i], b[i]),
    ensures
        all_refs_into(a, t) == all_refs_into(b, t),
    decreases a.len(),
{
    if a.len() > 0 {
        assert forall|i: int| 0 <= i < a.drop_last().len() implies #[trigger] same_content(
            a.drop_last()[i],
            b.drop_last()[i],
        ) by {
            assert(same_content(a[i], b[i]));
        }
        lemma_all_refs_into_content(a.drop_last(), b.drop_last(), t);
        assert(same_content(a[a.len() - 1], b[b.len() - 1]));
    }
}

/// Lookups in a sorted sequence after an element is inserted where it keeps it sorted.
pub proof fn lemma_lookup_insert(list: Seq<Page>, k: int, x: Page)
    requires
        0 <= k <= list.len(),
        sorted_ids(ids_of(list)),
        sorted_ids(ids_of(list.insert(k, x))),
    ensures
        lookup(list.insert(k, x), x.page_id@) == Some(x),
        forall|t: PageIdView|
            t != x.page_id@ ==> #[trigger] lookup(list.insert(k, x), t) == lookup(list, t),
{
    let n = list.insert(k, x);
    assert(n[k] == x);
    lemma_lookup_at(n, k);
    assert forall|t: PageIdView| t != x.page_id@ implies #[trigger] lookup(n, t) == lookup(list, t) by {
        if ids_of(list).contains(t) {
            let j = choose|j: int| 0 <= j < ids_of(list).len() && ids_of(list)[j] == t;
            lemma_lookup_at(list, j);
            let jn = if j < k {
                j
            } else {
                j + 1
            };
            assert(n[jn] == list[j]);
            lemma_lookup_at(n, jn);
        } else {
            lemma_lookup_none(list, t);
            assert(!ids_of(n).contains(t)) by {
                if ids_of(n).contains(t) {
                    let j = choose|j: int| 0 <= j < ids_of(n).len() && ids_of(n)[j] == t;
                    if j < k {
                        assert(ids_of(list)[j] == t);
                    } else if j > k {
                        assert(ids_of(list)[j - 1] == t);
                    }
                }
            }
            lemma_lookup_none(n, t);
        }
    }
}

/// Lookups in a sorted sequence after an element is replaced by one with its identity.
pub proof fn lemma_lookup_update(list: Seq<Page>, k: int, x: Page)
    requires
        0 <= k < list.len(),
        sorted_ids(ids_of(list)),
        list[k].page_id@ == x.page_id@,
    ensures
        ids_of(list.update(k, x)) == ids_of(list),
        lookup(list.update(k, x), x.page_id@) == Some(x),
        forall|t: PageIdView|
            t != x.page_id@ ==> #[trigger] lookup(list.update(k, x), t) == lookup(list, t),
{
    let n = list.update(k, x);
    assert(ids_of(n) =~= ids_of(list));
    lemma_lookup_at(n, k);
    assert forall|t: PageIdView| t != x.page_id@ implies #[trigger] lookup(n, t) == lookup(list, t) by {
        if ids_of(list).contains(t) {
            let j = choose|j: int| 0 <= j < ids_of(list).len() && ids_of(list)[j] == t;
            lemma_lookup_at(list, j);
            assert(n[j] == list[j]);
            lemma_lookup_at(n, j);
        } else {
            lemma_lookup_none(list, t);
            lemma_lookup_none(n, t);
        }
    }
}

// ---------------------------------------------------------------------------
// Incoming references and the references pages make
// ---------------------------------------------------------------------------

/// Each page's incoming references are, as a multiset, exactly the references that
/// the cached pages make to it.
pub open spec fn refs_consistent(pages: Seq<Page>) -> bool {
    forall|i: int|
        0 <= i < pages.len() ==> (#[trigger] incoming_views(pages[i].incoming_refs@)).to_multiset()
            == all_refs_into(pages, pages[i].page_id@).to_multiset()
}

proof fn lemma_block_incoming_source(src: PageIdView, fp: FileFingerprint, b: BlockView, refs: Seq<RefView>)
    ensures
        forall|i: int|
            0 <= i < block_incoming(src, fp, b, refs).len() ==> (#[trigger] block_incoming(src, fp, b, refs)[i]).1.source == src,
    decreases refs.len(),
{
    if refs.len() > 0 {
        lemma_block_incoming_source(src, fp, b, refs.drop_last());
    }
}

proof fn lemma_blocks_incoming_source(src: PageIdView, fp: FileFingerprint, s: Seq<BlockView>)
    ensures
        forall|i: int|
            0 <= i < blocks_incoming(src, fp, s).len() ==> (#[trigger] blocks_incoming(src, fp, s)[i]).1.source == src,
    decreases s.len(),
{
    if s.len() > 0 {
        lemma_blocks_incoming_source(src, fp, s.drop_last());
        lemma_block_incoming_source(src, fp, s.last(), s.last().refs);
        let a = blocks_incoming(src, fp, s.drop_last());
        let b = block_incoming(src, fp, s.last(), s.last().refs);
        assert forall|i: int| 0 <= i < (a + b).len() implies (#[trigger] (a + b)[i]).1.source == src by {
            if i < a.len() {
                assert((a + b)[i] == a[i]);
            } else {
                assert((a + b)[i] == b[i - a.len()]);
            }
        }
    }
}

proof fn lemma_targeting_source(s: Seq<(PageIdView, IncomingRefView)>, t: PageIdView, src: PageIdView)
    requires
        forall|i: int| 0 <= i < s.len() ==> (#[trigger] s[i]).1.source == src,
    ensures
        forall|i: int| 0 <= i < targeting(s, t).len() ==> (#[trigger] targeting(s, t)[i]).source == src,
    decreases s.len(),
{
    if s.len() > 0 {
        assert forall|i: int| 0 <= i < s.drop_last().len() implies (#[trigger] s.drop_last()[i]).1.source == src by {
            assert(s.drop_last()[i] == s[i]);
        }
        lemma_targeting_source(s.drop_last(), t, src);
        let a = targeting(s.drop_last(), t);
        let b: Seq<IncomingRefView> = if s.last().0 == t {
            seq![s.last().1]
        } else {
            seq![]
        };
        assert forall|i: int| 0 <= i < (a + b).len() implies (#[trigger] (a + b)[i]).source == src by {
            if i < a.len() {
                assert((a + b)[i] == a[i]);
            } else {
                assert((a + b)[i] == b[i - a.len()]);
            }
        }
    }
}

/// The references of page `p` to `t` are all made by `p`.
proof fn lemma_page_targeting_source(p: Page, t: PageIdView)
    ensures
        forall|i: int|
            0 <= i < targeting(page_incoming(p), t).len() ==> (#[trigger] targeting(page_incoming(p), t)[i]).source
                == p.page_id@,
{
    lemma_blocks_incoming_source(p.page_id@, p.fingerprint, flatten_forest(forest_view(p.blocks@)));
    lemma_targeting_source(page_incoming(p), t, p.page_id@);
}

proof fn lemma_without_source_concat(a: Seq<IncomingRefView>, b: Seq<IncomingRefView>, src: PageIdView)
    ensures
        without_source(a + b, src) == without_source(a, src) + without_source(b, src),
    decreases b.len(),
{
    if b.len() == 0 {
        assert(a + b =~= a);
        assert(without_source(a, src) + without_source(b, src) =~= without_source(a, src));
    } else {
        assert((a + b).drop_last() =~= a + b.drop_last());
        lemma_without_source_concat(a, b.drop_last(), src);
        assert(without_source(a + b, src) =~= without_source(a, src) + without_source(b, src));
    }
}

proof fn lemma_without_source_uniform(s: Seq<IncomingRefView>, src: PageIdView, owner: PageIdView)
    requires
        forall|i: int| 0 <= i < s.len() ==> (#[trigger] s[i]).source == owner,
    ensures
        owner == src ==> without_source(s, src) == Seq::<IncomingRefView>::empty(),
        owner != src ==> without_source(s, src) == s,
    decreases s.len(),
{
    if s.len() > 0 {
        assert forall|i: int| 0 <= i < s.drop_last().len() implies (#[trigger] s.drop_last()[i]).source == owner by {
            assert(s.drop_last()[i] == s[i]);
        }
        lemma_without_source_uniform(s.drop_last(), src, owner);
        assert(s.last() == s[s.len() - 1]);
        if owner == src {
            assert(without_source(s, src) =~= Seq::<IncomingRefView>::empty());
        } else {
            assert(without_source(s, src) =~= s.drop_last().push(s.last()));
            assert(s.drop_last().push(s.last()) =~= s);
        }
    }
}

/// Dropping the references of `id` from all references leaves those of the other pages.
proof fn lemma_without_source_all(pages: Seq<Page>, t: PageIdView, id: PageIdView)
    ensures
        without_source(all_refs_into(pages, t), id) == refs_into(pages, t, id),
    decreases pages.len(),
{
    if pages.len() > 0 {
        lemma_without_source_all(pages.drop_last(), t, id);
        let x = pages.last();
        lemma_without_source_concat(all_refs_into(pages.drop_last(), t), targeting(page_incoming(x), t), id);
        lemma_page_targeting_source(x, t);
        lemma_without_source_uniform(targeting(page_incoming(x), t), id, x.page_id@);
        if x.page_id@ == id {
            assert(refs_into(pages, t, id) =~= refs_into(pages.drop_last(), t, id) + Seq::<IncomingRefView>::empty());
        }
    }
}

proof fn lemma_without_source_count(x: Seq<IncomingRefView>, id: PageIdView, e: IncomingRefView)
    ensures
        without_source(x, id).to_multiset().count(e) == (if e.source == id {
            0
        } else {
            x.to_multiset().count(e)
        }),
    decreases x.len(),
{
    broadcast use vstd::seq_lib::group_to_multiset_ensures;

    if x.len() == 0 {
        assert(without_source(x, id) =~= Seq::<IncomingRefView>::empty());
    } else {
        lemma_without_source_count(x.drop_last(), id, e);
        assert(x =~= x.drop_last().push(x.last()));
        if x.last().source == id {
            assert(without_source(x, id) =~= without_source(x.drop_last(), id));
        } else {
            assert(without_source(x, id) =~= without_source(x.drop_last(), id).push(x.last()));
        }
    }
}

/// Dropping the references of one page respects multiset equality.
proof fn lemma_without_source_multiset(x: Seq<IncomingRefView>, y: Seq<IncomingRefView>, id: PageIdView)
    requires
        x.to_multiset() == y.to_multiset(),
    ensures
        without_source(x, id).to_multiset() == without_source(y, id).to_multiset(),
{
    assert forall|e: IncomingRefView| #[trigger] without_source(x, id).to_multiset().count(e)
        == without_source(y, id).to_multiset().count(e) by {
        lemma_without_source_count(x, id, e);
        lemma_without_source_count(y, id, e);
    }
    assert(without_source(x, id).to_multiset() =~= without_source(y, id).to_multiset());
}

proof fn lemma_all_refs_into_concat(a: Seq<Page>, b: Seq<Page>, t: PageIdView)
    ensures
        all_refs_into(a + b, t) == all_refs_into(a, t) + all_refs_into(b, t),
    decreases b.len(),
{
    if b.len() == 0 {
        assert(a + b =~= a);
        assert(all_refs_into(a, t) + all_refs_into(b, t) =~= all_refs_into(a, t));
    } else {
        assert((a + b).drop_last() =~= a + b.drop_last());
        lemma_all_refs_into_concat(a, b.drop_last(), t);
        assert(all_refs_into(a + b, t) =~= all_refs_into(a, t) + all_refs_into(b, t));
    }
}

proof fn lemma_refs_into_concat(a: Seq<Page>, b: Seq<Page>, t: PageIdView, id: PageIdView)
    ensures
        refs_into(a + b, t, id) == refs_into(a, t, id) + refs_into(b, t, id),
    decreases b.len(),
{
    if b.len() == 0 {
        assert(a + b =~= a);
        assert(refs_into(a, t, id) + refs_into(b, t, id) =~= refs_into(a, t, id));
    } else {
        assert((a + b).drop_last() =~= a + b.drop_last());
        lemma_refs_into_concat(a, b.drop_last(), t, id);
        assert(refs_into(a + b, t, id) =~= refs_into(a, t, id) + refs_into(b, t, id));
    }
}

proof fn lemma_all_refs_into_single(x: Page, t: PageIdView)
    ensures
        all_refs_into(seq![x], t) == targeting(page_incoming(x), t),
{
    assert(seq![x].drop_last() =~= Seq::<Page>::empty());
    assert(seq![x].last() == x);
    assert(all_refs_into(Seq::<Page>::empty(), t) =~= Seq::<IncomingRefView>::empty());
    assert(all_refs_into(seq![x], t) =~= Seq::<IncomingRefView>::empty() + targeting(page_incoming(x), t));
}

/// Without a page `id`, excluding `id` changes nothing.
proof fn lemma_refs_into_absent(pages: Seq<Page>, t: PageIdView, id: PageIdView)
    requires
        !ids_of(pages).contains(id),
    ensures
        refs_into(pages, t, id) == all_refs_into(pages, t),
    decreases pages.len(),
{
    if pages.len() > 0 {
        assert(ids_of(pages)[pages.len() - 1] == pages.last().page_id@);
        assert(!ids_of(pages.drop_last()).contains(id)) by {
            if ids_of(pages.drop_last()).contains(id) {
                let j = choose|j: int| 0 <= j < ids_of(pages.drop_last()).len() && ids_of(pages.drop_last())[j] == id;
                assert(ids_of(pages)[j] == id);
            }
        }
        lemma_refs_into_absent(pages.drop_last(), t, id);
    }
}

/// The references of the pages with one page replaced, as a multiset.
proof fn lemma_all_refs_update(pages: Seq<Page>, k: int, x: Page, t: PageIdView)
    requires
        0 <= k < pages.len(),
        sorted_ids(ids_of(pages)),
        pages[k].page_id@ == x.page_id@,
    ensures
        all_refs_into(pages.update(k, x), t).to_multiset() == refs_into(pages, t, x.page_id@).to_multiset().add(
            targeting(page_incoming(x), t).to_multiset(),
        ),
{
    broadcast use vstd::seq_lib::lemma_multiset_commutative;

    let id = x.page_id@;
    let a = pages.take(k);
    let b = pages.skip(k + 1);
    assert(pages =~= a + (seq![pages[k]] + b));
    assert(pages.update(k, x) =~= a + (seq![x] + b));
    lemma_all_refs_into_concat(a, seq![x] + b, t);
    lemma_all_refs_into_concat(seq![x], b, t);
    lemma_all_refs_into_single(x, t);
    lemma_refs_into_concat(a, seq![pages[k]] + b, t, id);
    lemma_refs_into_concat(seq![pages[k]], b, t, id);
    assert(seq![pages[k]].drop_last() =~= Seq::<Page>::empty());
    assert(seq![pages[k]].last() == pages[k]);
    assert(refs_into(Seq::<Page>::empty(), t, id) =~= Seq::<IncomingRefView>::empty());
    assert(refs_into(seq![pages[k]], t, id) =~= Seq::<IncomingRefView>::empty());
    assert(!ids_of(a).contains(id)) by {
        if ids_of(a).contains(id) {
            let j = choose|j: int| 0 <= j < ids_of(a).len() && ids_of(a)[j] == id;
            assert(ids_of(pages)[j] == id && ids_of(pages)[k] == id);
            assert(id_lt(ids_of(pages)[j], ids_of(pages)[k]));
            lemma_id_lt_order(id, id, id);
        }
    }
    assert(!ids_of(b).contains(id)) by {
        if ids_of(b).contains(id) {
            let j = choose|j: int| 0 <= j < ids_of(b).len() && ids_of(b)[j] == id;
            assert(ids_of(pages)[k + 1 + j] == id && ids_of(pages)[k] == id);
            assert(id_lt(ids_of(pages)[k], ids_of(pages)[k + 1 + j]));
            lemma_id_lt_order(id, id, id);
        }
    }
    lemma_refs_into_absent(a, t, id);
    lemma_refs_into_absent(b, t, id);
    let ra = all_refs_into(a, t);
    let rb = all_refs_into(b, t);
    let rx = targeting(page_incoming(x), t);
    assert(refs_into(pages, t, id) =~= ra + (Seq::<IncomingRefView>::empty() + rb));
    assert(Seq::<IncomingRefView>::empty() + rb =~= rb);
    assert(all_refs_into(pages.update(k, x), t) == ra + (rx + rb));
    assert((ra + (rx + rb)).to_multiset() =~= (ra + rb).to_multiset().add(rx.to_multiset()));
}

/// The references of the pages with one page inserted, as a multiset.
proof fn lemma_all_refs_insert(pages: Seq<Page>, k: int, x: Page, t: PageIdView)
    requires
        0 <= k <= pages.len(),
        !ids_of(pages).contains(x.page_id@),
    ensures
        all_refs_into(pages.insert(k, x), t).to_multiset() == refs_into(pages, t, x.page_id@).to_multiset().add(
            targeting(page_incoming(x), t).to_multiset(),
        ),
{
    broadcast use vstd::seq_lib::lemma_multiset_commutative;

    let a = pages.take(k);
    let b = pages.skip(k);
    assert(pages =~= a + b);
    assert(pages.insert(k, x) =~= a + (seq![x] + b));
    lemma_all_refs_into_concat(a, seq![x] + b, t);
    lemma_all_refs_into_concat(seq![x], b, t);
    lemma_all_refs_into_single(x, t);
    lemma_all_refs_into_concat(a, b, t);
    lemma_refs_into_absent(pages, t, x.page_id@);
    let ra = all_refs_into(a, t);
    let rb = all_refs_into(b, t);
    let rx = targeting(page_incoming(x), t);
    assert((ra + (rx + rb)).to_multiset() =~= (ra + rb).to_multiset().add(rx.to_multiset()));
}

/// The pages `upsert_page` builds meet the cache's invariant and `upserted`.
proof fn lemma_upsert_result(
    old: Seq<Page>,
    bp: Seq<Page>,
    placed: Seq<Page>,
    after_first: Seq<Page>,
    fin: Seq<Page>,
    np: Page,
    page: Page,
    pos: int,
    parent_pos: Option<usize>,
    nr: Seq<(PageIdView, IncomingRefView)>,
)
    requires
        sorted_ids(ids_of(old)),
        hierarchy_ok(old),
        bp.len() == old.len(),
        forall|j: int| 0 <= j < bp.len() ==> #[trigger] refreshed_other(old[j], bp[j], page.page_id@, nr),
        forall|j: int| 0 <= j < bp.len() ==> (#[trigger] bp[j]).child_page_ids == old[j].child_page_ids,
        nr == page_incoming(page),
        np.page_id@ == page.page_id@,
        same_content(np, page),
        incoming_views(np.incoming_refs@) == refs_into(old, page.page_id@, page.page_id@) + targeting(
            nr,
            page.page_id@,
        ),
        ids_of(old).contains(page.page_id@) ==> (0 <= pos < bp.len() && bp[pos].page_id@
            == page.page_id@ && placed == bp.update(pos, np)),
        !ids_of(old).contains(page.page_id@) ==> (0 <= pos <= bp.len() && placed == bp.insert(pos, np)
            && sorted_ids(ids_of(placed))),
        after_first.len() == placed.len(),
        ids_of(after_first) == ids_of(placed),
        forall|j: int| 0 <= j < placed.len() && j != pos ==> #[trigger] after_first[j] == placed[j],
        same_content(after_first[pos], placed[pos]),
        after_first[pos].incoming_refs == placed[pos].incoming_refs,
        id_views(after_first[pos].child_page_ids@) == children_of(ids_of(placed), placed[pos].page_id@),
        parent_pos is None ==> fin == after_first,
        parent_pos is None ==> (!has_parent(page.page_id@) || !ids_of(after_first).contains(
            parent_view(page.page_id@),
        )),
        parent_pos matches Some(pj) ==> {
            &&& pj < after_first.len()
            &&& has_parent(page.page_id@)
            &&& after_first[pj as int].page_id@ == parent_view(page.page_id@)
            &&& fin.len() == after_first.len()
            &&& ids_of(fin) == ids_of(after_first)
            &&& forall|j: int| 0 <= j < after_first.len() && j != pj ==> #[trigger] fin[j] == after_first[j]
            &&& same_content(fin[pj as int], after_first[pj as int])
            &&& fin[pj as int].incoming_refs == after_first[pj as int].incoming_refs
            &&& id_views(fin[pj as int].child_page_ids@) == children_of(
                ids_of(after_first),
                after_first[pj as int].page_id@,
            )
        },
    ensures
        sorted_ids(ids_of(fin)),
        hierarchy_ok(fin),
        upserted(old, fin, page),
        forall|t: PageIdView| #[trigger] all_refs_into(fin, t).to_multiset() == refs_into(old, t, page.page_id@).to_multiset().add(
            targeting(page_incoming(page), t).to_multiset(),
        ),
{
    let id_v = page.page_id@;
    let contained = ids_of(old).contains(id_v);
    assert(ids_of(bp) =~= ids_of(old)) by {
        assert forall|j: int| 0 <= j < bp.len() implies #[trigger] ids_of(bp)[j] == ids_of(old)[j] by {
            assert(refreshed_other(old[j], bp[j], id_v, nr));
        }
    }
    if contained {
        assert(ids_of(placed) =~= ids_of(bp));
    } else {
        assert(ids_of(placed) =~= ids_of(old).insert(pos, id_v));
    }
    assert(placed[pos] == np);
    assert(ids_of(fin) == ids_of(placed));
    assert(fin.len() == placed.len());
    // where the parent sits, if anywhere
    if let Some(pj) = parent_pos {
        assert(pj != pos) by {
            assert(after_first[pos].page_id@ == id_v);
            assert(parent_view(id_v).segments.len() != id_v.segments.len());
        }
    }
    // the stored page
    assert(same_content(fin[pos], np) && fin[pos].incoming_refs == np.incoming_refs) by {
        if let Some(pj) = parent_pos {
            assert(fin[pos] == after_first[pos]);
        }
    }
    assert(fin[pos].page_id@ == id_v);
    lemma_lookup_at(fin, pos);
    // children of every page
    assert forall|x: int| 0 <= x < fin.len() implies id_views(#[trigger] fin[x].child_page_ids@)
        == children_of(ids_of(fin), fin[x].page_id@) by {
        let t = fin[x].page_id@;
        if x == pos {
            assert(fin[x].child_page_ids == after_first[x].child_page_ids && fin[x].page_id
                == after_first[x].page_id) by {
                if let Some(pj) = parent_pos {
                    assert(fin[x] == after_first[x]);
                }
            }
            assert(after_first[x].page_id == placed[x].page_id);
        } else if parent_pos matches Some(pj) && pj == x {
            assert(fin[x].page_id == after_first[x].page_id);
        } else {
            if let Some(pj) = parent_pos {
                assert(fin[x] == after_first[x]);
            }
            assert(fin[x] == placed[x]);
            let xo = if contained || x < pos {
                x
            } else {
                x - 1
            };
            assert(placed[x] == bp[xo]);
            assert(old[xo].page_id@ == t);
            assert(id_views(old[xo].child_page_ids@) == children_of(ids_of(old), t));
            if !contained {
                if is_child_of(id_v, t) {
                    assert(ids_of(fin)[x] == t);
                    assert(ids_of(after_first)[x] == t);
                    lemma_id_lt_order(t, t, t);
                    if let Some(pj) = parent_pos {
                        assert(ids_of(fin)[pj as int] == t);
                        if x < pj {
                            assert(id_lt(ids_of(fin)[x], ids_of(fin)[pj as int]));
                        } else {
                            assert(id_lt(ids_of(fin)[pj as int], ids_of(fin)[x]));
                        }
                    }
                }
                lemma_children_of_insert(ids_of(old), pos, id_v, t);
            }
        }
    }
    // the identities
    assert forall|t: PageIdView| ids_of(fin).contains(t) <==> (ids_of(old).contains(t) || t
        == id_v) by {
        if contained {
            if t == id_v {
            }
        } else {
            let ins = ids_of(old).insert(pos, id_v);
            assert(ins[pos] == id_v);
            if ids_of(old).contains(t) {
                let j = choose|j: int| 0 <= j < ids_of(old).len() && ids_of(old)[j] == t;
                if j < pos {
                    assert(ins[j] == t);
                } else {
                    assert(ins[j + 1] == t);
                }
            }
            if ins.contains(t) {
                let j = choose|j: int| 0 <= j < ins.len() && ins[j] == t;
                if j < pos {
                    assert(ids_of(old)[j] == t);
                } else if j > pos {
                    assert(ids_of(old)[j - 1] == t);
                }
            }
        }
    }
    // the other pages
    assert forall|t: PageIdView|
        #![trigger lookup(fin, t)]
        t != id_v && ids_of(old).contains(t) implies (lookup(fin, t) matches Some(n) && lookup(
            old,
            t,
        ) matches Some(o) && refreshed_other(o, n, id_v, nr)) by {
        let j = choose|j: int| 0 <= j < ids_of(old).len() && ids_of(old)[j] == t;
        lemma_lookup_at(old, j);
        let jf = if contained || j < pos {
            j
        } else {
            j + 1
        };
        assert(placed[jf] == bp[j]);
        assert(jf != pos);
        assert(refreshed_other(old[j], bp[j], id_v, nr));
        assert(same_content(fin[jf], placed[jf]) && fin[jf].incoming_refs == placed[jf].incoming_refs)
            by {
            if let Some(pj) = parent_pos {
                if jf != pj {
                    assert(fin[jf] == after_first[jf]);
                }
            }
        }
        assert(fin[jf].page_id@ == t);
        lemma_lookup_at(fin, jf);
    }
    // the references all pages make
    assert forall|t: PageIdView| #[trigger] all_refs_into(fin, t).to_multiset() == refs_into(old, t, id_v).to_multiset().add(
        targeting(page_incoming(page), t).to_multiset(),
    ) by {
        assert(page_incoming(np) == page_incoming(page));
        let target = if contained {
            old.update(pos, np)
        } else {
            old.insert(pos, np)
        };
        assert forall|j: int| 0 <= j < fin.len() implies #[trigger] same_content(fin[j], target[j]) by {
            if contained {
                if j != pos {
                    assert(placed[j] == bp[j]);
                    assert(refreshed_other(old[j], bp[j], id_v, nr));
                }
            } else {
                if j < pos {
                    assert(placed[j] == bp[j]);
                    assert(refreshed_other(old[j], bp[j], id_v, nr));
                } else if j > pos {
                    assert(placed[j] == bp[j - 1]);
                    assert(refreshed_other(old[j - 1], bp[j - 1], id_v, nr));
                }
            }
            if let Some(pj) = parent_pos {
                if j != pj {
                    assert(fin[j] == after_first[j]);
                }
            }
            if j != pos {
                assert(after_first[j] == placed[j]);
            }
        }
        lemma_all_refs_into_content(fin, target, t);
        if contained {
            assert(refreshed_other(old[pos], bp[pos], id_v, nr));
            lemma_all_refs_update(old, pos, np, t);
        } else {
            lemma_all_refs_insert(old, pos, np, t);
        }
    }
}

/// The pages `remove_page` leaves meet the cache's invariant and `removed`.
proof fn lemma_remove_result(
    old: Seq<Page>,
    cleaned: Seq<Page>,
    after_remove: Seq<Page>,
    fin: Seq<Page>,
    id: PageIdView,
    k: int,
    parent_pos: Option<usize>,
)
    requires
        sorted_ids(ids_of(old)),
        hierarchy_ok(old),
        cleaned.len() == old.len(),
        ids_of(cleaned) == ids_of(old),
        forall|j: int| 0 <= j < cleaned.len() ==> #[trigger] same_content(cleaned[j], old[j]),
        forall|j: int| 0 <= j < cleaned.len() ==> (#[trigger] cleaned[j]).child_page_ids == old[j].child_page_ids,
        forall|j: int| 0 <= j < cleaned.len() ==> #[trigger] incoming_views(cleaned[j].incoming_refs@)
            == without_source(incoming_views(old[j].incoming_refs@), id),
        0 <= k < cleaned.len(),
        cleaned[k].page_id@ == id,
        after_remove == cleaned.remove(k),
        parent_pos is None ==> fin == after_remove,
        parent_pos is None ==> (!has_parent(id) || !ids_of(after_remove).contains(parent_view(id))),
        parent_pos matches Some(pj) ==> {
            &&& pj < after_remove.len()
            &&& has_parent(id)
            &&& after_remove[pj as int].page_id@ == parent_view(id)
            &&& fin.len() == after_remove.len()
            &&& ids_of(fin) == ids_of(after_remove)
            &&& forall|j: int| 0 <= j < after_remove.len() && j != pj ==> #[trigger] fin[j] == after_remove[j]
            &&& same_content(fin[pj as int], after_remove[pj as int])
            &&& fin[pj as int].incoming_refs == after_remove[pj as int].incoming_refs
            &&& id_views(fin[pj as int].child_page_ids@) == children_of(
                ids_of(after_remove),
                after_remove[pj as int].page_id@,
            )
        },
    ensures
        sorted_ids(ids_of(fin)),
        hierarchy_ok(fin),
        refs_consistent(old) ==> refs_consistent(fin),
        forall|t: PageIdView| ids_of(fin).contains(t) <==> (ids_of(old).contains(t) && t != id),
        forall|t: PageIdView|
            #![trigger lookup(fin, t)]
            t != id && ids_of(old).contains(t) ==> (lookup(fin, t) matches Some(n) && lookup(
                old,
                t,
            ) matches Some(o) && same_content(n, o) && incoming_views(n.incoming_refs@)
                == without_source(incoming_views(o.incoming_refs@), id)),
{
    assert(ids_of(after_remove) =~= ids_of(old).remove(k));
    lemma_sorted_remove(ids_of(old), k);
    assert(ids_of(fin) == ids_of(after_remove));
    assert forall|x: int| 0 <= x < fin.len() implies id_views(#[trigger] fin[x].child_page_ids@)
        == children_of(ids_of(fin), fin[x].page_id@) by {
        let t = fin[x].page_id@;
        if parent_pos matches Some(pj) && pj == x {
            assert(fin[x].page_id == after_remove[x].page_id);
        } else {
            if let Some(pj) = parent_pos {
                assert(fin[x] == after_remove[x]);
            }
            let xo = if x < k {
                x
            } else {
                x + 1
            };
            assert(after_remove[x] == cleaned[xo]);
            assert(same_content(cleaned[xo], old[xo]));
            assert(old[xo].page_id@ == t);
            assert(id_views(old[xo].child_page_ids@) == children_of(ids_of(old), t));
            if is_child_of(id, t) {
                assert(ids_of(fin)[x] == t);
                assert(ids_of(after_remove)[x] == t);
                lemma_id_lt_order(t, t, t);
                if let Some(pj) = parent_pos {
                    assert(ids_of(fin)[pj as int] == t);
                    if x < pj {
                        assert(id_lt(ids_of(fin)[x], ids_of(fin)[pj as int]));
                    } else {
                        assert(id_lt(ids_of(fin)[pj as int], ids_of(fin)[x]));
                    }
                }
            }
            assert(ids_of(old)[k] == id);
            lemma_children_of_remove(ids_of(old), k, t);
        }
    }
    assert forall|t: PageIdView| ids_of(fin).contains(t) <==> (ids_of(old).contains(t) && t != id) by {
        let rem = ids_of(old).remove(k);
        lemma_id_lt_order(id, id, id);
        if ids_of(old).contains(t) && t != id {
            let j = choose|j: int| 0 <= j < ids_of(old).len() && ids_of(old)[j] == t;
            if j < k {
                assert(rem[j] == t);
            } else {
                assert(j != k);
                assert(rem[j - 1] == t);
            }
        }
        if rem.contains(t) {
            let j = choose|j: int| 0 <= j < rem.len() && rem[j] == t;
            if j < k {
                assert(ids_of(old)[j] == t);
                assert(id_lt(ids_of(old)[j], ids_of(old)[k]));
            } else {
                assert(ids_of(old)[j + 1] == t);
                assert(id_lt(ids_of(old)[k], ids_of(old)[j + 1]));
            }
        }
    }
    assert forall|t: PageIdView|
        #![trigger lookup(fin, t)]
        t != id && ids_of(old).contains(t) implies (lookup(fin, t) matches Some(n) && lookup(
            old,
            t,
        ) matches Some(o) && same_content(n, o) && incoming_views(n.incoming_refs@)
            == without_source(incoming_views(o.incoming_refs@), id)) by {
        let j = choose|j: int| 0 <= j < ids_of(old).len() && ids_of(old)[j] == t;
        lemma_lookup_at(old, j);
        assert(j != k);
        let jf = if j < k {
            j
        } else {
            j - 1
        };
        assert(after_remove[jf] == cleaned[j]);
        assert(same_content(cleaned[j], old[j]));
        assert(incoming_views(cleaned[j].incoming_refs@) == without_source(incoming_views(old[j].incoming_refs@), id));
        assert(same_content(fin[jf], after_remove[jf]) && fin[jf].incoming_refs == after_remove[jf].incoming_refs) by {
            if let Some(pj) = parent_pos {
                if jf != pj {
                    assert(fin[jf] == after_remove[jf]);
                }
            }
        }
        assert(fin[jf].page_id@ == t);
        lemma_lookup_at(fin, jf);
    }
    if refs_consistent(old) {
        assert forall|x: int| 0 <= x < fin.len() implies (#[trigger] incoming_views(fin[x].incoming_refs@)).to_multiset()
            == all_refs_into(fin, fin[x].page_id@).to_multiset() by {
            let t = fin[x].page_id@;
            let xo = if x < k {
                x
            } else {
                x + 1
            };
            assert(same_content(fin[x], after_remove[x]) && fin[x].incoming_refs == after_remove[x].incoming_refs) by {
                if let Some(pj) = parent_pos {
                    if x != pj {
                        assert(fin[x] == after_remove[x]);
                    }
                }
            }
            assert(after_remove[x] == cleaned[xo]);
            assert(same_content(cleaned[xo], old[xo]));
            assert(incoming_views(cleaned[xo].incoming_refs@) == without_source(incoming_views(old[xo].incoming_refs@), id));
            assert(old[xo].page_id@ == t);
            assert(incoming_views(old[xo].incoming_refs@).to_multiset() == all_refs_into(old, t).to_multiset());
            lemma_without_source_multiset(incoming_views(old[xo].incoming_refs@), all_refs_into(old, t), id);
            lemma_without_source_all(old, t, id);
            assert forall|i: int| 0 <= i < fin.len() implies #[trigger] same_content(fin[i], old.remove(k)[i]) by {
                let io = if i < k {
                    i
                } else {
                    i + 1
                };
                assert(after_remove[i] == cleaned[io]);
                assert(same_content(cleaned[io], old[io]));
                assert(same_content(fin[i], after_remove[i])) by {
                    if let Some(pj) = parent_pos {
                        if i != pj {
                            assert(fin[i] == after_remove[i]);
                        }
                    }
                }
            }
            lemma_all_refs_into_content(fin, old.remove(k), t);
            assert(old[k].page_id@ == id) by {
                assert(same_content(cleaned[k], old[k]));
            }
            lemma_all_refs_remove(old, k, t);
        }
    }
}

/// An upsert keeps incoming references consistent with the references pages make.
proof fn lemma_upsert_consistent(old: Seq<Page>, fin: Seq<Page>, p: Page)
    requires
        sorted_ids(ids_of(old)),
        sorted_ids(ids_of(fin)),
        refs_consistent(old),
        upserted(old, fin, p),
        forall|t: PageIdView| #[trigger] all_refs_into(fin, t).to_multiset() == refs_into(old, t, p.page_id@).to_multiset().add(
            targeting(page_incoming(p), t).to_multiset(),
        ),
    ensures
        refs_consistent(fin),
{
    broadcast use vstd::seq_lib::lemma_multiset_commutative;

    let id = p.page_id@;
    assert forall|x: int| 0 <= x < fin.len() implies (#[trigger] incoming_views(fin[x].incoming_refs@)).to_multiset()
        == all_refs_into(fin, fin[x].page_id@).to_multiset() by {
        let t = fin[x].page_id@;
        lemma_lookup_at(fin, x);
        assert(all_refs_into(fin, t).to_multiset() == refs_into(old, t, id).to_multiset().add(
            targeting(page_incoming(p), t).to_multiset(),
        ));
        if t != id {
            assert(ids_of(fin)[x] == t);
            assert(ids_of(old).contains(t));
            let j = choose|j: int| 0 <= j < ids_of(old).len() && ids_of(old)[j] == t;
            lemma_lookup_at(old, j);
            assert(lookup(fin, t) matches Some(n) && lookup(old, t) matches Some(o) && refreshed_other(o, n, id, page_incoming(p)));
            assert(incoming_views(old[j].incoming_refs@).to_multiset() == all_refs_into(old, t).to_multiset());
            lemma_without_source_multiset(incoming_views(old[j].incoming_refs@), all_refs_into(old, t), id);
            lemma_without_source_all(old, t, id);
        }
    }
}

/// The references of the pages with one page removed.
proof fn lemma_all_refs_remove(pages: Seq<Page>, k: int, t: PageIdView)
    requires
        0 <= k < pages.len(),
        sorted_ids(ids_of(pages)),
    ensures
        all_refs_into(pages.remove(k), t) == refs_into(pages, t, pages[k].page_id@),
{
    let id = pages[k].page_id@;
    let a = pages.take(k);
    let b = pages.skip(k + 1);
    assert(pages =~= a + (seq![pages[k]] + b));
    assert(pages.remove(k) =~= a + b);
    lemma_all_refs_into_concat(a, b, t);
    lemma_refs_into_concat(a, seq![pages[k]] + b, t, id);
    lemma_refs_into_concat(seq![pages[k]], b, t, id);
    assert(seq![pages[k]].drop_last() =~= Seq::<Page>::empty());
    assert(seq![pages[k]].last() == pages[k]);
    assert(refs_into(Seq::<Page>::empty(), t, id) =~= Seq::<IncomingRefView>::empty());
    assert(refs_into(seq![pages[k]], t, id) =~= Seq::<IncomingRefView>::empty());
    assert(!ids_of(a).contains(id)) by {
        if ids_of(a).contains(id) {
            let j = choose|j: int| 0 <= j < ids_of(a).len() && ids_of(a)[j] == id;
            assert(ids_of(pages)[j] == id && ids_of(pages)[k] == id);
            assert(id_lt(ids_of(pages)[j], ids_of(pages)[k]));
            lemma_id_lt_order(id, id, id);
        }
    }
    assert(!ids_of(b).contains(id)) by {
        if ids_of(b).contains(id) {
            let j = choose|j: int| 0 <= j < ids_of(b).len() && ids_of(b)[j] == id;
            assert(ids_of(pages)[k + 1 + j] == id && ids_of(pages)[k] == id);
            assert(id_lt(ids_of(pages)[k], ids_of(pages)[k + 1 + j]));
            lemma_id_lt_order(id, id, id);
        }
    }
    lemma_refs_into_absent(a, t, id);
    lemma_refs_into_absent(b, t, id);
    assert(refs_into(pages, t, id) =~= all_refs_into(a, t) + (Seq::<IncomingRefView>::empty() + all_refs_into(b, t)));
}

/// A page that makes no reference to `t` contributes none.
proof fn lemma_targeting_absent(s: Seq<(PageIdView, IncomingRefView)>, t: PageIdView)
    requires
        !(exists|i: int| 0 <= i < s.len() && (#[trigger] s[i]).0 == t),
    ensures
        targeting(s, t) == Seq::<IncomingRefView>::empty(),
    decreases s.len(),
{
    if s.len() > 0 {
        assert(!(exists|i: int| 0 <= i < s.drop_last().len() && (#[trigger] s.drop_last()[i]).0 == t)) by {
            if exists|i: int| 0 <= i < s.drop_last().len() && (#[trigger] s.drop_last()[i]).0 == t {
                let i = choose|i: int| 0 <= i < s.drop_last().len() && (#[trigger] s.drop_last()[i]).0 == t;
                assert(s[i] == s.drop_last()[i]);
            }
        }
        lemma_targeting_absent(s.drop_last(), t);
        assert(s[s.len() - 1] == s.last());
        assert(targeting(s, t) =~= Seq::<IncomingRefView>::empty());
    }
}

/// A content refresh keeps incoming references consistent with the references pages make.
proof fn lemma_refresh_consistent(old: Seq<Page>, fin: Seq<Page>, p: Page, j: int)
    requires
        sorted_ids(ids_of(old)),
        refs_consistent(old),
        0 <= j < old.len(),
        old[j].page_id@ == p.page_id@,
        fin.len() == old.len(),
        forall|k: int| 0 <= k < fin.len() && k != j ==> #[trigger] same_content(fin[k], old[k]),
        same_content(fin[j], p),
        forall|k: int| 0 <= k < fin.len() ==> #[trigger] refreshed_page(old[k], fin[k], old[j], page_incoming(p)),
    ensures
        refs_consistent(fin),
{
    broadcast use vstd::seq_lib::lemma_multiset_commutative;

    let e = old[j];
    let id = p.page_id@;
    assert forall|x: int| 0 <= x < fin.len() implies (#[trigger] incoming_views(fin[x].incoming_refs@)).to_multiset()
        == all_refs_into(fin, fin[x].page_id@).to_multiset() by {
        let t = fin[x].page_id@;
        assert(old[x].page_id@ == t) by {
            if x != j {
                assert(same_content(fin[x], old[x]));
            }
        }
        assert(forall|k: int| 0 <= k < fin.len() ==> #[trigger] same_content(fin[k], old.update(j, p)[k])) by {
            assert forall|k: int| 0 <= k < fin.len() implies #[trigger] same_content(fin[k], old.update(j, p)[k]) by {
                if k != j {
                    assert(same_content(fin[k], old[k]));
                }
            }
        }
        lemma_all_refs_into_content(fin, old.update(j, p), t);
        lemma_all_refs_update(old, j, p, t);
        assert(refreshed_page(old[x], fin[x], e, page_incoming(p)));
        assert(incoming_views(old[x].incoming_refs@).to_multiset() == all_refs_into(old, t).to_multiset());
        if refers_to(e, t) {
            lemma_without_source_multiset(incoming_views(old[x].incoming_refs@), all_refs_into(old, t), id);
            lemma_without_source_all(old, t, id);
        } else {
            lemma_targeting_absent(page_incoming(e), t);
            lemma_all_refs_update(old, j, e, t);
            assert(old.update(j, e) =~= old);
            assert(targeting(page_incoming(e), t) == Seq::<IncomingRefView>::empty());
            assert(Seq::<IncomingRefView>::empty().to_multiset() =~= Multiset::<IncomingRefView>::empty()) by {
                broadcast use vstd::seq_lib::group_to_multiset_ensures;
            }
            assert(targeting(page_incoming(e), t).to_multiset() =~= Multiset::<IncomingRefView>::empty());
            assert(refs_into(old, t, id).to_multiset().add(Multiset::<IncomingRefView>::empty()) =~= refs_into(old, t, id).to_multiset());
        }
    }
}

/// The pages after `other`'s references are refreshed for an upsert of a page `src`
/// whose references are `new_refs`: those made by `src` are dropped, then the new
/// ones to this page appended.
pub open spec fn refreshed_other(
    o: Page,
    n: Page,
    src: PageIdView,
    new_refs: Seq<(PageIdView, IncomingRefView)>,
) -> bool {
    &&& same_content(n, o)
    &&& incoming_views(n.incoming_refs@) == without_source(incoming_views(o.incoming_refs@), src)
        + targeting(new_refs, o.page_id@)
}

/// What `upsert_page` makes of the pages `old` when it stores `p`: the identities
/// gain `p`'s; `p` is stored with the references other pages make to it followed by
/// its references to itself; every other page drops the references `p` made and
/// gains those it makes now.
pub open spec fn upserted(old: Seq<Page>, new: Seq<Page>, p: Page) -> bool {
    let id = p.page_id@;
    &&& forall|t: PageIdView| ids_of(new).contains(t) <==> (ids_of(old).contains(t) || t == id)
    &&& lookup(new, id) matches Some(q) && same_content(q, p) && incoming_views(q.incoming_refs@)
        == refs_into(old, id, id) + targeting(page_incoming(p), id)
    &&& forall|t: PageIdView|
        #![trigger lookup(new, t)]
        t != id && ids_of(old).contains(t) ==> (lookup(new, t) matches Some(n) && lookup(
            old,
            t,
        ) matches Some(o) && refreshed_other(o, n, id, page_incoming(p)))
}

/// What every cache keeps: identities strictly increasing, and each page listing
/// exactly its child pages, in order.
pub open spec fn cache_ok(pages: Seq<Page>) -> bool {
    &&& sorted_ids(ids_of(pages))
    &&& hierarchy_ok(pages)
}

/// The cached pages of a workspace, ordered by identity.
#[derive(Debug)]
pub struct WorkspaceCache {
    pages: Vec<Page>,
}

impl WorkspaceCache {
    #[verifier::type_invariant]
    spec fn wf(self) -> bool {
        &&& sorted_ids(ids_of(self.pages@))
        &&& hierarchy_ok(self.pages@)
    }

    /// The cached pages, in identity order.
    pub closed spec fn page_list(self) -> Seq<Page> {
        self.pages@
    }

    /// An empty cache.
    pub fn new() -> (r: Self)
        ensures
            r.page_list().len() == 0,
            refs_consistent(r.page_list()),
    {
        WorkspaceCache { pages: Vec::new() }
    }

    /// The cached pages in identity order; each lists exactly its child pages.
    pub fn pages(&self) -> (r: &Vec<Page>)
        ensures
            r@ == self.page_list(),
            sorted_ids(ids_of(r@)),
            hierarchy_ok(r@),
    {
        proof {
            use_type_invariant(self);
        }
        &self.pages
    }

    /// The page with identity `page_id`.
    pub fn page(&self, page_id: &PageId) -> (r: Option<&Page>)
        ensures
            r is None <==> lookup(self.page_list(), page_id@) is None,
            r matches Some(p) ==> lookup(self.page_list(), page_id@) == Some(*p),
    {
        proof {
            use_type_invariant(self);
        }
        match position_of(&self.pages, page_id) {
            Some(i) => {
                proof {
                    lemma_lookup_at(self.pages@, i as int);
                }
                Some(&self.pages[i])
            },
            None => {
                proof {
                    lemma_lookup_none(self.pages@, page_id@);
                }
                None
            },
        }
    }

    /// Stores `page`, replacing a page with the same identity, and brings children
    /// and incoming references of all pages up to date.
    pub fn upsert_page(&mut self, page: Page)
        ensures
            upserted(old(self).page_list(), final(self).page_list(), page),
            refs_consistent(old(self).page_list()) ==> refs_consistent(final(self).page_list()),
            cache_ok(final(self).page_list()),
    {
        proof {
            use_type_invariant(&*self);
        }
        let mut pages: Vec<Page> = Vec::new();
        core::mem::swap(&mut self.pages, &mut pages);
        let ghost old = pages@;
        let id = page.page_id.duplicate();
        let new_refs = incoming_refs_of_page(&page);
        let ghost nr = targeted_views(new_refs@);
        let mut incoming = refs_into_page(&pages, &id, &id);
        let mut own = refs_targeting(&new_refs, &id);
        let ghost inc_v = incoming_views(incoming@) + incoming_views(own@);
        incoming.append(&mut own);
        let mut np = page;
        np.incoming_refs = incoming;
        proof {
            assert(incoming_views(np.incoming_refs@) =~= inc_v);
        }
        let mut rev = reverse_vec(pages);
        let mut mid: Vec<Page> = Vec::new();
        while rev.len() > 0
            invariant
                rev@.len() + mid@.len() == old.len(),
                forall|m: int| 0 <= m < rev@.len() ==> #[trigger] rev@[m] == old[old.len() - 1 - m],
                forall|j: int|
                    0 <= j < mid@.len() ==> #[trigger] refreshed_other(old[j], mid@[j], id@, nr),
                forall|j: int|
                    0 <= j < mid@.len() ==> (#[trigger] mid@[j]).child_page_ids == old[j].child_page_ids,
                nr == targeted_views(new_refs@),
            decreases rev@.len(),
        {
            let mut q = rev.pop().unwrap();
            let ghost j = mid@.len() as int;
            assert(q == old[j]);
            let mut kept = refs_without_source(&q.incoming_refs, &id);
            let mut added = refs_targeting(&new_refs, &q.page_id);
            let ghost kv = incoming_views(kept@) + incoming_views(added@);
            kept.append(&mut added);
            q.incoming_refs = kept;
            proof {
                assert(incoming_views(q.incoming_refs@) =~= kv);
            }
            mid.push(q);
        }
        proof {
            assert forall|j: int| 0 <= j < mid@.len() implies #[trigger] ids_of(mid@)[j] == ids_of(
                old,
            )[j] by {
                assert(refreshed_other(old[j], mid@[j], id@, nr));
            }
            assert(ids_of(mid@) =~= ids_of(old));
        }
        let ghost before_place = mid@;
        let pos: usize;
        match position_of(&mid, &id) {
            Some(j) => {
                mid.remove(j);
                mid.insert(j, np);
                pos = j;
                proof {
                    assert(mid@ =~= before_place.update(j as int, np));
                    assert(ids_of(mid@) =~= ids_of(before_place));
                    assert(ids_of(old)[j as int] == id@);
                    assert(ids_of(old).contains(id@));
                }
            },
            None => {
                let k = insert_position(&mid, &id);
                mid.insert(k, np);
                pos = k;
                proof {
                    assert(mid@ == before_place.insert(k as int, np));
                    assert(ids_of(mid@) =~= ids_of(before_place).insert(k as int, id@));
                    lemma_sorted_insert(ids_of(before_place), k as int, id@);
                }
            },
        }
        let ghost placed = mid@;
        proof {
            assert(placed[pos as int] == np);
        }
        refresh_children_at(&mut mid, pos);
        let ghost after_first = mid@;
        let mut parent_pos: Option<usize> = None;
        if let Some(parent_id) = id.parent() {
            if let Some(pj) = position_of(&mid, &parent_id) {
                refresh_children_at(&mut mid, pj);
                parent_pos = Some(pj);
            }
        }
        proof {
            lemma_upsert_result(old, before_place, placed, after_first, mid@, np, page, pos as int, parent_pos, nr);
            if refs_consistent(old) {
                lemma_upsert_consistent(old, mid@, page);
            }
        }
        self.pages = mid;
        proof {
            use_type_invariant(&*self);
        }
    }

    /// Stores a new version of a page's content. A page not yet cached is upserted;
    /// a cached one keeps its children and incoming references, while the pages it
    /// referred to drop its old references and its targets gain the new ones.
    pub fn refresh_page_content(&mut self, page: Page)
        ensures
            lookup(old(self).page_list(), page.page_id@) is None ==> upserted(
                old(self).page_list(),
                final(self).page_list(),
                page,
            ),
            lookup(old(self).page_list(), page.page_id@) matches Some(e) ==> refreshed(
                old(self).page_list(),
                final(self).page_list(),
                page,
                e,
            ),
            refs_consistent(old(self).page_list()) ==> refs_consistent(final(self).page_list()),
            cache_ok(final(self).page_list()),
    {
        proof {
            use_type_invariant(&*self);
        }
        let found = position_of(&self.pages, &page.page_id);
        if found.is_none() {
            proof {
                lemma_lookup_none(self.pages@, page.page_id@);
            }
            self.upsert_page(page);
            proof {
                use_type_invariant(&*self);
            }
            return;
        }
        let j = found.unwrap();
        let id = page.page_id.duplicate();
        let mut pages: Vec<Page> = Vec::new();
        core::mem::swap(&mut self.pages, &mut pages);
        let ghost old = pages@;
        proof {
            lemma_lookup_at(old, j as int);
        }
        let old_refs = incoming_refs_of_page(&pages[j]);
        let old_targets = target_ids(&old_refs);
        let existing = pages.remove(j);
        let mut np = page;
        np.child_page_ids = existing.child_page_ids;
        np.incoming_refs = existing.incoming_refs;
        pages.insert(j, np);
        let ghost placed = pages@;
        proof {
            assert(placed =~= old.update(j as int, np));
            assert(ids_of(placed) =~= ids_of(old));
        }
        let new_refs = incoming_refs_of_page(&pages[j]);
        let updated = rewrite_incoming(pages, &id, Some(&old_targets), &new_refs);
        proof {
            let fin = updated@;
            let e = old[j as int];
            assert(page_incoming(placed[j as int]) == page_incoming(page));
            assert forall|k: int| 0 <= k < fin.len() implies #[trigger] ids_of(fin)[k] == ids_of(old)[k] by {
                assert(rewritten(placed[k], fin[k], id@, scope_view(Some(&old_targets)), targeted_views(new_refs@)));
            }
            assert(ids_of(fin) =~= ids_of(old));
            assert forall|x: int| 0 <= x < fin.len() implies id_views(#[trigger] fin[x].child_page_ids@)
                == children_of(ids_of(fin), fin[x].page_id@) by {
                assert(rewritten(placed[x], fin[x], id@, scope_view(Some(&old_targets)), targeted_views(new_refs@)));
                assert(fin[x].page_id == placed[x].page_id);
                if x != j {
                    assert(placed[x] == old[x]);
                }
            }
            assert forall|t: PageIdView| in_scope(scope_view(Some(&old_targets)), t) == refers_to(e, t) by {
                if refers_to(e, t) {
                    let i = choose|i: int| 0 <= i < page_incoming(e).len() && (#[trigger] page_incoming(e)[i]).0 == t;
                    assert(targeted_views(old_refs@)[i].0 == t);
                }
            }
            assert(rewritten(placed[j as int], fin[j as int], id@, scope_view(Some(&old_targets)), targeted_views(new_refs@)));
            lemma_lookup_at(fin, j as int);
            assert forall|t: PageIdView|
                #![trigger lookup(fin, t)]
                t != id@ && ids_of(old).contains(t) implies (lookup(fin, t) matches Some(n) && lookup(
                    old,
                    t,
                ) matches Some(o) && same_content(n, o) && refreshed_page(o, n, e, page_incoming(page))) by {
                let k = choose|k: int| 0 <= k < ids_of(old).len() && ids_of(old)[k] == t;
                lemma_lookup_at(old, k);
                assert(k != j);
                assert(placed[k] == old[k]);
                assert(rewritten(placed[k], fin[k], id@, scope_view(Some(&old_targets)), targeted_views(new_refs@)));
                assert(fin[k].page_id@ == t);
                lemma_lookup_at(fin, k);
            }
            if refs_consistent(old) {
                assert forall|k: int| 0 <= k < fin.len() && k != j implies #[trigger] same_content(fin[k], old[k]) by {
                    assert(rewritten(placed[k], fin[k], id@, scope_view(Some(&old_targets)), targeted_views(new_refs@)));
                    assert(placed[k] == old[k]);
                }
                assert forall|k: int| 0 <= k < fin.len() implies #[trigger] refreshed_page(old[k], fin[k], old[j as int], page_incoming(page)) by {
                    assert(rewritten(placed[k], fin[k], id@, scope_view(Some(&old_targets)), targeted_views(new_refs@)));
                    if k != j {
                        assert(placed[k] == old[k]);
                    }
                    assert(in_scope(scope_view(Some(&old_targets)), placed[k].page_id@) == refers_to(e, placed[k].page_id@));
                }
                lemma_refresh_consistent(old, fin, page, j as int);
            }
        }
        self.pages = updated;
        proof {
            use_type_invariant(&*self);
        }
    }

    /// Removes the page with identity `page_id`, and the references it made from
    /// every page; returns the removed page.
    pub fn remove_page(&mut self, page_id: &PageId) -> (r: Option<Page>)
        ensures
            removed(old(self).page_list(), final(self).page_list(), page_id@, r),
            refs_consistent(old(self).page_list()) ==> refs_consistent(final(self).page_list()),
            cache_ok(final(self).page_list()),
    {
        proof {
            use_type_invariant(&*self);
        }
        let mut pages: Vec<Page> = Vec::new();
        core::mem::swap(&mut self.pages, &mut pages);
        let ghost old = pages@;
        let no_refs: Vec<TargetedRef> = Vec::new();
        let mut pages = rewrite_incoming(pages, page_id, None, &no_refs);
        let ghost cleaned = pages@;
        proof {
            assert forall|k: int| 0 <= k < cleaned.len() implies #[trigger] ids_of(cleaned)[k] == ids_of(old)[k] by {
                assert(rewritten(old[k], cleaned[k], page_id@, scope_view(None), targeted_views(no_refs@)));
            }
            assert(ids_of(cleaned) =~= ids_of(old));
            assert forall|k: int| 0 <= k < cleaned.len() implies #[trigger] same_content(cleaned[k], old[k]) by {
                assert(rewritten(old[k], cleaned[k], page_id@, scope_view(None), targeted_views(no_refs@)));
            }
            assert forall|k: int| 0 <= k < cleaned.len() implies (#[trigger] cleaned[k]).child_page_ids
                == old[k].child_page_ids by {
                assert(rewritten(old[k], cleaned[k], page_id@, scope_view(None), targeted_views(no_refs@)));
            }
            assert forall|k: int| 0 <= k < cleaned.len() implies #[trigger] incoming_views(cleaned[k].incoming_refs@)
                == without_source(incoming_views(old[k].incoming_refs@), page_id@) by {
                assert(rewritten(old[k], cleaned[k], page_id@, scope_view(None), targeted_views(no_refs@)));
                assert(targeted_views(no_refs@) =~= Seq::<(PageIdView, IncomingRefView)>::empty());
                assert(targeting(targeted_views(no_refs@), old[k].page_id@) =~= Seq::<IncomingRefView>::empty());
                assert(without_source(incoming_views(old[k].incoming_refs@), page_id@) + Seq::<IncomingRefView>::empty()
                    =~= without_source(incoming_views(old[k].incoming_refs@), page_id@));
            }
        }
        match position_of(&pages, page_id) {
            None => {
                proof {
                    assert forall|x: int| 0 <= x < cleaned.len() implies id_views(#[trigger] cleaned[x].child_page_ids@)
                        == children_of(ids_of(cleaned), cleaned[x].page_id@) by {
                        assert(rewritten(old[x], cleaned[x], page_id@, scope_view(None), targeted_views(no_refs@)));
                    }
                    assert forall|t: PageIdView| ids_of(cleaned).contains(t) <==> (ids_of(old).contains(t)
                        && t != page_id@) by {
                    }
                    assert forall|t: PageIdView|
                        #![trigger lookup(cleaned, t)]
                        t != page_id@ && ids_of(old).contains(t) implies (lookup(cleaned, t) matches Some(n) && lookup(
                            old,
                            t,
                        ) matches Some(o) && same_content(n, o) && incoming_views(n.incoming_refs@)
                            == without_source(incoming_views(o.incoming_refs@), page_id@)) by {
                        let k = choose|k: int| 0 <= k < ids_of(old).len() && ids_of(old)[k] == t;
                        lemma_lookup_at(old, k);
                        assert(rewritten(old[k], cleaned[k], page_id@, scope_view(None), targeted_views(no_refs@)));
                        assert(cleaned[k].page_id@ == t);
                        lemma_lookup_at(cleaned, k);
                    }
                    if refs_consistent(old) {
                        assert forall|x: int| 0 <= x < cleaned.len() implies (#[trigger] incoming_views(cleaned[x].incoming_refs@)).to_multiset()
                            == all_refs_into(cleaned, cleaned[x].page_id@).to_multiset() by {
                            let t = cleaned[x].page_id@;
                            assert(same_content(cleaned[x], old[x]));
                            assert(incoming_views(old[x].incoming_refs@).to_multiset() == all_refs_into(old, t).to_multiset());
                            lemma_without_source_multiset(incoming_views(old[x].incoming_refs@), all_refs_into(old, t), page_id@);
                            lemma_without_source_all(old, t, page_id@);
                            lemma_all_refs_into_content(cleaned, old, t);
                            lemma_refs_into_absent(old, t, page_id@);
                        }
                    }
                }
                self.pages = pages;
                proof {
                    use_type_invariant(&*self);
                }
                None
            },
            Some(k) => {
                let gone = pages.remove(k);
                let ghost after_remove = pages@;
                let mut parent_pos: Option<usize> = None;
                if let Some(parent) = page_id.parent() {
                    if let Some(pj) = position_of(&pages, &parent) {
                        refresh_children_at(&mut pages, pj);
                        parent_pos = Some(pj);
                    }
                }
                proof {
                    lemma_remove_result(old, cleaned, after_remove, pages@, page_id@, k as int, parent_pos);
                    lemma_lookup_at(old, k as int);
                    assert(ids_of(old)[k as int] == page_id@);
                    assert(ids_of(old).contains(page_id@));
                    assert(gone == cleaned[k as int]);
                    assert(same_content(cleaned[k as int], old[k as int]));
                }
                self.pages = pages;
                proof {
                    use_type_invariant(&*self);
                }
                Some(gone)
            },
        }
    }

    /// Parses `text` and stores it as the content of the page-backed page `page_id`,
    /// refreshing a cached page or upserting a new one.
    pub fn reparse_and_upsert_page_markdown(&mut self, page_id: &PageId, text: &str) -> (r: Result<(), CoreError>)
        requires
            page_id@.location is Pages,
            4 * text@.len() + 8 <= usize::MAX,
        ensures
            r is Ok,
            exists|p: Page|
                parsed_page(p, page_id@, text@) && (lookup(old(self).page_list(), page_id@) matches Some(e)
                    ==> refreshed(old(self).page_list(), final(self).page_list(), p, e)) && (lookup(
                    old(self).page_list(),
                    page_id@,
                ) is None ==> upserted(old(self).page_list(), final(self).page_list(), p)),
            refs_consistent(old(self).page_list()) ==> refs_consistent(final(self).page_list()),
    {
        let blocks = match parse_blocks(text) {
            Ok(b) => b,
            Err(e) => {
                return Err(e);
            },
        };
        let page = Page::new(page_id.duplicate(), text).with_blocks(blocks);
        let ghost p = page;
        if self.page(page_id).is_some() {
            self.refresh_page_content(page);
        } else {
            self.upsert_page(page);
        }
        assert(parsed_page(p, page_id@, text@));
        Ok(())
    }

    /// The ancestors of cached page-backed pages that are not cached, in identity order.
    pub fn missing_parent_page_ids(&self) -> (r: Vec<PageId>)
        ensures
            sorted_ids(id_views(r@)),
            forall|t: PageIdView| id_views(r@).contains(t) <==> missing_parent(self.page_list(), t),
    {
        proof {
            use_type_invariant(self);
        }
        let ghost pages = self.pages@;
        let mut out: Vec<PageId> = Vec::new();
        let mut i: usize = 0;
        while i < self.pages.len()
            invariant
                pages == self.pages@,
                i <= pages.len(),
                sorted_ids(id_views(out@)),
                forall|t: PageIdView| id_views(out@).contains(t) <==> (!ids_of(pages).contains(t)
                    && below_some(pages, i as int, t)),
            decreases pages.len() - i,
        {
            let ancestors = self.pages[i].page_id.ancestors();
            let ghost v = pages[i as int].page_id@;
            let ghost base = id_views(out@);
            let mut m: usize = 0;
            while m < ancestors.len()
                invariant
                    pages == self.pages@,
                    i < pages.len(),
                    v == pages[i as int].page_id@,
                    m <= ancestors@.len(),
                    ancestors@.len() == super::page_id::ancestors_count(v),
                    forall|j: int| 0 <= j < ancestors@.len() ==> #[trigger] ancestors@[j]@ == ancestor_view(v, j + 1),
                    sorted_ids(id_views(out@)),
                    forall|t: PageIdView| base.contains(t) <==> (!ids_of(pages).contains(t)
                        && below_some(pages, i as int, t)),
                    forall|t: PageIdView| id_views(out@).contains(t) <==> (base.contains(t) || (!ids_of(pages).contains(t)
                        && among_first(ancestors@, m as int, t))),
                decreases ancestors@.len() - m,
            {
                let a = &ancestors[m];
                let found = position_of(&self.pages, a);
                proof {
                    if let Some(ix) = found {
                        assert(ids_of(pages)[ix as int] == a@);
                    }
                }
                let ghost before = id_views(out@);
                if found.is_none() {
                    insert_sorted_id(&mut out, a.duplicate());
                }
                let ghost m0 = m as int;
                m = m + 1;
                proof {
                    assert forall|t: PageIdView| id_views(out@).contains(t) <==> (base.contains(t) || (!ids_of(pages).contains(t)
                        && among_first(ancestors@, m as int, t))) by {
                        assert(before.contains(t) <==> (base.contains(t) || (!ids_of(pages).contains(t) && among_first(ancestors@, m0, t))));
                        assert(found is None ==> (id_views(out@).contains(t) <==> (before.contains(t) || t == ancestors@[m0]@)));
                        assert(found is Some ==> id_views(out@) == before);
                        assert(found is Some ==> ids_of(pages).contains(ancestors@[m0]@));
                        if among_first(ancestors@, m as int, t) {
                            let j = choose|j: int| 0 <= j < m && #[trigger] ancestors@[j]@ == t;
                            if j < m0 {
                                assert(among_first(ancestors@, m0, t));
                            }
                        }
                        if among_first(ancestors@, m0, t) {
                            let j = choose|j: int| 0 <= j < m0 && #[trigger] ancestors@[j]@ == t;
                            assert(ancestors@[j]@ == t);
                        }
                        if ancestors@[m0]@ == t {
                            assert(among_first(ancestors@, m as int, t));
                        }
                    }
                }
            }
            let ghost i0 = i as int;
            i = i + 1;
            proof {
                assert forall|t: PageIdView| id_views(out@).contains(t) <==> (!ids_of(pages).contains(t)
                    && below_some(pages, i as int, t)) by {
                    if among_first(ancestors@, ancestors@.len() as int, t) {
                        let j = choose|j: int| 0 <= j < ancestors@.len() && #[trigger] ancestors@[j]@ == t;
                        assert(ancestor_view(v, j + 1) == t);
                        assert(below(v, t));
                    }
                    if below(v, t) {
                        let k = choose|k: int| 1 <= k < v.segments.len() && t == #[trigger] ancestor_view(v, k);
                        assert(ancestors@[k - 1]@ == t);
                        assert(among_first(ancestors@, ancestors@.len() as int, t));
                    }
                    if below_some(pages, i as int, t) {
                        let i2 = choose|i2: int| 0 <= i2 < i && #[trigger] below(pages[i2].page_id@, t);
                        if i2 < i0 {
                            assert(below_some(pages, i0, t));
                        }
                    }
                    if below_some(pages, i0, t) {
                        let i2 = choose|i2: int| 0 <= i2 < i0 && #[trigger] below(pages[i2].page_id@, t);
                        assert(below(pages[i2].page_id@, t));
                    }
                    if below(pages[i0].page_id@, t) {
                        assert(below_some(pages, i as int, t));
                    }
                }
            }
        }
        out
    }

    /// A cache of `pages`; a later page replaces an earlier one with the same
    /// identity. Children and incoming references are rebuilt from scratch: each
    /// page's incoming references are those of all pages, page after page in identity
    /// order.
    pub fn from_pages(pages: Vec<Page>) -> (r: Self)
        ensures
            forall|t: PageIdView| ids_of(r.page_list()).contains(t) <==> ids_of(pages@).contains(t),
            forall|t: PageIdView|
                #![trigger lookup(r.page_list(), t)]
                ids_of(pages@).contains(t) ==> (lookup(r.page_list(), t) matches Some(q) && lookup(
                    pages@,
                    t,
                ) matches Some(o) && same_content(q, o) && incoming_views(q.incoming_refs@)
                    == all_refs_into(r.page_list(), t)),
            refs_consistent(r.page_list()),
            cache_ok(r.page_list()),
    {
        let ghost input = pages@;
        let mut rev = reverse_vec(pages);
        let mut list: Vec<Page> = Vec::new();
        let mut n: usize = 0;
        let total = rev.len();
        proof {
            assert(input.take(0) =~= Seq::<Page>::empty());
            assert(ids_of(list@) =~= Seq::<PageIdView>::empty());
        }
        while rev.len() > 0
            invariant
                rev@.len() + n == input.len(),
                input.len() == total,
                forall|m: int| 0 <= m < rev@.len() ==> #[trigger] rev@[m] == input[input.len() - 1 - m],
                sorted_ids(ids_of(list@)),
                forall|t: PageIdView| ids_of(list@).contains(t) <==> ids_of(input.take(n as int)).contains(t),
                forall|t: PageIdView|
                    #![trigger lookup(list@, t)]
                    ids_of(input.take(n as int)).contains(t) ==> (lookup(list@, t) matches Some(q)
                        && lookup(input.take(n as int), t) matches Some(o) && same_content(q, o)),
                forall|j: int| 0 <= j < list@.len() ==> (#[trigger] list@[j]).child_page_ids@.len() == 0,
                forall|j: int| 0 <= j < list@.len() ==> (#[trigger] list@[j]).incoming_refs@.len() == 0,
            decreases rev@.len(),
        {
            let mut p = rev.pop().unwrap();
            assert(p == input[n as int]);
            p.child_page_ids = Vec::new();
            p.incoming_refs = Vec::new();
            let ghost before = list@;
            let ghost pv = p;
            let ghost id = p.page_id@;
            match position_of(&list, &p.page_id) {
                Some(j) => {
                    list.remove(j);
                    list.insert(j, p);
                    proof {
                        assert(list@ =~= before.update(j as int, pv));
                        lemma_lookup_update(before, j as int, pv);
                        assert(ids_of(before)[j as int] == id);
                    }
                },
                None => {
                    let k = insert_position(&list, &p.page_id);
                    list.insert(k, p);
                    proof {
                        assert(ids_of(list@) =~= ids_of(before).insert(k as int, id));
                        lemma_sorted_insert(ids_of(before), k as int, id);
                        lemma_lookup_insert(before, k as int, pv);
                        let ins = ids_of(before).insert(k as int, id);
                        assert forall|t: PageIdView| ins.contains(t) <==> (ids_of(before).contains(t) || t == id) by {
                            assert(ins[k as int] == id);
                            if ids_of(before).contains(t) {
                                let j = choose|j: int| 0 <= j < ids_of(before).len() && ids_of(before)[j] == t;
                                if j < k {
                                    assert(ins[j] == t);
                                } else {
                                    assert(ins[j + 1] == t);
                                }
                            }
                            if ins.contains(t) {
                                let j = choose|j: int| 0 <= j < ins.len() && ins[j] == t;
                                if j < k {
                                    assert(ids_of(before)[j] == t);
                                } else if j > k {
                                    assert(ids_of(before)[j - 1] == t);
                                }
                            }
                        }
                    }
                },
            }
            proof {
                let tk = input.take(n + 1);
                assert(tk.drop_last() =~= input.take(n as int));
                assert(tk.last() == input[n as int]);
                assert(ids_of(tk) =~= ids_of(input.take(n as int)).push(input[n as int].page_id@));
                assert forall|t: PageIdView| ids_of(list@).contains(t) <==> ids_of(tk).contains(t) by {
                    if ids_of(input.take(n as int)).contains(t) {
                        let j = choose|j: int| 0 <= j < ids_of(input.take(n as int)).len() && ids_of(input.take(n as int))[j] == t;
                        assert(ids_of(tk)[j] == t);
                    }
                    if ids_of(tk).contains(t) {
                        let j = choose|j: int| 0 <= j < ids_of(tk).len() && ids_of(tk)[j] == t;
                        if j < n {
                            assert(ids_of(input.take(n as int))[j] == t);
                        }
                    }
                    if t == id {
                        assert(ids_of(tk)[n as int] == t);
                    }
                }
                assert forall|t: PageIdView|
                    #![trigger lookup(list@, t)]
                    ids_of(tk).contains(t) implies (lookup(list@, t) matches Some(q) && lookup(tk, t) matches Some(o)
                        && same_content(q, o)) by {
                    if t != id {
                        let j = choose|j: int| 0 <= j < ids_of(tk).len() && ids_of(tk)[j] == t;
                        assert(j < n);
                        assert(ids_of(input.take(n as int))[j] == t);
                        assert(lookup(list@, t) == lookup(before, t));
                    }
                }
            }
            n = n + 1;
        }
        proof {
            assert(input.take(input.len() as int) =~= input);
        }
        let ghost collected = list@;
        let mut x: usize = 0;
        while x < list.len()
            invariant
                x <= list@.len(),
                list@.len() == collected.len(),
                ids_of(list@) == ids_of(collected),
                forall|j: int| 0 <= j < list@.len() ==> #[trigger] same_content(list@[j], collected[j]),
                forall|j: int| 0 <= j < list@.len() ==> (#[trigger] list@[j]).incoming_refs == collected[j].incoming_refs,
                forall|j: int| 0 <= j < x ==> id_views(#[trigger] list@[j].child_page_ids@) == children_of(
                    ids_of(collected),
                    collected[j].page_id@,
                ),
            decreases list@.len() - x,
        {
            let ghost before = list@;
            refresh_children_at(&mut list, x);
            proof {
                assert forall|j: int| 0 <= j < list@.len() implies #[trigger] same_content(list@[j], collected[j]) by {
                    assert(same_content(before[j], collected[j]));
                    if j != x {
                        assert(list@[j] == before[j]);
                    }
                }
                assert forall|j: int| 0 <= j < list@.len() implies (#[trigger] list@[j]).incoming_refs == collected[j].incoming_refs by {
                    if j != x {
                        assert(list@[j] == before[j]);
                    }
                }
                assert forall|j: int| 0 <= j < x + 1 implies id_views(#[trigger] list@[j].child_page_ids@) == children_of(
                    ids_of(collected),
                    collected[j].page_id@,
                ) by {
                    assert(same_content(before[j], collected[j]));
                    if j != x {
                        assert(list@[j] == before[j]);
                    } else {
                        assert(ids_of(before) == ids_of(collected));
                    }
                }
            }
            x = x + 1;
        }
        let ghost structured = list@;
        let mut incs: Vec<Vec<IncomingRef>> = Vec::new();
        let mut y: usize = 0;
        while y < list.len()
            invariant
                y <= list@.len(),
                list@ == structured,
                incs@.len() == y,
                forall|j: int| 0 <= j < y ==> incoming_views((#[trigger] incs@[j])@) == all_refs_into(
                    structured,
                    structured[j].page_id@,
                ),
            decreases list@.len() - y,
        {
            incs.push(refs_into_all(&list, &list[y].page_id));
            y = y + 1;
        }
        let mut z: usize = 0;
        while z < list.len()
            invariant
                z <= list@.len(),
                list@.len() == structured.len(),
                incs@.len() == structured.len(),
                forall|j: int| 0 <= j < incs@.len() ==> incoming_views((#[trigger] incs@[j])@) == all_refs_into(
                    structured,
                    structured[j].page_id@,
                ),
                forall|j: int| 0 <= j < list@.len() ==> #[trigger] same_content(list@[j], structured[j]),
                forall|j: int| 0 <= j < list@.len() ==> (#[trigger] list@[j]).child_page_ids == structured[j].child_page_ids,
                forall|j: int| z <= j < list@.len() ==> #[trigger] list@[j] == structured[j],
                forall|j: int| 0 <= j < z ==> incoming_views((#[trigger] list@[j]).incoming_refs@) == all_refs_into(
                    structured,
                    structured[j].page_id@,
                ),
            decreases list@.len() - z,
        {
            let ghost before = list@;
            let refs = duplicate_incoming(&incs[z]);
            let mut q = list.remove(z);
            q.incoming_refs = refs;
            list.insert(z, q);
            proof {
                assert(list@ =~= before.update(z as int, q));
            }
            z = z + 1;
        }
        proof {
            let fin = list@;
            assert(ids_of(fin) =~= ids_of(collected)) by {
                assert forall|j: int| 0 <= j < fin.len() implies #[trigger] ids_of(fin)[j] == ids_of(collected)[j] by {
                    assert(same_content(fin[j], structured[j]));
                    assert(same_content(structured[j], collected[j]));
                }
            }
            assert forall|x2: int| 0 <= x2 < fin.len() implies id_views(#[trigger] fin[x2].child_page_ids@)
                == children_of(ids_of(fin), fin[x2].page_id@) by {
                assert(fin[x2].child_page_ids == structured[x2].child_page_ids);
                assert(same_content(fin[x2], structured[x2]));
                assert(same_content(structured[x2], collected[x2]));
            }
            assert forall|t: PageIdView| ids_of(fin).contains(t) <==> ids_of(input).contains(t) by {
            }
            assert forall|t: PageIdView|
                #![trigger lookup(fin, t)]
                ids_of(input).contains(t) implies (lookup(fin, t) matches Some(q) && lookup(
                    input,
                    t,
                ) matches Some(o) && same_content(q, o) && incoming_views(q.incoming_refs@)
                    == all_refs_into(fin, t)) by {
                assert(ids_of(collected).contains(t));
                let j = choose|j: int| 0 <= j < ids_of(collected).len() && ids_of(collected)[j] == t;
                lemma_lookup_at(collected, j);
                assert(lookup(collected, t) matches Some(q) && lookup(input, t) matches Some(o) && same_content(q, o));
                assert(ids_of(fin)[j] == t);
                lemma_lookup_at(fin, j);
                assert(same_content(fin[j], structured[j]));
                assert(same_content(structured[j], collected[j]));
                assert forall|i: int| 0 <= i < fin.len() implies #[trigger] same_content(fin[i], structured[i]) by {
                }
                lemma_all_refs_into_content(fin, structured, t);
                assert(structured[j].page_id@ == t);
            }
            assert forall|x2: int| 0 <= x2 < fin.len() implies (#[trigger] incoming_views(fin[x2].incoming_refs@)).to_multiset()
                == all_refs_into(fin, fin[x2].page_id@).to_multiset() by {
                assert(same_content(fin[x2], structured[x2]));
                assert forall|i: int| 0 <= i < fin.len() implies #[trigger] same_content(fin[i], structured[i]) by {
                }
                lemma_all_refs_into_content(fin, structured, fin[x2].page_id@);
            }
        }
        let r = WorkspaceCache { pages: list };
        proof {
            use_type_invariant(&r);
        }
        r
    }
}


proof fn lemma_targeting_from(s: Seq<(PageIdView, IncomingRefView)>, t: PageIdView, x: IncomingRefView)
    requires
        targeting(s, t).contains(x),
    ensures
        exists|j: int| 0 <= j < s.len() && (#[trigger] s[j]).1 == x,
    decreases s.len(),
{
    let pre = s.drop_last();
    let tail = if s.last().0 == t {
        seq![s.last().1]
    } else {
        Seq::<IncomingRefView>::empty()
    };
    let k = choose|k: int| 0 <= k < targeting(s, t).len() && targeting(s, t)[k] == x;
    if k < targeting(pre, t).len() {
        assert(targeting(pre, t)[k] == x);
        lemma_targeting_from(pre, t, x);
        let j = choose|j: int| 0 <= j < pre.len() && (#[trigger] pre[j]).1 == x;
        assert(s[j] == pre[j]);
    } else {
        assert(tail[k - targeting(pre, t).len()] == x);
        assert(s[s.len() - 1] == s.last());
    }
}

proof fn lemma_all_refs_sources(pages: Seq<Page>, t: PageIdView, x: IncomingRefView)
    requires
        all_refs_into(pages, t).contains(x),
    ensures
        ids_of(pages).contains(x.source),
    decreases pages.len(),
{
    let pre = pages.drop_last();
    let k = choose|k: int| 0 <= k < all_refs_into(pages, t).len() && all_refs_into(pages, t)[k] == x;
    if k < all_refs_into(pre, t).len() {
        assert(all_refs_into(pre, t)[k] == x);
        lemma_all_refs_sources(pre, t, x);
        let j = choose|j: int| 0 <= j < ids_of(pre).len() && ids_of(pre)[j] == x.source;
        assert(ids_of(pages)[j] == x.source);
    } else {
        let p = pages.last();
        assert(targeting(page_incoming(p), t)[k - all_refs_into(pre, t).len()] == x);
        lemma_targeting_from(page_incoming(p), t, x);
        let j = choose|j: int| 0 <= j < page_incoming(p).len() && (#[trigger] page_incoming(p)[j]).1 == x;
        lemma_blocks_incoming_source(p.page_id@, p.fingerprint, flatten_forest(forest_view(p.blocks@)));
        assert(ids_of(pages)[pages.len() - 1] == p.page_id@);
    }
}

proof fn lemma_without_source_keeps(refs: Seq<IncomingRefView>, src: PageIdView)
    requires
        forall|i: int| 0 <= i < refs.len() ==> (#[trigger] refs[i]).source != src,
    ensures
        without_source(refs, src) == refs,
    decreases refs.len(),
{
    if refs.len() > 0 {
        let pre = refs.drop_last();
        assert forall|i: int| 0 <= i < pre.len() implies (#[trigger] pre[i]).source != src by {
            assert(pre[i] == refs[i]);
        }
        lemma_without_source_keeps(pre, src);
        assert(refs.last() == refs[refs.len() - 1]);
        assert(without_source(refs, src) =~= refs);
    }
}

proof fn lemma_sorted_ids_same(a: Seq<PageIdView>, b: Seq<PageIdView>)
    requires
        sorted_ids(a),
        sorted_ids(b),
        forall|t: PageIdView| a.contains(t) <==> b.contains(t),
    ensures
        a == b,
    decreases a.len(),
{
    if a.len() == 0 {
        if b.len() > 0 {
            assert(b.contains(b[0]));
        }
        assert(a =~= b);
    } else if b.len() == 0 {
        assert(a.contains(a[0]));
    } else {
        assert(a.contains(a[0]));
        assert(b.contains(b[0]));
        let j = choose|j: int| 0 <= j < b.len() && b[j] == a[0];
        let i = choose|i: int| 0 <= i < a.len() && a[i] == b[0];
        lemma_id_lt_order(a[0], b[0], a[0]);
        if j > 0 {
            assert(id_lt(b[0], b[j]));
            if i > 0 {
                assert(id_lt(a[0], a[i]));
                lemma_id_lt_order(a[0], b[0], b[j]);
            }
        }
        assert(a[0] == b[0]);
        let ra = a.drop_first();
        let rb = b.drop_first();
        assert forall|t: PageIdView| ra.contains(t) <==> rb.contains(t) by {
            if ra.contains(t) {
                let x = choose|x: int| 0 <= x < ra.len() && ra[x] == t;
                assert(a[x + 1] == t);
                assert(id_lt(a[0], a[x + 1]));
                assert(b.contains(t));
                let y = choose|y: int| 0 <= y < b.len() && b[y] == t;
                if y == 0 {
                    lemma_id_lt_order(t, t, t);
                }
                assert(rb[y - 1] == t);
            }
            if rb.contains(t) {
                let x = choose|x: int| 0 <= x < rb.len() && rb[x] == t;
                assert(b[x + 1] == t);
                assert(id_lt(b[0], b[x + 1]));
                assert(a.contains(t));
                let y = choose|y: int| 0 <= y < a.len() && a[y] == t;
                if y == 0 {
                    lemma_id_lt_order(t, t, t);
                }
                assert(ra[y - 1] == t);
            }
        }
        assert forall|i: int, j: int| 0 <= i < j < ra.len() implies id_lt(#[trigger] ra[i], #[trigger] ra[j]) by {
            assert(id_lt(a[i + 1], a[j + 1]));
        }
        assert forall|i: int, j: int| 0 <= i < j < rb.len() implies id_lt(#[trigger] rb[i], #[trigger] rb[j]) by {
            assert(id_lt(b[i + 1], b[j + 1]));
        }
        lemma_sorted_ids_same(ra, rb);
        assert(a =~= seq![a[0]] + ra);
        assert(b =~= seq![b[0]] + rb);
    }
}

/// Removing an identity that a consistent cache does not hold changes nothing:
/// nothing is returned, the identities stay, and every page keeps its content, its
/// child pages and its incoming references.
pub proof fn law_remove_absent(old: Seq<Page>, new: Seq<Page>, id: PageIdView, r: Option<Page>)
    requires
        removed(old, new, id, r),
        !ids_of(old).contains(id),
        refs_consistent(old),
        cache_ok(old),
        cache_ok(new),
    ensures
        r is None,
        ids_of(new) == ids_of(old),
        forall|t: PageIdView|
            #![trigger lookup(new, t)]
            ids_of(old).contains(t) ==> (lookup(new, t) matches Some(n) && lookup(old, t) matches Some(o) && same_content(
                n,
                o,
            ) && incoming_views(n.incoming_refs@) == incoming_views(o.incoming_refs@) && id_views(n.child_page_ids@)
                == id_views(o.child_page_ids@)),
{
    lemma_sorted_ids_same(ids_of(new), ids_of(old));
    assert forall|t: PageIdView|
        #![trigger lookup(new, t)]
        ids_of(old).contains(t) implies (lookup(new, t) matches Some(n) && lookup(old, t) matches Some(o) && same_content(
            n,
            o,
        ) && incoming_views(n.incoming_refs@) == incoming_views(o.incoming_refs@) && id_views(n.child_page_ids@)
            == id_views(o.child_page_ids@)) by {
        assert(t != id);
        let n = lookup(new, t)->0;
        let o = lookup(old, t)->0;
        lemma_lookup_some(old, t);
        lemma_lookup_some(new, t);
        let x = choose|x: int| 0 <= x < old.len() && old[x] == o && #[trigger] old[x].page_id@ == t;
        let y = choose|y: int| 0 <= y < new.len() && new[y] == n && #[trigger] new[y].page_id@ == t;
        let inc = incoming_views(o.incoming_refs@);
        assert(inc.to_multiset() == all_refs_into(old, t).to_multiset()) by {
            assert(incoming_views(old[x].incoming_refs@).to_multiset() == all_refs_into(old, old[x].page_id@).to_multiset());
        }
        assert forall|i: int| 0 <= i < inc.len() implies (#[trigger] inc[i]).source != id by {
            inc.to_multiset_ensures();
            all_refs_into(old, t).to_multiset_ensures();
            assert(inc.contains(inc[i]));
            assert(inc.to_multiset().count(inc[i]) > 0);
            assert(all_refs_into(old, t).to_multiset().count(inc[i]) > 0);
            assert(all_refs_into(old, t).contains(inc[i]));
            lemma_all_refs_sources(old, t, inc[i]);
        }
        lemma_without_source_keeps(inc, id);
        assert(ids_of(old)[x] == t);
        assert(ids_of(new)[y] == t);
    }
}

} // verus!
