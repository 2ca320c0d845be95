//! Parsed markdown blocks and the page references they hold.

use vstd::prelude::*;

use super::page::FileFingerprint;
use super::page_id::{PageId, PageIdView};
use super::span::SourceSpan;

verus! {

#[derive(Debug, Clone, Copy, PartialEq, Eq, Structural)]
pub enum PlaintextKind {
    Explicit,
    Implicit,
}

#[derive(Debug, Clone, Copy, PartialEq, Eq, Structural)]
pub enum BlockKind {
    Outliner,
    Plaintext(PlaintextKind),
}

/// A reference to a page, found at `ref_span` of a page's text.
#[derive(Debug, Clone, PartialEq, Eq)]
pub struct PageRefOccurrence {
    pub target_page_id: PageId,
    pub ref_span: SourceSpan,
}

/// The value of a page reference.
pub struct RefView {
    pub target: PageIdView,
    pub start: int,
    pub end: int,
}

impl View for PageRefOccurrence {
    type V = RefView;

    open spec fn view(&self) -> RefView {
        RefView {
            target: self.target_page_id@,
            start: self.ref_span.lo() as int,
            end: self.ref_span.hi() as int,
        }
    }
}

/// The value of a block tree.
pub struct BlockView {
    pub kind: BlockKind,
    pub block_start: int,
    pub block_end: int,
    pub content_start: int,
    pub content_end: int,
    pub children: Seq<BlockView>,
    pub refs: Seq<RefView>,
}

/// A block of a page: its whole span, the span of its own content, nested child
/// blocks and the references in its content.
#[derive(Debug, PartialEq, Eq)]
pub struct Block {
    pub kind: BlockKind,
    pub block_span: SourceSpan,
    pub content_span: SourceSpan,
    pub children: Vec<Block>,
    pub outgoing_refs: Vec<PageRefOccurrence>,
}

pub open spec fn refs_view(refs: Seq<PageRefOccurrence>) -> Seq<RefView> {
    refs.map_values(|r: PageRefOccurrence| r@)
}

/// The value of a block.
pub open spec fn block_view(b: Block) -> BlockView
    decreases b,
{
    BlockView {
        kind: b.kind,
        block_start: b.block_span.lo() as int,
        block_end: b.block_span.hi() as int,
        content_start: b.content_span.lo() as int,
        content_end: b.content_span.hi() as int,
        children: Seq::new(
            b.children@.len(),
            |i: int|
                if 0 <= i < b.children@.len() {
                    block_view(b.children@[i])
                } else {
                    arbitrary()
                },
        ),
        refs: refs_view(b.outgoing_refs@),
    }
}

impl Clone for Block {
    fn clone(&self) -> (r: Self)
        ensures
            block_view(r) == block_view(*self),
    {
        self.duplicate()
    }
}

impl PageRefOccurrence {
    pub fn new(target_page_id: PageId, ref_span: SourceSpan) -> (r: Self)
        ensures
            r.target_page_id@ == target_page_id@,
            r.ref_span == ref_span,
    {
        PageRefOccurrence { target_page_id, ref_span }
    }

    /// A copy with the same value.
    pub fn duplicate(&self) -> (r: Self)
        ensures
            r@ == self@,
    {
        PageRefOccurrence { target_page_id: self.target_page_id.duplicate(), ref_span: self.ref_span }
    }
}

/// Copies of the references.
pub fn duplicate_refs(refs: &Vec<PageRefOccurrence>) -> (r: Vec<PageRefOccurrence>)
    ensures
        refs_view(r@) == refs_view(refs@),
{
    let mut r: Vec<PageRefOccurrence> = Vec::new();
    let mut i: usize = 0;
    while i < refs.len()
        invariant
            i <= refs@.len(),
            refs_view(r@) == refs_view(refs@).take(i as int),
        decreases refs@.len() - i,
    {
        let d = refs[i].duplicate();
        let ghost old_r = r@;
        r.push(d);
        proof {
            assert(refs_view(r@) =~= refs_view(old_r).push(d@));
            assert(refs_view(refs@).take(i + 1) =~= refs_view(refs@).take(i as int).push(
                refs@[i as int]@,
            ));
        }
        i = i + 1;
    }
    assert(refs_view(refs@).take(refs@.len() as int) =~= refs_view(refs@));
    r
}

impl Block {
    /// A copy of the whole tree.
    pub fn duplicate(&self) -> (r: Self)
        ensures
            block_view(r) == block_view(*self),
        decreases *self,
    {
        let mut children: Vec<Block> = Vec::new();
        let mut i: usize = 0;
        while i < self.children.len()
            invariant
                i <= self.children@.len(),
                children@.len() == i,
                forall|j: int| 0 <= j < i ==> block_view(#[trigger] children@[j]) == block_view(
                    self.children@[j],
                ),
            decreases self.children@.len() - i,
        {
            let c = self.children[i].duplicate();
            children.push(c);
            i = i + 1;
        }
        let r = Block {
            kind: self.kind,
            block_span: self.block_span,
            content_span: self.content_span,
            children,
            outgoing_refs: duplicate_refs(&self.outgoing_refs),
        };
        assert(block_view(r).children =~= block_view(*self).children);
        r
    }
}

/// The blocks of a tree in source order: the root, then each child's tree.
pub open spec fn flatten_tree(b: BlockView) -> Seq<BlockView>
    decreases b, 1int,
{
    seq![b] + flatten_forest(b.children)
}

/// The trees of a forest flattened one after another.
pub open spec fn flatten_forest(s: Seq<BlockView>) -> Seq<BlockView>
    decreases s, 0int,
{
    if s.len() == 0 {
        seq![]
    } else {
        flatten_tree(s[0]) + flatten_forest(s.drop_first())
    }
}

/// All references of a sequence of blocks, block after block.
pub open spec fn refs_of(s: Seq<BlockView>) -> Seq<RefView>
    decreases s.len(),
{
    if s.len() == 0 {
        seq![]
    } else {
        s[0].refs + refs_of(s.drop_first())
    }
}

/// The first block of `s` whose whole span is `[lo, hi)`, or `-1`.
pub open spec fn first_span_match(s: Seq<BlockView>, lo: int, hi: int) -> int
    decreases s.len(),
{
    if s.len() == 0 {
        -1
    } else if s[0].block_start == lo && s[0].block_end == hi {
        0
    } else if first_span_match(s.drop_first(), lo, hi) < 0 {
        -1
    } else {
        1 + first_span_match(s.drop_first(), lo, hi)
    }
}

pub proof fn lemma_flatten_forest_push(s: Seq<BlockView>, b: BlockView)
    ensures
        flatten_forest(s.push(b)) == flatten_forest(s) + flatten_tree(b),
    decreases s.len(),
{
    if s.len() == 0 {
        assert(s.push(b).drop_first() =~= Seq::<BlockView>::empty());
        assert(s.push(b)[0] == b);
        assert(flatten_forest(Seq::<BlockView>::empty()) =~= Seq::<BlockView>::empty());
        assert(flatten_forest(s) =~= Seq::<BlockView>::empty());
        assert(flatten_forest(s.push(b)) =~= flatten_tree(b) + Seq::<BlockView>::empty());
        assert(flatten_tree(b) + Seq::<BlockView>::empty() =~= flatten_tree(b));
    } else {
        assert(s.push(b).drop_first() =~= s.drop_first().push(b));
        lemma_flatten_forest_push(s.drop_first(), b);
        assert(flatten_forest(s.push(b)) =~= flatten_forest(s) + flatten_tree(b));
    }
}

pub proof fn lemma_refs_of_concat(a: Seq<BlockView>, c: Seq<BlockView>)
    ensures
        refs_of(a + c) == refs_of(a) + refs_of(c),
    decreases a.len(),
{
    if a.len() == 0 {
        assert(a + c =~= c);
        assert(refs_of(a) + refs_of(c) =~= refs_of(c));
    } else {
        assert((a + c).drop_first() =~= a.drop_first() + c);
        lemma_refs_of_concat(a.drop_first(), c);
        assert(refs_of(a + c) =~= refs_of(a) + refs_of(c));
    }
}

pub proof fn lemma_first_span_match_concat(a: Seq<BlockView>, c: Seq<BlockView>, lo: int, hi: int)
    ensures
        first_span_match(a, lo, hi) >= 0 ==> first_span_match(a + c, lo, hi) == first_span_match(
            a,
            lo,
            hi,
        ),
        first_span_match(a, lo, hi) < 0 ==> first_span_match(a + c, lo, hi) == (if first_span_match(
            c,
            lo,
            hi,
        ) < 0 {
            -1
        } else {
            a.len() + first_span_match(c, lo, hi)
        }),
    decreases a.len(),
{
    if a.len() == 0 {
        assert(a + c =~= c);
    } else {
        assert((a + c).drop_first() =~= a.drop_first() + c);
        lemma_first_span_match_concat(a.drop_first(), c, lo, hi);
    }
}

pub proof fn lemma_first_span_match_at(s: Seq<BlockView>, lo: int, hi: int, k: int)
    requires
        0 <= k < s.len(),
        s[k].block_start == lo && s[k].block_end == hi,
        forall|j: int| 0 <= j < k ==> !(#[trigger] s[j].block_start == lo && s[j].block_end == hi),
    ensures
        first_span_match(s, lo, hi) == k,
    decreases k,
{
    if k > 0 {
        assert forall|j: int| 0 <= j < k - 1 implies !(#[trigger] s.drop_first()[j].block_start == lo
            && s.drop_first()[j].block_end == hi) by {
            assert(s.drop_first()[j] == s[j + 1]);
        }
        assert(s.drop_first()[k - 1] == s[k]);
        lemma_first_span_match_at(s.drop_first(), lo, hi, k - 1);
        assert(!(s[0].block_start == lo && s[0].block_end == hi));
    }
}

pub proof fn lemma_first_span_match_none(s: Seq<BlockView>, lo: int, hi: int)
    requires
        forall|j: int|
            0 <= j < s.len() ==> !(#[trigger] s[j].block_start == lo && s[j].block_end == hi),
    ensures
        first_span_match(s, lo, hi) == -1,
    decreases s.len(),
{
    if s.len() > 0 {
        assert forall|j: int| 0 <= j < s.len() - 1 implies !(#[trigger] s.drop_first()[j].block_start
            == lo && s.drop_first()[j].block_end == hi) by {
            assert(s.drop_first()[j] == s[j + 1]);
        }
        lemma_first_span_match_none(s.drop_first(), lo, hi);
        assert(!(s[0].block_start == lo && s[0].block_end == hi));
    }
}

pub proof fn lemma_first_span_match_range(s: Seq<BlockView>, lo: int, hi: int)
    ensures
        -1 <= first_span_match(s, lo, hi) < s.len(),
        first_span_match(s, lo, hi) >= 0 ==> s[first_span_match(s, lo, hi)].block_start == lo
            && s[first_span_match(s, lo, hi)].block_end == hi,
    decreases s.len(),
{
    if s.len() > 0 {
        lemma_first_span_match_range(s.drop_first(), lo, hi);
    }
}

impl Block {
    /// A block with the given parts.
    pub fn new(
        kind: BlockKind,
        block_span: SourceSpan,
        content_span: SourceSpan,
        children: Vec<Block>,
        outgoing_refs: Vec<PageRefOccurrence>,
    ) -> (r: Self)
        ensures
            r == (Block { kind, block_span, content_span, children, outgoing_refs }),
    {
        Block { kind, block_span, content_span, children, outgoing_refs }
    }

    /// A block without children or references.
    pub fn leaf(kind: BlockKind, block_span: SourceSpan, content_span: SourceSpan) -> (r: Self)
        ensures
            r.kind == kind,
            r.block_span == block_span,
            r.content_span == content_span,
            r.children@.len() == 0,
            r.outgoing_refs@.len() == 0,
    {
        Self::new(kind, block_span, content_span, Vec::new(), Vec::new())
    }

    pub fn outliner(block_span: SourceSpan, content_span: SourceSpan) -> (r: Self)
        ensures
            r.kind == BlockKind::Outliner,
            r.block_span == block_span,
            r.content_span == content_span,
            r.children@.len() == 0,
            r.outgoing_refs@.len() == 0,
    {
        Self::leaf(BlockKind::Outliner, block_span, content_span)
    }

    pub fn explicit_plaintext(block_span: SourceSpan, content_span: SourceSpan) -> (r: Self)
        ensures
            r.kind == BlockKind::Plaintext(PlaintextKind::Explicit),
            r.block_span == block_span,
            r.content_span == content_span,
            r.children@.len() == 0,
            r.outgoing_refs@.len() == 0,
    {
        Self::leaf(BlockKind::Plaintext(PlaintextKind::Explicit), block_span, content_span)
    }

    pub fn implicit_plaintext(block_span: SourceSpan, content_span: SourceSpan) -> (r: Self)
        ensures
            r.kind == BlockKind::Plaintext(PlaintextKind::Implicit),
            r.block_span == block_span,
            r.content_span == content_span,
            r.children@.len() == 0,
            r.outgoing_refs@.len() == 0,
    {
        Self::leaf(BlockKind::Plaintext(PlaintextKind::Implicit), block_span, content_span)
    }

    /// Appends this tree's blocks in source order to `out`.
    fn collect_tree<'a>(&'a self, out: &mut Vec<&'a Block>)
        ensures
            views_of(final(out)@) == views_of(old(out)@) + flatten_tree(block_view(*self)),
        decreases *self,
    {
        let ghost start = views_of(out@);
        out.push(self);
        proof {
            assert(views_of(out@) =~= start + seq![block_view(*self)]);
        }
        let mut i: usize = 0;
        while i < self.children.len()
            invariant
                i <= self.children@.len(),
                views_of(out@) == start + seq![block_view(*self)] + flatten_forest(
                    block_view(*self).children.take(i as int),
                ),
            decreases self.children@.len() - i,
        {
            let ghost kids = block_view(*self).children;
            self.children[i].collect_tree(out);
            proof {
                assert(kids[i as int] == block_view(self.children@[i as int]));
                assert(kids.take(i + 1) =~= kids.take(i as int).push(kids[i as int]));
                lemma_flatten_forest_push(kids.take(i as int), kids[i as int]);
            }
            i = i + 1;
        }
        proof {
            let kids = block_view(*self).children;
            assert(kids.take(self.children@.len() as int) =~= kids);
        }
    }

    /// The blocks of this tree in source order: the block, then its children's trees.
    pub fn walk_blocks(&self) -> (r: Vec<&Block>)
        ensures
            views_of(r@) == flatten_tree(block_view(*self)),
    {
        let mut out: Vec<&Block> = Vec::new();
        self.collect_tree(&mut out);
        assert(views_of(Seq::<&Block>::empty()) =~= Seq::<BlockView>::empty());
        assert(Seq::<BlockView>::empty() + flatten_tree(block_view(*self)) =~= flatten_tree(
            block_view(*self),
        ));
        out
    }

    /// A walker over this tree in source order.
    pub fn walk(&self) -> (r: BlockWalk<'_>)
        ensures
            r.stack@.len() == 1,
            r.stack@[0] == self,
    {
        let mut stack: Vec<&Block> = Vec::new();
        stack.push(self);
        BlockWalk { stack }
    }

    /// All references of this tree, block after block in source order.
    pub fn outgoing_refs_recursive(&self) -> (r: Vec<PageRefOccurrence>)
        ensures
            refs_view(r@) == refs_of(flatten_tree(block_view(*self))),
    {
        let blocks = self.walk_blocks();
        let ghost fl = views_of(blocks@);
        let mut out: Vec<PageRefOccurrence> = Vec::new();
        let mut i: usize = 0;
        while i < blocks.len()
            invariant
                i <= blocks@.len(),
                fl == views_of(blocks@),
                refs_view(out@) == refs_of(fl.take(i as int)),
            decreases blocks@.len() - i,
        {
            let b = blocks[i];
            let mut j: usize = 0;
            let ghost before = refs_view(out@);
            while j < b.outgoing_refs.len()
                invariant
                    j <= b.outgoing_refs@.len(),
                    refs_view(out@) == before + refs_view(b.outgoing_refs@).take(j as int),
                decreases b.outgoing_refs@.len() - j,
            {
                let d = b.outgoing_refs[j].duplicate();
                let ghost o = out@;
                out.push(d);
                proof {
                    assert(refs_view(out@) =~= refs_view(o).push(d@));
                    assert(refs_view(b.outgoing_refs@).take(j + 1) =~= refs_view(
                        b.outgoing_refs@,
                    ).take(j as int).push(b.outgoing_refs@[j as int]@));
                }
                j = j + 1;
            }
            proof {
                assert(refs_view(b.outgoing_refs@).take(j as int) =~= refs_view(b.outgoing_refs@));
                assert(fl[i as int] == block_view(*b));
                assert(fl.take(i + 1) =~= fl.take(i as int) + seq![fl[i as int]]);
                lemma_refs_of_concat(fl.take(i as int), seq![fl[i as int]]);
                assert(seq![fl[i as int]].drop_first() =~= Seq::<BlockView>::empty());
                assert(refs_of(Seq::<BlockView>::empty()) =~= Seq::<RefView>::empty());
                assert(refs_of(seq![fl[i as int]]) =~= fl[i as int].refs + Seq::<RefView>::empty());
                assert(refs_of(seq![fl[i as int]]) =~= fl[i as int].refs);
            }
            i = i + 1;
        }
        assert(fl.take(blocks@.len() as int) =~= fl);
        out
    }

    /// The first block of this tree (in source order) whose whole span is `block_span`.
    pub fn find_by_span(&self, block_span: SourceSpan) -> (r: Option<&Block>)
        ensures
            r is None <==> first_span_match(
                flatten_tree(block_view(*self)),
                block_span.lo() as int,
                block_span.hi() as int,
            ) < 0,
            r matches Some(b) ==> block_view(*b) == flatten_tree(block_view(*self))[first_span_match(
                flatten_tree(block_view(*self)),
                block_span.lo() as int,
                block_span.hi() as int,
            )],
    {
        let blocks = self.walk_blocks();
        let ghost fl = views_of(blocks@);
        let lo = block_span.start();
        let hi = block_span.end();
        let mut i: usize = 0;
        while i < blocks.len()
            invariant
                i <= blocks@.len(),
                fl == views_of(blocks@),
                fl == flatten_tree(block_view(*self)),
                lo == block_span.lo(),
                hi == block_span.hi(),
                forall|j: int|
                    0 <= j < i ==> !(#[trigger] fl[j].block_start == lo as int && fl[j].block_end
                        == hi as int),
            decreases blocks@.len() - i,
        {
            let b = blocks[i];
            if b.block_span.start() == lo && b.block_span.end() == hi {
                proof {
                    assert(fl[i as int] == block_view(*b));
                    lemma_first_span_match_at(fl, lo as int, hi as int, i as int);
                }
                return Some(b);
            }
            proof {
                assert(fl[i as int] == block_view(*b));
            }
            i = i + 1;
        }
        proof {
            lemma_first_span_match_none(fl, lo as int, hi as int);
        }
        None
    }
}

/// The values of a sequence of blocks.
pub open spec fn views_of(s: Seq<&Block>) -> Seq<BlockView> {
    s.map_values(|b: &Block| block_view(*b))
}

/// A walker over a block tree that yields blocks in source order.
pub struct BlockWalk<'a> {
    pub stack: Vec<&'a Block>,
}

/// The children of `b`, last first: the order in which a walk stacks them so that
/// the first child comes out next.
pub open spec fn stacked_children<'a>(b: &'a Block) -> Seq<&'a Block> {
    Seq::new(b.children@.len(), |j: int| &b.children@[b.children@.len() - 1 - j])
}

impl<'a> BlockWalk<'a> {
    /// The next block: the top of the stack, whose children then go on the stack,
    /// last child first, so that blocks come out parent first, children in order.
    pub fn next(&mut self) -> (r: Option<&'a Block>)
        ensures
            old(self).stack@.len() == 0 ==> r is None && final(self).stack@.len() == 0,
            old(self).stack@.len() > 0 ==> r == Some(old(self).stack@.last()),
            old(self).stack@.len() > 0 ==> final(self).stack@ == old(self).stack@.drop_last() + stacked_children(
                old(self).stack@.last(),
            ),
    {
        match self.stack.pop() {
            None => None,
            Some(block) => {
                let ghost base = self.stack@;
                let n = block.children.len();
                let mut i = n;
                proof {
                    assert(base + Seq::<&Block>::empty() =~= base);
                }
                while i > 0
                    invariant
                        i <= n,
                        n == block.children@.len(),
                        self.stack@ == base + stacked_children(block).take(n - i),
                    decreases i,
                {
                    i = i - 1;
                    let ghost s = self.stack@;
                    self.stack.push(&block.children[i]);
                    proof {
                        assert(stacked_children(block).take(n - i) =~= stacked_children(block).take(n - i - 1).push(
                            &block.children@[i as int],
                        ));
                        assert(self.stack@ =~= base + stacked_children(block).take(n - i));
                    }
                }
                proof {
                    assert(stacked_children(block).take(n as int) =~= stacked_children(block));
                }
                Some(block)
            },
        }
    }
}

/// The blocks that a walk whose stack is `s` has still to yield: the tree of the
/// top of the stack in source order, then what lies below it.
pub open spec fn pending<'a>(s: Seq<&'a Block>) -> Seq<BlockView>
    decreases s.len(),
{
    if s.len() == 0 {
        seq![]
    } else {
        flatten_tree(block_view(*s.last())) + pending(s.drop_last())
    }
}

/// The children of `b` from the `k`-th on, last first.
spec fn stacked_from<'a>(b: &'a Block, k: int) -> Seq<&'a Block> {
    Seq::new((b.children@.len() - k) as nat, |j: int| &b.children@[b.children@.len() - 1 - j])
}

proof fn lemma_pending_concat<'a>(base: Seq<&'a Block>, top: Seq<&'a Block>)
    ensures
        pending(base + top) == pending(top) + pending(base),
    decreases top.len(),
{
    if top.len() == 0 {
        assert(base + top =~= base);
        assert(Seq::<BlockView>::empty() + pending(base) =~= pending(base));
    } else {
        lemma_pending_concat(base, top.drop_last());
        assert((base + top).drop_last() =~= base + top.drop_last());
        assert((base + top).last() == top.last());
        assert(pending(base + top) =~= pending(top) + pending(base));
    }
}

proof fn lemma_pending_children<'a>(b: &'a Block, k: int)
    requires
        0 <= k <= b.children@.len(),
    ensures
        pending(stacked_from(b, k)) == flatten_forest(block_view(*b).children.skip(k)),
    decreases b.children@.len() - k,
{
    let kids = block_view(*b).children;
    if k == b.children@.len() {
        assert(kids.skip(k) =~= Seq::<BlockView>::empty());
    } else {
        lemma_pending_children(b, k + 1);
        let s = stacked_from(b, k);
        assert(s.drop_last() =~= stacked_from(b, k + 1));
        assert(s.last() == &b.children@[k]);
        assert(kids[k] == block_view(b.children@[k]));
        assert(kids.skip(k)[0] == kids[k]);
        assert(kids.skip(k).drop_first() =~= kids.skip(k + 1));
    }
}

/// One step of a walk: what a walk has still to yield is the block that `next`
/// returns, then what it has still to yield afterwards. So the blocks come out in
/// source order, parent before children, children in order, each once.
pub proof fn law_walk_step<'a>(s: Seq<&'a Block>)
    requires
        s.len() > 0,
    ensures
        pending(s) == seq![block_view(*s.last())] + pending(s.drop_last() + stacked_children(s.last())),
{
    let b = s.last();
    lemma_pending_concat(s.drop_last(), stacked_children(b));
    lemma_pending_children(b, 0);
    assert(stacked_from(b, 0) =~= stacked_children(b));
    assert(block_view(*b).children.skip(0) =~= block_view(*b).children);
    assert(pending(s) =~= seq![block_view(*b)] + pending(s.drop_last() + stacked_children(b)));
}

/// A walk started at `b` has the whole tree of `b` to yield, in source order.
pub proof fn law_walk_start<'a>(b: &'a Block)
    ensures
        pending(seq![b]) == flatten_tree(block_view(*b)),
{
    let s = seq![b];
    assert(s.drop_last() =~= Seq::<&Block>::empty());
    assert(s.last() == b);
    assert(pending(s.drop_last()) == Seq::<BlockView>::empty());
    assert(pending(s) == flatten_tree(block_view(*b)) + pending(s.drop_last()));
    assert(flatten_tree(block_view(*b)) + Seq::<BlockView>::empty() =~= flatten_tree(block_view(*b)));
}

/// A reference to a page from a block of another page.
#[derive(Debug, Clone, PartialEq, Eq)]
pub struct IncomingRef {
    pub source_page_id: PageId,
    pub source_page_fingerprint: FileFingerprint,
    pub source_block_span: SourceSpan,
    pub ref_span: SourceSpan,
}

/// The value of an incoming reference.
pub struct IncomingRefView {
    pub source: PageIdView,
    pub fingerprint: FileFingerprint,
    pub block_span: SourceSpan,
    pub ref_span: SourceSpan,
}

impl View for IncomingRef {
    type V = IncomingRefView;

    open spec fn view(&self) -> IncomingRefView {
        IncomingRefView {
            source: self.source_page_id@,
            fingerprint: self.source_page_fingerprint,
            block_span: self.source_block_span,
            ref_span: self.ref_span,
        }
    }
}

impl IncomingRef {
    pub fn new(
        source_page_id: PageId,
        source_page_fingerprint: FileFingerprint,
        source_block_span: SourceSpan,
        ref_span: SourceSpan,
    ) -> (r: Self)
        ensures
            r.source_page_id@ == source_page_id@,
            r.source_page_fingerprint == source_page_fingerprint,
            r.source_block_span == source_block_span,
            r.ref_span == ref_span,
    {
        IncomingRef { source_page_id, source_page_fingerprint, source_block_span, ref_span }
    }

    /// A copy with the same value.
    pub fn duplicate(&self) -> (r: Self)
        ensures
            r@ == self@,
    {
        IncomingRef {
            source_page_id: self.source_page_id.duplicate(),
            source_page_fingerprint: self.source_page_fingerprint,
            source_block_span: self.source_block_span,
            ref_span: self.ref_span,
        }
    }
}

} // verus!
