//! Pages: the exact text of a markdown file together with its parsed blocks.

use vstd::prelude::*;
use vstd::string::*;

use super::block::{
    block_view, first_span_match, lemma_first_span_match_range, flatten_forest, flatten_tree, lemma_first_span_match_concat,
    lemma_flatten_forest_push, lemma_refs_of_concat, refs_of, refs_view, Block, BlockView,
    IncomingRef, PageRefOccurrence,
};
use super::error::PagePathError;
use super::page_id::{
    ancestor_view, ancestors_count, has_parent, parent_view, workspace_path_view, PageId, PageLocation,
};
use super::span::SourceSpan;
use crate::text::utf8_of;

verus! {

/// FNV-1a offset basis.
pub const FNV_OFFSET_BASIS: u64 = 0xcbf29ce484222325u64;

/// FNV-1a prime.
pub const FNV_PRIME: u64 = 0x100000001b3u64;

/// The 64-bit FNV-1a hash of `bytes`.
pub open spec fn fnv1a64_spec(bytes: Seq<u8>) -> u64
    decreases bytes.len(),
{
    if bytes.len() == 0 {
        FNV_OFFSET_BASIS
    } else {
        (fnv1a64_spec(bytes.drop_last()) ^ (bytes.last() as u64)).wrapping_mul(FNV_PRIME)
    }
}

fn fnv1a64(bytes: &[u8]) -> (r: u64)
    ensures
        r == fnv1a64_spec(bytes@),
{
    let mut hash: u64 = FNV_OFFSET_BASIS;
    let mut i: usize = 0;
    while i < bytes.len()
        invariant
            i <= bytes@.len(),
            hash == fnv1a64_spec(bytes@.take(i as int)),
        decreases bytes@.len() - i,
    {
        proof {
            assert(bytes@.take(i + 1).drop_last() =~= bytes@.take(i as int));
        }
        hash = (hash ^ (bytes[i] as u64)).wrapping_mul(FNV_PRIME);
        i = i + 1;
    }
    assert(bytes@.take(bytes@.len() as int) =~= bytes@);
    hash
}

/// The length and content hash of a page's exact text.
#[derive(Debug, Clone, Copy, PartialEq, Eq, Hash, Structural)]
pub struct FileFingerprint {
    len_bytes: usize,
    content_hash: u64,
}

impl View for FileFingerprint {
    type V = (usize, u64);

    closed spec fn view(&self) -> (usize, u64) {
        (self.len_bytes, self.content_hash)
    }
}

/// The fingerprint value of a text's UTF-8 bytes.
pub open spec fn fingerprint_of(bytes: Seq<u8>) -> (usize, u64) {
    (bytes.len() as usize, fnv1a64_spec(bytes))
}

impl FileFingerprint {
    /// Two fingerprints are equal exactly when their values are.
    pub proof fn lemma_view_injective(a: FileFingerprint, b: FileFingerprint)
        ensures
            (a@ == b@) <==> a == b,
    {
    }

    /// The byte length and FNV-1a hash of `text`.
    pub fn from_text(text: &str) -> (r: Self)
        ensures
            r@ == fingerprint_of(text.spec_bytes()),
    {
        let bytes = text.as_bytes();
        FileFingerprint { len_bytes: bytes.len(), content_hash: fnv1a64(bytes) }
    }

    pub fn len_bytes(self) -> (r: usize)
        ensures
            r == self@.0,
    {
        self.len_bytes
    }

    pub fn content_hash(self) -> (r: u64)
        ensures
            r == self@.1,
    {
        self.content_hash
    }
}

/// A markdown page: identity, location, exact text and what was parsed from it.
#[derive(Debug, Clone, PartialEq, Eq)]
pub struct Page {
    pub page_id: PageId,
    pub location: PageLocation,
    pub title: String,
    pub workspace_path: String,
    pub text: String,
    pub child_page_ids: Vec<PageId>,
    pub blocks: Vec<Block>,
    pub incoming_refs: Vec<IncomingRef>,
    pub fingerprint: FileFingerprint,
}

/// The values of a sequence of top-level blocks.
pub open spec fn forest_view(blocks: Seq<Block>) -> Seq<BlockView> {
    blocks.map_values(|b: Block| block_view(b))
}

impl Page {
    /// A page as built from `page_id` and `text`: title is the leaf name, path is the
    /// id's file path, the fingerprint is that of the text, and nothing is attached yet.
    pub open spec fn fresh(self, page_id: PageId, text: Seq<char>) -> bool {
        &&& self.page_id@ == page_id@
        &&& self.location@ == page_id@.location
        &&& self.title@ == page_id@.segments.last()
        &&& self.workspace_path@ == workspace_path_view(page_id@)
        &&& self.text@ == text
        &&& self.child_page_ids@.len() == 0
        &&& self.blocks@.len() == 0
        &&& self.incoming_refs@.len() == 0
        &&& self.fingerprint@ == fingerprint_of(utf8_of(text))
    }

    fn assemble(page_id: PageId, location: PageLocation, text: &str) -> (r: Self)
        requires
            page_id@.location == location@,
        ensures
            r.fresh(page_id, text@),
    {
        let title = page_id.leaf_name().as_str().to_owned();
        let workspace_path = page_id.to_workspace_path();
        let fingerprint = FileFingerprint::from_text(text);
        Page {
            page_id,
            location,
            title,
            workspace_path,
            text: text.to_owned(),
            child_page_ids: Vec::new(),
            blocks: Vec::new(),
            incoming_refs: Vec::new(),
            fingerprint,
        }
    }

    /// A page-backed page with the given text.
    pub fn new(page_id: PageId, text: &str) -> (r: Self)
        requires
            page_id@.location is Pages,
        ensures
            r.fresh(page_id, text@),
    {
        Self::assemble(page_id, PageLocation::Pages, text)
    }

    /// A page in `location`; `Err(NestedPath)` exactly when the id lives elsewhere.
    pub fn new_in_location(page_id: PageId, location: PageLocation, text: &str) -> (r: Result<
        Self,
        PagePathError,
    >)
        ensures
            r is Ok <==> page_id@.location == location@,
            r matches Ok(p) ==> p.fresh(page_id, text@),
            r matches Err(e) ==> e == PagePathError::NestedPath,
    {
        if !page_id.location().same(&location) {
            return Err(PagePathError::NestedPath);
        }
        Ok(Self::assemble(page_id, location, text))
    }

    /// The page with its blocks replaced.
    pub fn with_blocks(self, blocks: Vec<Block>) -> (r: Self)
        ensures
            r == (Page { blocks, ..self }),
    {
        let mut page = self;
        page.blocks = blocks;
        page
    }

    /// Replaces the text and blocks together and refreshes the fingerprint.
    pub fn set_text_and_blocks(&mut self, text: &str, blocks: Vec<Block>)
        ensures
            final(self).text@ == text@,
            final(self).blocks == blocks,
            final(self).fingerprint@ == fingerprint_of(text.spec_bytes()),
            final(self).page_id == old(self).page_id,
            final(self).location == old(self).location,
            final(self).title == old(self).title,
            final(self).workspace_path == old(self).workspace_path,
            final(self).child_page_ids == old(self).child_page_ids,
            final(self).incoming_refs == old(self).incoming_refs,
    {
        self.text = text.to_owned();
        self.blocks = blocks;
        self.fingerprint = FileFingerprint::from_text(text);
    }

    /// The first block of the page, in source order, whose whole span is `block_span`.
    pub fn find_block_by_span(&self, block_span: SourceSpan) -> (r: Option<&Block>)
        ensures
            r is None <==> first_span_match(
                flatten_forest(forest_view(self.blocks@)),
                block_span.lo() as int,
                block_span.hi() as int,
            ) < 0,
            r matches Some(b) ==> block_view(*b) == flatten_forest(
                forest_view(self.blocks@),
            )[first_span_match(
                flatten_forest(forest_view(self.blocks@)),
                block_span.lo() as int,
                block_span.hi() as int,
            )],
    {
        let ghost lo = block_span.lo() as int;
        let ghost hi = block_span.hi() as int;
        let ghost fv = forest_view(self.blocks@);
        let mut i: usize = 0;
        while i < self.blocks.len()
            invariant
                i <= self.blocks@.len(),
                fv == forest_view(self.blocks@),
                lo == block_span.lo() as int,
                hi == block_span.hi() as int,
                first_span_match(flatten_forest(fv.take(i as int)), lo, hi) < 0,
            decreases self.blocks@.len() - i,
        {
            let found = self.blocks[i].find_by_span(block_span);
            proof {
                assert(fv[i as int] == block_view(self.blocks@[i as int]));
                lemma_first_span_match_range(flatten_tree(fv[i as int]), lo, hi);
                assert(fv.take(i + 1) =~= fv.take(i as int).push(fv[i as int]));
                lemma_flatten_forest_push(fv.take(i as int), fv[i as int]);
                lemma_first_span_match_concat(
                    flatten_forest(fv.take(i as int)),
                    flatten_tree(fv[i as int]),
                    lo,
                    hi,
                );
                lemma_flatten_forest_split(fv, i + 1);
                lemma_first_span_match_concat(
                    flatten_forest(fv.take(i + 1)),
                    flatten_forest(fv.skip(i + 1)),
                    lo,
                    hi,
                );
            }
            if found.is_some() {
                proof {
                    let t = flatten_tree(fv[i as int]);
                    let pre = flatten_forest(fv.take(i as int));
                    let k = first_span_match(t, lo, hi);
                    assert(k >= 0);
                    assert(flatten_forest(fv.take(i + 1)) == pre + t);
                    assert(first_span_match(pre + t, lo, hi) == pre.len() + k);
                    assert(first_span_match(flatten_forest(fv), lo, hi) == pre.len() + k);
                    assert((pre + t)[pre.len() + k] == t[k]);
                }
                return found;
            }
            i = i + 1;
        }
        proof {
            assert(fv.take(self.blocks@.len() as int) =~= fv);
        }
        None
    }

    /// All references of the page, block after block in source order.
    pub fn outgoing_refs(&self) -> (r: Vec<PageRefOccurrence>)
        ensures
            refs_view(r@) == refs_of(flatten_forest(forest_view(self.blocks@))),
    {
        let ghost fv = forest_view(self.blocks@);
        let mut out: Vec<PageRefOccurrence> = Vec::new();
        let mut i: usize = 0;
        proof {
            assert(fv.take(0) =~= Seq::<BlockView>::empty());
            assert(refs_view(out@) =~= Seq::empty());
        }
        while i < self.blocks.len()
            invariant
                i <= self.blocks@.len(),
                fv == forest_view(self.blocks@),
                refs_view(out@) == refs_of(flatten_forest(fv.take(i as int))),
            decreases self.blocks@.len() - i,
        {
            let mut more = self.blocks[i].outgoing_refs_recursive();
            let ghost before = out@;
            let ghost more_v = more@;
            out.append(&mut more);
            proof {
                assert(fv[i as int] == block_view(self.blocks@[i as int]));
                assert(refs_view(out@) =~= refs_view(before) + refs_view(more_v));
                assert(fv.take(i + 1) =~= fv.take(i as int).push(fv[i as int]));
                lemma_flatten_forest_push(fv.take(i as int), fv[i as int]);
                lemma_refs_of_concat(flatten_forest(fv.take(i as int)), flatten_tree(fv[i as int]));
            }
            i = i + 1;
        }
        proof {
            assert(fv.take(self.blocks@.len() as int) =~= fv);
        }
        out
    }

    /// The parent page of a page-backed page.
    pub fn parent_page_id(&self) -> (r: Option<PageId>)
        ensures
            self.location@ is Stream ==> r is None,
            self.location@ is Pages ==> (r is Some <==> has_parent(self.page_id@)),
            r matches Some(p) ==> p@ == parent_view(self.page_id@),
    {
        self.location.parent_page_id(&self.page_id)
    }

    /// The ancestors of a page-backed page, shortest first.
    pub fn ancestor_page_ids(&self) -> (r: Vec<PageId>)
        ensures
            self.location@ is Stream ==> r@.len() == 0,
            self.location@ is Pages ==> r@.len() == ancestors_count(self.page_id@),
            self.location@ is Pages ==> forall|i: int|
                0 <= i < r@.len() ==> #[trigger] r@[i]@ == ancestor_view(self.page_id@, i + 1),
    {
        self.location.ancestor_page_ids(&self.page_id)
    }
}

/// Flattening a forest splits at any point.
pub proof fn lemma_flatten_forest_split(s: Seq<BlockView>, i: int)
    requires
        0 <= i <= s.len(),
    ensures
        flatten_forest(s) == flatten_forest(s.take(i)) + flatten_forest(s.skip(i)),
    decreases s.len(),
{
    if i == 0 {
        assert(s.take(0) =~= Seq::<BlockView>::empty());
        assert(s.skip(0) =~= s);
        assert(flatten_forest(s.take(0)) + flatten_forest(s) =~= flatten_forest(s));
    } else {
        lemma_flatten_forest_split(s.drop_first(), i - 1);
        assert(s.drop_first().take(i - 1) =~= s.take(i).drop_first());
        assert(s.drop_first().skip(i - 1) =~= s.skip(i));
        assert(s.take(i)[0] == s[0]);
        assert(flatten_forest(s) =~= flatten_forest(s.take(i)) + flatten_forest(s.skip(i)));
    }
}

} // verus!
